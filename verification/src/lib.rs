//! Completion engine core: completion items, auto-pairs, snippet expansion,
//! completion sources and the completion menu model.

pub mod text;
pub mod item;
pub mod menu;
pub mod pairs;
pub mod snippet;
pub mod sorting;
pub mod source;
