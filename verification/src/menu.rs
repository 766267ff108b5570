//! The completion menu's state: candidates, the filter, and which
//! candidates pass it.
//!
//! The popup window, the list widget and the fuzzy matcher live with the
//! editor front end; this model holds what the menu decides. The matcher's
//! ranking is handed to [`MenuModel::refilter`] as the candidates' indices
//! in ranked order.

use vstd::prelude::*;

use crate::item::{CompletionItem, CompletionItemView, filter_text_of, render_line_of};
use crate::source::item_views;
use crate::text::{byte_len, utf8_len};

verus! {

/// Maximum number of visible items in the completion menu.
pub const MAX_VISIBLE_ITEMS: usize = 10;

/// Maximum number of total candidates to consider.
pub const MAX_CANDIDATES: usize = 200;

/// Labels are padded to the longest shown label, but to no more than this.
pub const MAX_LABEL_WIDTH: usize = 40;

/// The completion menu state.
pub struct MenuModel {
    /// All unfiltered completion items.
    candidates: Vec<CompletionItem>,
    /// Indices into `candidates` that pass the current filter, in menu order.
    filtered_indices: Vec<usize>,
    /// The current filter/prefix text.
    filter: String,
}

/// The mathematical content of the menu state.
pub struct MenuView {
    pub candidates: Seq<CompletionItemView>,
    pub filtered: Seq<usize>,
    pub filter: Seq<char>,
}

impl View for MenuModel {
    type V = MenuView;

    closed spec fn view(&self) -> MenuView {
        MenuView {
            candidates: item_views(self.candidates@),
            filtered: self.filtered_indices@,
            filter: self.filter@,
        }
    }
}

/// The indices `0..n` in order.
pub open spec fn all_indices(n: nat) -> Seq<usize> {
    Seq::new(n, |i: int| i as usize)
}

/// The longest byte length (as `str::len` gives it) among the labels of
/// the shown candidates.
pub open spec fn longest_label(cands: Seq<CompletionItemView>, shown: Seq<usize>) -> nat
    decreases shown.len(),
{
    if shown.len() == 0 {
        0
    } else {
        let rest = longest_label(cands, shown.drop_last());
        let here = (utf8_len(cands[shown.last() as int].label) as usize) as nat;
        if here > rest {
            here
        } else {
            rest
        }
    }
}

/// The label width of the menu: the longest shown label, at most 40.
pub open spec fn label_width(cands: Seq<CompletionItemView>, shown: Seq<usize>) -> nat {
    let w = longest_label(cands, shown);
    if w < MAX_LABEL_WIDTH {
        w
    } else {
        MAX_LABEL_WIDTH as nat
    }
}

impl MenuView {
    /// Every shown index points at a candidate.
    pub open spec fn wf(self) -> bool {
        forall|i: int| 0 <= i < self.filtered.len() ==> #[trigger] self.filtered[i] < self.candidates.len()
    }

    /// The menu lines, one per shown candidate.
    pub open spec fn lines(self) -> Seq<Seq<char>> {
        Seq::new(
            self.filtered.len(),
            |i: int|
                render_line_of(
                    self.candidates[self.filtered[i] as int],
                    label_width(self.candidates, self.filtered) as nat,
                ),
        )
    }
}

impl MenuModel {
    /// Create an empty menu state.
    pub fn new() -> (r: Self)
        ensures
            r@.candidates.len() == 0,
            r@.filtered.len() == 0,
            r@.filter.len() == 0,
            r@.wf(),
    {
        MenuModel { candidates: Vec::new(), filtered_indices: Vec::new(), filter: String::new() }
    }

    /// Set the candidates (keeping the first `MAX_CANDIDATES`) and the
    /// filter prefix. No candidate is shown until [`Self::refilter`].
    pub fn set_candidates(&mut self, candidates: Vec<CompletionItem>, prefix: &str)
        ensures
            final(self)@.candidates == (if candidates@.len() <= MAX_CANDIDATES {
                item_views(candidates@)
            } else {
                item_views(candidates@).take(MAX_CANDIDATES as int)
            }),
            final(self)@.filter == prefix@,
            final(self)@.filtered.len() == 0,
            final(self)@.wf(),
    {
        let mut candidates = candidates;
        let ghost orig = candidates@;
        candidates.truncate(MAX_CANDIDATES);
        assert(item_views(candidates@) =~= (if orig.len() <= MAX_CANDIDATES {
            item_views(orig)
        } else {
            item_views(orig).take(MAX_CANDIDATES as int)
        }));
        self.candidates = candidates;
        self.filter = prefix.to_owned();
        self.filtered_indices = Vec::new();
    }

    /// Update the filter prefix (e.g., as the user types more characters).
    /// The candidates stay; the shown ones are recomputed by [`Self::refilter`].
    pub fn update_filter(&mut self, prefix: &str)
        requires
            old(self)@.wf(),
        ensures
            final(self)@ == (MenuView { filter: prefix@, ..old(self)@ }),
            final(self)@.wf(),
    {
        self.filter = prefix.to_owned();
    }

    /// The current filter text.
    pub fn filter(&self) -> (r: &str)
        ensures
            r@ == self@.filter,
    {
        self.filter.as_str()
    }

    /// The filter texts of the candidates, in candidate order: what the
    /// fuzzy matcher ranks against the filter.
    pub fn filter_texts(&self) -> (r: Vec<String>)
        ensures
            r@.len() == self@.candidates.len(),
            forall|i: int| 0 <= i < r@.len() ==> (#[trigger] r@[i])@ == filter_text_of(self@.candidates[i]),
    {
        let mut r: Vec<String> = Vec::new();
        for i in 0..self.candidates.len()
            invariant
                r@.len() == i,
                i <= self.candidates@.len(),
                forall|k: int| 0 <= k < i ==> (#[trigger] r@[k])@ == filter_text_of(item_views(self.candidates@)[k]),
        {
            r.push(self.candidates[i].text_to_filter().to_owned());
        }
        r
    }

    /// Recompute the shown candidates: all of them, in order, when the
    /// filter is empty; otherwise those of `ranked`, in its order.
    /// `ranked` holds candidate indices as the fuzzy matcher ranked the
    /// filter texts against the filter.
    pub fn refilter(&mut self, ranked: Vec<usize>)
        requires
            forall|i: int| 0 <= i < ranked@.len() ==> #[trigger] ranked@[i] < old(self)@.candidates.len(),
        ensures
            final(self)@.candidates == old(self)@.candidates,
            final(self)@.filter == old(self)@.filter,
            final(self)@.filtered == (if old(self)@.filter.len() == 0 {
                all_indices(old(self)@.candidates.len())
            } else {
                ranked@
            }),
            final(self)@.wf(),
    {
        if self.filter.as_str().is_empty() {
            let n = self.candidates.len();
            let mut all: Vec<usize> = Vec::new();
            for i in 0..n
                invariant
                    all@ =~= all_indices(i as nat),
            {
                all.push(i);
            }
            self.filtered_indices = all;
        } else {
            self.filtered_indices = ranked;
        }
    }

    /// Forget the candidates, the shown ones and the filter (menu hidden).
    pub fn clear(&mut self)
        ensures
            final(self)@.candidates.len() == 0,
            final(self)@.filtered.len() == 0,
            final(self)@.filter.len() == 0,
            final(self)@.wf(),
    {
        self.candidates.clear();
        self.filtered_indices.clear();
        self.filter = String::new();
    }

    /// The candidate indices of the shown items, in menu order.
    pub fn filtered_indices(&self) -> (r: &Vec<usize>)
        ensures
            r@ == self@.filtered,
    {
        &self.filtered_indices
    }

    /// The display line of each shown item: icon, label padded to the
    /// longest shown label (at most 40 bytes wide), detail and source tag.
    pub fn display_lines(&self) -> (r: Vec<String>)
        requires
            self@.wf(),
        ensures
            r@.len() == self@.filtered.len(),
            forall|i: int| 0 <= i < r@.len() ==> (#[trigger] r@[i])@ == self@.lines()[i],
    {
        let ghost v = self@;
        let n = self.filtered_indices.len();
        let mut longest: usize = 0;
        assert(self.filtered_indices@.take(0) =~= Seq::<usize>::empty());
        for i in 0..n
            invariant
                n == v.filtered.len(),
                v == self@,
                v.wf(),
                longest as nat == longest_label(v.candidates, v.filtered.take(i as int)),
        {
            let idx = self.filtered_indices[i];
            assert(idx < v.candidates.len());
            let len = byte_len(&self.candidates[idx].label);
            assert(v.filtered.take(i + 1).drop_last() =~= v.filtered.take(i as int));
            assert(v.filtered.take(i + 1).last() == idx);
            if len > longest {
                longest = len;
            }
        }
        assert(v.filtered.take(n as int) =~= v.filtered);
        let width = if longest < MAX_LABEL_WIDTH {
            longest
        } else {
            MAX_LABEL_WIDTH
        };
        let mut r: Vec<String> = Vec::new();
        for i in 0..n
            invariant
                n == v.filtered.len(),
                v == self@,
                v.wf(),
                width as nat == label_width(v.candidates, v.filtered),
                r@.len() == i,
                forall|k: int| 0 <= k < i ==> (#[trigger] r@[k])@ == v.lines()[k],
        {
            let idx = self.filtered_indices[i];
            r.push(self.candidates[idx].render_line(width));
        }
        r
    }

    /// The item for the menu position `selected`, or `None` when no item
    /// is shown there.
    pub fn confirm(&self, selected: usize) -> (r: Option<&CompletionItem>)
        requires
            self@.wf(),
        ensures
            match r {
                Some(item) => selected < self@.filtered.len() && item@
                    == self@.candidates[self@.filtered[selected as int] as int],
                None => selected >= self@.filtered.len(),
            },
    {
        if selected < self.filtered_indices.len() {
            let idx = self.filtered_indices[selected];
            assert(self@.filtered[selected as int] == idx);
            assert(item_views(self.candidates@).len() == self.candidates@.len());
            Some(&self.candidates[idx])
        } else {
            None
        }
    }

    /// Whether the menu is visible: its window is open and some item is shown.
    pub fn is_visible(&self, window_open: bool) -> (r: bool)
        ensures
            r == (window_open && self@.filtered.len() > 0),
    {
        window_open && self.filtered_indices.len() > 0
    }

    /// Number of shown items.
    pub fn item_count(&self) -> (r: usize)
        ensures
            r == self@.filtered.len(),
    {
        self.filtered_indices.len()
    }
}

/// The byte length (as `str::len` gives it) of a candidate's label.
pub open spec fn label_bytes(v: CompletionItemView) -> nat {
    (utf8_len(v.label) as usize) as nat
}

proof fn lemma_longest_label(cands: Seq<CompletionItemView>, shown: Seq<usize>)
    ensures
        forall|i: int|
            0 <= i < shown.len() ==> label_bytes(cands[#[trigger] shown[i] as int]) <= longest_label(
                cands,
                shown,
            ),
        shown.len() == 0 ==> longest_label(cands, shown) == 0,
        shown.len() > 0 ==> exists|i: int|
            0 <= i < shown.len() && longest_label(cands, shown) == label_bytes(
                cands[#[trigger] shown[i] as int],
            ),
    decreases shown.len(),
{
    if shown.len() > 0 {
        let prev = shown.drop_last();
        lemma_longest_label(cands, prev);
        assert forall|i: int| 0 <= i < shown.len() implies label_bytes(
            cands[#[trigger] shown[i] as int],
        ) <= longest_label(cands, shown) by {
            if i < shown.len() - 1 {
                assert(shown[i] == prev[i]);
            }
        }
        if longest_label(cands, shown) == label_bytes(cands[shown.last() as int]) {
            assert(shown[shown.len() - 1] == shown.last());
        } else {
            let i = choose|i: int|
                0 <= i < prev.len() && longest_label(cands, prev) == label_bytes(
                    cands[#[trigger] prev[i] as int],
                );
            assert(shown[i] == prev[i]);
        }
    }
}

/// The label width of the menu is the byte length of the longest shown
/// label, capped at 40: no shown label is longer unless the width is 40,
/// the width is some shown label's length or 40, and 0 when nothing is
/// shown.
pub proof fn law_label_width(cands: Seq<CompletionItemView>, shown: Seq<usize>)
    ensures
        label_width(cands, shown) <= 40,
        forall|i: int|
            0 <= i < shown.len() ==> label_bytes(cands[#[trigger] shown[i] as int]) <= label_width(
                cands,
                shown,
            ) || label_width(cands, shown) == 40,
        shown.len() == 0 ==> label_width(cands, shown) == 0,
        shown.len() > 0 ==> label_width(cands, shown) == 40 || exists|i: int|
            0 <= i < shown.len() && label_width(cands, shown) == label_bytes(
                cands[#[trigger] shown[i] as int],
            ),
{
    lemma_longest_label(cands, shown);
}

/// With an empty filter every candidate is shown once, in candidate order:
/// the shown indices are `0, 1, ..., n - 1`.
pub proof fn law_all_indices_in_order(n: nat)
    requires
        n <= usize::MAX,
    ensures
        all_indices(n).len() == n,
        forall|i: int| 0 <= i < n ==> #[trigger] all_indices(n)[i] as int == i,
{
}

} // verus!
