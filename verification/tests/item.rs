use hokan::item::{sort_items, CompletionItem, CompletionKind, CompletionSource};

#[test]
fn kind_icon_is_non_empty() {
    let kinds = [
        CompletionKind::Text,
        CompletionKind::Method,
        CompletionKind::Function,
        CompletionKind::Snippet,
        CompletionKind::File,
        CompletionKind::Folder,
        CompletionKind::Keyword,
    ];
    for kind in kinds {
        assert!(!kind.icon().is_empty(), "{kind:?} has empty icon");
    }
}

#[test]
fn kind_sort_priority_ordering() {
    // Variables/fields should sort before text
    assert!(CompletionKind::Variable.sort_priority() < CompletionKind::Text.sort_priority());
    // Functions before keywords
    assert!(CompletionKind::Function.sort_priority() < CompletionKind::Keyword.sort_priority());
    // Snippets before files
    assert!(CompletionKind::Snippet.sort_priority() < CompletionKind::File.sort_priority());
}

#[test]
fn item_text_to_insert_defaults_to_label() {
    let item = CompletionItem::new("hello", CompletionKind::Text, CompletionSource::Buffer);
    assert_eq!(item.text_to_insert(), "hello");
}

#[test]
fn item_text_to_insert_uses_override() {
    let item = CompletionItem::new("println!", CompletionKind::Snippet, CompletionSource::Snippet)
        .insert_text("println!(\"$1\")$0");
    assert_eq!(item.text_to_insert(), "println!(\"$1\")$0");
}

#[test]
fn item_text_to_filter_defaults_to_label() {
    let item = CompletionItem::new("foo", CompletionKind::Function, CompletionSource::Lsp);
    assert_eq!(item.text_to_filter(), "foo");
}

#[test]
fn item_text_to_filter_uses_override() {
    let item = CompletionItem::new("foo()", CompletionKind::Function, CompletionSource::Lsp)
        .filter_text("foo");
    assert_eq!(item.text_to_filter(), "foo");
}

#[test]
fn item_sort_text_includes_priority() {
    let var_item =
        CompletionItem::new("alpha", CompletionKind::Variable, CompletionSource::Lsp);
    let text_item =
        CompletionItem::new("alpha", CompletionKind::Text, CompletionSource::Buffer);
    // Variable (priority 0) should sort before Text (priority 7)
    assert!(var_item.text_to_sort() < text_item.text_to_sort());
}

#[test]
fn sort_items_by_kind_then_label() {
    let mut items = vec![
        CompletionItem::new("zebra", CompletionKind::Text, CompletionSource::Buffer),
        CompletionItem::new("alpha", CompletionKind::Variable, CompletionSource::Lsp),
        CompletionItem::new("beta", CompletionKind::Function, CompletionSource::Lsp),
    ];
    sort_items(&mut items);
    assert_eq!(items[0].label, "alpha"); // Variable, priority 0
    assert_eq!(items[1].label, "beta"); // Function, priority 1
    assert_eq!(items[2].label, "zebra"); // Text, priority 7
}

#[test]
fn sort_items_same_kind_by_label() {
    let mut items = vec![
        CompletionItem::new("gamma", CompletionKind::Function, CompletionSource::Lsp),
        CompletionItem::new("alpha", CompletionKind::Function, CompletionSource::Lsp),
        CompletionItem::new("beta", CompletionKind::Function, CompletionSource::Lsp),
    ];
    sort_items(&mut items);
    assert_eq!(items[0].label, "alpha");
    assert_eq!(items[1].label, "beta");
    assert_eq!(items[2].label, "gamma");
}

#[test]
fn render_line_without_detail() {
    let item = CompletionItem::new("foo", CompletionKind::Function, CompletionSource::Lsp);
    let line = item.render_line(10);
    assert!(line.contains("foo"));
    assert!(line.contains("[LSP]"));
}

#[test]
fn render_line_with_detail() {
    let item = CompletionItem::new("foo", CompletionKind::Function, CompletionSource::Lsp)
        .detail("fn()");
    let line = item.render_line(10);
    assert!(line.contains("foo"));
    assert!(line.contains("fn()"));
    assert!(line.contains("[LSP]"));
}

#[test]
fn source_tag() {
    assert_eq!(CompletionSource::Lsp.tag(), "[LSP]");
    assert_eq!(CompletionSource::Buffer.tag(), "[Buf]");
    assert_eq!(CompletionSource::Path.tag(), "[Path]");
    assert_eq!(CompletionSource::Snippet.tag(), "[Snip]");
}

#[test]
fn sort_text_override() {
    let mut items = vec![
        CompletionItem::new("beta", CompletionKind::Function, CompletionSource::Lsp)
            .sort_text("aaa"),
        CompletionItem::new("alpha", CompletionKind::Function, CompletionSource::Lsp)
            .sort_text("zzz"),
    ];
    sort_items(&mut items);
    // "beta" has sort_text "aaa" so it sorts first despite label
    assert_eq!(items[0].label, "beta");
    assert_eq!(items[1].label, "alpha");
}
