use hokan::item::{sort_items, CompletionItem, CompletionKind, CompletionSource};
use hokan::menu::{MenuModel, MAX_CANDIDATES};
use hokan::pairs::{default_pairs, on_backspace, on_char_typed, BackspaceAction, Pair, PairAction};
use hokan::snippet::expand;
use hokan::source::{
    buffer_completions, expand_path_prefix, extract_words, path_items, CompletionContext, PathEntry,
};

#[test]
fn kind_labels_and_priorities() {
    assert_eq!(CompletionKind::TypeParameter.label(), "TypeParam");
    assert_eq!(CompletionKind::EnumMember.label(), "EnumMember");
    assert_eq!(CompletionKind::Variable.sort_priority(), 0);
    assert_eq!(CompletionKind::Constructor.sort_priority(), 1);
    assert_eq!(CompletionKind::Keyword.sort_priority(), 2);
    assert_eq!(CompletionKind::Snippet.sort_priority(), 3);
    assert_eq!(CompletionKind::Struct.sort_priority(), 4);
    assert_eq!(CompletionKind::Unit.sort_priority(), 5);
    assert_eq!(CompletionKind::Folder.sort_priority(), 6);
    assert_eq!(CompletionKind::Text.sort_priority(), 7);
    assert_eq!(CompletionKind::Operator.sort_priority(), 8);
}

#[test]
fn icons_distinct() {
    let kinds = [
        CompletionKind::Text,
        CompletionKind::Method,
        CompletionKind::Function,
        CompletionKind::Constructor,
        CompletionKind::Field,
        CompletionKind::Variable,
        CompletionKind::Class,
        CompletionKind::Interface,
        CompletionKind::Module,
        CompletionKind::Property,
        CompletionKind::Unit,
        CompletionKind::Value,
        CompletionKind::Enum,
        CompletionKind::Keyword,
        CompletionKind::Snippet,
        CompletionKind::Color,
        CompletionKind::File,
        CompletionKind::Reference,
        CompletionKind::Folder,
        CompletionKind::EnumMember,
        CompletionKind::Constant,
        CompletionKind::Struct,
        CompletionKind::Event,
        CompletionKind::Operator,
        CompletionKind::TypeParameter,
    ];
    for a in kinds {
        assert_eq!(a.icon().chars().count(), 2);
        assert!(a.icon().ends_with(' '));
        for b in kinds {
            if a != b {
                assert_ne!(a.icon(), b.icon());
            }
        }
    }
}

#[test]
fn text_to_sort_exact() {
    let item = CompletionItem::new("alpha", CompletionKind::Variable, CompletionSource::Lsp);
    assert_eq!(item.text_to_sort(), "0alpha");
    let item = CompletionItem::new("beta", CompletionKind::Color, CompletionSource::Lsp).sort_text("zz");
    assert_eq!(item.text_to_sort(), "8zz");
}

#[test]
fn render_line_exact() {
    let item = CompletionItem::new("foo", CompletionKind::Function, CompletionSource::Lsp).detail("fn()");
    assert_eq!(item.render_line(6), "\u{f0295} foo     fn()  [LSP]");
    let item = CompletionItem::new("foobar", CompletionKind::Text, CompletionSource::Buffer);
    assert_eq!(item.render_line(3), "\u{f15c} foobar  [Buf]");
    let item = CompletionItem::new("é", CompletionKind::Text, CompletionSource::Path);
    assert_eq!(item.render_line(3), "\u{f15c} é    [Path]");
}

#[test]
fn sort_items_is_stable() {
    let mut items = vec![
        CompletionItem::new("x", CompletionKind::Text, CompletionSource::Buffer).sort_text("same"),
        CompletionItem::new("y", CompletionKind::Text, CompletionSource::Lsp).sort_text("same"),
        CompletionItem::new("z", CompletionKind::Field, CompletionSource::Lsp),
    ];
    sort_items(&mut items);
    assert_eq!(items[0].label, "z");
    assert_eq!(items[1].label, "x");
    assert_eq!(items[2].label, "y");
}

#[test]
fn backspace_undoes_every_default_pair() {
    for p in default_pairs() {
        let action = on_char_typed(None, None, p.open, &default_pairs());
        assert_eq!(action, PairAction::InsertPair { open: p.open, close: p.close });
        assert_eq!(on_backspace(Some(p.open), Some(p.close), &default_pairs()), BackspaceAction::DeletePair);
    }
}

#[test]
fn unicode_letter_blocks_pairing() {
    assert_eq!(on_char_typed(Some('é'), None, '"', &default_pairs()), PairAction::Passthrough);
    assert_eq!(on_char_typed(None, Some('ж'), '(', &default_pairs()), PairAction::Passthrough);
    assert_eq!(
        on_char_typed(Some('-'), Some(' '), '\'', &default_pairs()),
        PairAction::InsertPair { open: '\'', close: '\'' }
    );
}

#[test]
fn first_matching_pair_wins() {
    let pairs = [Pair { open: '<', close: '>' }, Pair { open: '<', close: ']' }];
    assert_eq!(on_char_typed(None, None, '<', &pairs), PairAction::InsertPair { open: '<', close: '>' });
    assert_eq!(on_backspace(Some('<'), Some(']'), &pairs), BackspaceAction::DeletePair);
}

#[test]
fn snippet_defaults_sit_at_byte_offsets() {
    let result = expand("é ${1:héllo} x ${2:ü}$3");
    assert_eq!(result.text, "é héllo x ü");
    let bytes = result.text.as_bytes();
    for t in &result.tabstops {
        assert_eq!(&bytes[t.offset..t.offset + t.len], t.default_text.as_bytes());
    }
    assert_eq!(result.tabstops[0].offset, 3);
    assert_eq!(result.tabstops[0].len, 6);
    assert_eq!(result.tabstops[2].offset, bytes.len());
}

#[test]
fn snippet_same_numbers_keep_template_order() {
    let result = expand("${1:a}${0:z}${1:b}$0");
    let numbers: Vec<u32> = result.tabstops.iter().map(|t| t.number).collect();
    assert_eq!(numbers, vec![1, 1, 0, 0]);
    assert_eq!(result.tabstops[0].default_text, "a");
    assert_eq!(result.tabstops[1].default_text, "b");
    assert_eq!(result.tabstops[2].default_text, "z");
}

#[test]
fn snippet_number_saturates() {
    let result = expand("$99999999999");
    assert_eq!(result.tabstops.len(), 1);
    assert_eq!(result.tabstops[0].number, u32::MAX);
    assert_eq!(result.text, "");
}

#[test]
fn snippet_malformed_braces() {
    assert_eq!(expand("${1x}").text, "${1x}");
    assert_eq!(expand("${").text, "${");
    assert_eq!(expand("${12").text, "${12");
    assert_eq!(expand("$$$").text, "$$");
}

#[test]
fn snippet_plain_text_unchanged() {
    let result = expand("no markers here: {} ~ é");
    assert_eq!(result.text, "no markers here: {} ~ é");
    assert!(result.tabstops.is_empty());
}

#[test]
fn word_prefix_is_suffix_of_path_prefix() {
    for line in ["cd ~/src/main_rs", "x.y-z", "", "a b", "(foo_1"] {
        let word = CompletionContext::extract_prefix(line);
        let path = CompletionContext::extract_path_prefix(line);
        assert!(path.ends_with(&word));
    }
    assert_eq!(CompletionContext::extract_prefix("é_ab"), "_ab");
    assert_eq!(CompletionContext::extract_path_prefix("x ~/a-b.c"), "~/a-b.c");
}

#[test]
fn words_split_on_non_ascii() {
    assert_eq!(extract_words("abéde xy_z"), vec!["ab", "de", "xy_z"]);
}

#[test]
fn buffer_sort_text_has_padded_distance() {
    let lines = vec!["alphabet".to_string(), "".to_string(), "alpine alphabet".to_string()];
    let items = buffer_completions(&lines, "alp", 2);
    let labels: Vec<&str> = items.iter().map(|i| i.label.as_str()).collect();
    assert_eq!(labels, vec!["alphabet", "alpine"]);
    assert_eq!(items[0].sort_text.as_deref(), Some("700002alphabet"));
    assert_eq!(items[1].sort_text.as_deref(), Some("700000alpine"));
    assert_eq!(items[0].kind, CompletionKind::Text);
}

#[test]
fn buffer_sort_text_wide_distance() {
    let mut lines = vec![String::new(); 123457];
    lines[0] = "zebra_a".to_string();
    let items = buffer_completions(&lines, "zeb", 123456);
    assert_eq!(items.len(), 1);
    assert_eq!(items[0].sort_text.as_deref(), Some("7123456zebra_a"));
}

#[test]
fn path_prefix_expansion() {
    assert_eq!(expand_path_prefix("", Some("/home/u".to_string())), None);
    assert_eq!(expand_path_prefix("~/code", Some("/home/u".to_string())), Some("/home/u/code".to_string()));
    assert_eq!(expand_path_prefix("~/code", None), None);
    assert_eq!(expand_path_prefix("./src/ma", None), Some("./src/ma".to_string()));
}

#[test]
fn path_items_filter_and_order() {
    let entries = vec![
        PathEntry { name: "main.rs".to_string(), is_dir: false },
        PathEntry { name: ".hidden".to_string(), is_dir: false },
        PathEntry { name: "mod".to_string(), is_dir: true },
        PathEntry { name: "lib.rs".to_string(), is_dir: false },
        PathEntry { name: "macros".to_string(), is_dir: true },
    ];
    let items = path_items("m", entries);
    let labels: Vec<&str> = items.iter().map(|i| i.label.as_str()).collect();
    assert_eq!(labels, vec!["macros", "mod", "main.rs"]);
    assert_eq!(items[0].kind, CompletionKind::Folder);
    assert_eq!(items[0].text_to_insert(), "macros/");
    assert_eq!(items[0].detail.as_deref(), Some("directory"));
    assert_eq!(items[2].kind, CompletionKind::File);
    assert_eq!(items[2].text_to_insert(), "main.rs");
    assert_eq!(items[2].detail.as_deref(), Some("file"));
    assert_eq!(items[2].source, CompletionSource::Path);

    let hidden = path_items(".h", vec![PathEntry { name: ".hidden".to_string(), is_dir: false }]);
    assert_eq!(hidden.len(), 1);
    let all = path_items("", vec![
        PathEntry { name: ".git".to_string(), is_dir: true },
        PathEntry { name: "b".to_string(), is_dir: false },
        PathEntry { name: "a".to_string(), is_dir: false },
    ]);
    let labels: Vec<&str> = all.iter().map(|i| i.label.as_str()).collect();
    assert_eq!(labels, vec!["a", "b"]);
}

#[test]
fn menu_model_flow() {
    let mut menu = MenuModel::new();
    assert_eq!(menu.item_count(), 0);
    assert!(!menu.is_visible(true));

    let many: Vec<CompletionItem> = (0..250)
        .map(|i| CompletionItem::new(&format!("item{i}"), CompletionKind::Text, CompletionSource::Buffer))
        .collect();
    menu.set_candidates(many, "");
    menu.refilter(Vec::new());
    assert_eq!(menu.item_count(), MAX_CANDIDATES);
    assert_eq!(menu.confirm(199).map(|c| c.label.as_str()), Some("item199"));
    assert!(menu.confirm(200).is_none());
    assert!(menu.is_visible(true));
    assert!(!menu.is_visible(false));

    let items = vec![
        CompletionItem::new("foo", CompletionKind::Function, CompletionSource::Lsp).filter_text("f"),
        CompletionItem::new("barbaz", CompletionKind::Variable, CompletionSource::Lsp).detail("i32"),
    ];
    menu.set_candidates(items, "ba");
    assert_eq!(menu.filter_texts(), vec!["f".to_string(), "barbaz".to_string()]);
    menu.refilter(vec![1]);
    assert_eq!(menu.item_count(), 1);
    assert_eq!(menu.confirm(0).map(|c| c.label.as_str()), Some("barbaz"));
    assert_eq!(menu.display_lines(), vec!["\u{f0ae7} barbaz  i32  [LSP]".to_string()]);

    menu.update_filter("");
    menu.refilter(Vec::new());
    assert_eq!(menu.filtered_indices(), &vec![0, 1]);
    let lines = menu.display_lines();
    assert_eq!(lines[0], "\u{f0295} foo     [LSP]");

    menu.clear();
    assert_eq!(menu.item_count(), 0);
    assert_eq!(menu.filter(), "");
    assert!(!menu.is_visible(true));
}

#[test]
fn snippet_zero_after_largest_number() {
    let result = expand("$0$4294967295");
    let numbers: Vec<u32> = result.tabstops.iter().map(|t| t.number).collect();
    assert_eq!(numbers, vec![u32::MAX, 0]);
    let result = expand("$0$99999999999$7");
    let numbers: Vec<u32> = result.tabstops.iter().map(|t| t.number).collect();
    assert_eq!(numbers, vec![7, u32::MAX, 0]);
}

#[test]
fn nearby_buffer_words_sort_first() {
    let lines: Vec<String> = (0..100).map(|i| format!("hello_{i}")).collect();
    let mut items = buffer_completions(&lines, "hello", 50);
    assert_eq!(items.len(), 100);
    sort_items(&mut items);
    assert_eq!(items[0].label, "hello_50");
    assert!(items[1].label == "hello_49" || items[1].label == "hello_51");
    assert_eq!(items[99].label, "hello_0");
}
