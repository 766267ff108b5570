//! Completion item types and kinds.
//!
//! A completion candidate carries a label, a kind, optional detail text,
//! optional insert, sort and filter overrides, and the source it came from.

use vstd::prelude::*;

use crate::sorting::{
    is_index_permutation, is_stable_order, is_stable_sort_of, lex_le, lex_lt, stable_sort_by_keys,
};
use crate::text::{chars_of, digit_char, push_char};

verus! {

/// The kind of a completion item, matching LSP `CompletionItemKind`.
#[derive(Debug, Clone, Copy, PartialEq, Eq, Hash, Structural)]
pub enum CompletionKind {
    Text,
    Method,
    Function,
    Constructor,
    Field,
    Variable,
    Class,
    Interface,
    Module,
    Property,
    Unit,
    Value,
    Enum,
    Keyword,
    Snippet,
    Color,
    File,
    Reference,
    Folder,
    EnumMember,
    Constant,
    Struct,
    Event,
    Operator,
    TypeParameter,
}

/// The menu icon of a kind: a Nerd Font codepoint followed by one space.
pub open spec fn kind_icon(k: CompletionKind) -> Seq<char> {
    match k {
        CompletionKind::Text => "\u{f15c} "@,
        CompletionKind::Method => "\u{f6a6} "@,
        CompletionKind::Function => "\u{f0295} "@,
        CompletionKind::Constructor => "\u{f0536} "@,
        CompletionKind::Field => "\u{f0374} "@,
        CompletionKind::Variable => "\u{f0ae7} "@,
        CompletionKind::Class => "\u{f0b22} "@,
        CompletionKind::Interface => "\u{f108} "@,
        CompletionKind::Module => "\u{f0d25} "@,
        CompletionKind::Property => "\u{f0ad4} "@,
        CompletionKind::Unit => "\u{f475} "@,
        CompletionKind::Value => "\u{f89f} "@,
        CompletionKind::Enum => "\u{f0702} "@,
        CompletionKind::Keyword => "\u{f0f4b} "@,
        CompletionKind::Snippet => "\u{f0e14} "@,
        CompletionKind::Color => "\u{f0266} "@,
        CompletionKind::File => "\u{f0214} "@,
        CompletionKind::Reference => "\u{f0c95} "@,
        CompletionKind::Folder => "\u{f024b} "@,
        CompletionKind::EnumMember => "\u{f0703} "@,
        CompletionKind::Constant => "\u{f03a0} "@,
        CompletionKind::Struct => "\u{ea91} "@,
        CompletionKind::Event => "\u{f0adb} "@,
        CompletionKind::Operator => "\u{f0604} "@,
        CompletionKind::TypeParameter => "\u{f1507} "@,
    }
}

/// The short label of a kind.
pub open spec fn kind_label(k: CompletionKind) -> Seq<char> {
    match k {
        CompletionKind::Text => "Text"@,
        CompletionKind::Method => "Method"@,
        CompletionKind::Function => "Function"@,
        CompletionKind::Constructor => "Constructor"@,
        CompletionKind::Field => "Field"@,
        CompletionKind::Variable => "Variable"@,
        CompletionKind::Class => "Class"@,
        CompletionKind::Interface => "Interface"@,
        CompletionKind::Module => "Module"@,
        CompletionKind::Property => "Property"@,
        CompletionKind::Unit => "Unit"@,
        CompletionKind::Value => "Value"@,
        CompletionKind::Enum => "Enum"@,
        CompletionKind::Keyword => "Keyword"@,
        CompletionKind::Snippet => "Snippet"@,
        CompletionKind::Color => "Color"@,
        CompletionKind::File => "File"@,
        CompletionKind::Reference => "Reference"@,
        CompletionKind::Folder => "Folder"@,
        CompletionKind::EnumMember => "EnumMember"@,
        CompletionKind::Constant => "Constant"@,
        CompletionKind::Struct => "Struct"@,
        CompletionKind::Event => "Event"@,
        CompletionKind::Operator => "Operator"@,
        CompletionKind::TypeParameter => "TypeParam"@,
    }
}

/// The sort priority of a kind (lower sorts first).
pub open spec fn kind_priority(k: CompletionKind) -> u8 {
    match k {
        CompletionKind::Variable | CompletionKind::Field | CompletionKind::Property => 0,
        CompletionKind::Function | CompletionKind::Method | CompletionKind::Constructor => 1,
        CompletionKind::Keyword => 2,
        CompletionKind::Snippet => 3,
        CompletionKind::Module | CompletionKind::Class | CompletionKind::Struct
        | CompletionKind::Interface | CompletionKind::Enum => 4,
        CompletionKind::Constant | CompletionKind::EnumMember | CompletionKind::Value
        | CompletionKind::Unit => 5,
        CompletionKind::File | CompletionKind::Folder => 6,
        CompletionKind::Text => 7,
        CompletionKind::Color | CompletionKind::Reference | CompletionKind::Event
        | CompletionKind::Operator | CompletionKind::TypeParameter => 8,
    }
}

impl CompletionKind {
    /// Icon string for display in the completion menu.
    ///
    /// Each kind maps to a distinct Nerd Font icon codepoint.
    pub fn icon(self) -> (r: &'static str)
        ensures
            r@ == kind_icon(self),
    {
        match self {
            CompletionKind::Text => "\u{f15c} ",
            CompletionKind::Method => "\u{f6a6} ",
            CompletionKind::Function => "\u{f0295} ",
            CompletionKind::Constructor => "\u{f0536} ",
            CompletionKind::Field => "\u{f0374} ",
            CompletionKind::Variable => "\u{f0ae7} ",
            CompletionKind::Class => "\u{f0b22} ",
            CompletionKind::Interface => "\u{f108} ",
            CompletionKind::Module => "\u{f0d25} ",
            CompletionKind::Property => "\u{f0ad4} ",
            CompletionKind::Unit => "\u{f475} ",
            CompletionKind::Value => "\u{f89f} ",
            CompletionKind::Enum => "\u{f0702} ",
            CompletionKind::Keyword => "\u{f0f4b} ",
            CompletionKind::Snippet => "\u{f0e14} ",
            CompletionKind::Color => "\u{f0266} ",
            CompletionKind::File => "\u{f0214} ",
            CompletionKind::Reference => "\u{f0c95} ",
            CompletionKind::Folder => "\u{f024b} ",
            CompletionKind::EnumMember => "\u{f0703} ",
            CompletionKind::Constant => "\u{f03a0} ",
            CompletionKind::Struct => "\u{ea91} ",
            CompletionKind::Event => "\u{f0adb} ",
            CompletionKind::Operator => "\u{f0604} ",
            CompletionKind::TypeParameter => "\u{f1507} ",
        }
    }

    /// Short label for the kind.
    pub fn label(self) -> (r: &'static str)
        ensures
            r@ == kind_label(self),
    {
        match self {
            CompletionKind::Text => "Text",
            CompletionKind::Method => "Method",
            CompletionKind::Function => "Function",
            CompletionKind::Constructor => "Constructor",
            CompletionKind::Field => "Field",
            CompletionKind::Variable => "Variable",
            CompletionKind::Class => "Class",
            CompletionKind::Interface => "Interface",
            CompletionKind::Module => "Module",
            CompletionKind::Property => "Property",
            CompletionKind::Unit => "Unit",
            CompletionKind::Value => "Value",
            CompletionKind::Enum => "Enum",
            CompletionKind::Keyword => "Keyword",
            CompletionKind::Snippet => "Snippet",
            CompletionKind::Color => "Color",
            CompletionKind::File => "File",
            CompletionKind::Reference => "Reference",
            CompletionKind::Folder => "Folder",
            CompletionKind::EnumMember => "EnumMember",
            CompletionKind::Constant => "Constant",
            CompletionKind::Struct => "Struct",
            CompletionKind::Event => "Event",
            CompletionKind::Operator => "Operator",
            CompletionKind::TypeParameter => "TypeParam",
        }
    }

    /// Sort priority (lower = higher priority in menu).
    pub fn sort_priority(self) -> (r: u8)
        ensures
            r == kind_priority(self),
            r <= 8,
    {
        match self {
            CompletionKind::Variable | CompletionKind::Field | CompletionKind::Property => 0,
            CompletionKind::Function | CompletionKind::Method | CompletionKind::Constructor => 1,
            CompletionKind::Keyword => 2,
            CompletionKind::Snippet => 3,
            CompletionKind::Module | CompletionKind::Class | CompletionKind::Struct
            | CompletionKind::Interface | CompletionKind::Enum => 4,
            CompletionKind::Constant | CompletionKind::EnumMember | CompletionKind::Value
            | CompletionKind::Unit => 5,
            CompletionKind::File | CompletionKind::Folder => 6,
            CompletionKind::Text => 7,
            CompletionKind::Color | CompletionKind::Reference | CompletionKind::Event
            | CompletionKind::Operator | CompletionKind::TypeParameter => 8,
        }
    }
}

/// The source that produced a completion item.
#[derive(Debug, Clone, Copy, PartialEq, Eq, Hash, Structural)]
pub enum CompletionSource {
    Lsp,
    Buffer,
    Path,
    Snippet,
}

/// The short display tag of a source.
pub open spec fn source_tag(s: CompletionSource) -> Seq<char> {
    match s {
        CompletionSource::Lsp => "[LSP]"@,
        CompletionSource::Buffer => "[Buf]"@,
        CompletionSource::Path => "[Path]"@,
        CompletionSource::Snippet => "[Snip]"@,
    }
}

impl CompletionSource {
    /// Short tag for display.
    pub fn tag(self) -> (r: &'static str)
        ensures
            r@ == source_tag(self),
    {
        match self {
            CompletionSource::Lsp => "[LSP]",
            CompletionSource::Buffer => "[Buf]",
            CompletionSource::Path => "[Path]",
            CompletionSource::Snippet => "[Snip]",
        }
    }
}

/// A single completion candidate.
#[derive(Debug, Clone)]
pub struct CompletionItem {
    /// The display label shown in the completion menu.
    pub label: String,
    /// The kind of this completion item.
    pub kind: CompletionKind,
    /// Optional detail text (type signature, file path, etc.).
    pub detail: Option<String>,
    /// Text to insert when the item is confirmed. If `None`, `label` is used.
    pub insert_text: Option<String>,
    /// Sort key override. If `None`, derived from kind priority + label.
    pub sort_text: Option<String>,
    /// Filter text for fuzzy matching. If `None`, `label` is used.
    pub filter_text: Option<String>,
    /// Which source produced this item.
    pub source: CompletionSource,
}

/// The mathematical content of a completion item.
pub struct CompletionItemView {
    pub label: Seq<char>,
    pub kind: CompletionKind,
    pub detail: Option<Seq<char>>,
    pub insert_text: Option<Seq<char>>,
    pub sort_text: Option<Seq<char>>,
    pub filter_text: Option<Seq<char>>,
    pub source: CompletionSource,
}

/// The characters of an optional string.
pub open spec fn opt_view(o: Option<String>) -> Option<Seq<char>> {
    match o {
        Some(s) => Some(s@),
        None => None,
    }
}

impl View for CompletionItem {
    type V = CompletionItemView;

    open spec fn view(&self) -> CompletionItemView {
        CompletionItemView {
            label: self.label@,
            kind: self.kind,
            detail: opt_view(self.detail),
            insert_text: opt_view(self.insert_text),
            sort_text: opt_view(self.sort_text),
            filter_text: opt_view(self.filter_text),
            source: self.source,
        }
    }
}

/// The override if present, otherwise the label.
pub open spec fn or_label(o: Option<Seq<char>>, label: Seq<char>) -> Seq<char> {
    match o {
        Some(t) => t,
        None => label,
    }
}

/// The text inserted on confirm: `insert_text`, or the label.
pub open spec fn insert_text_of(v: CompletionItemView) -> Seq<char> {
    or_label(v.insert_text, v.label)
}

/// The text used for filtering: `filter_text`, or the label.
pub open spec fn filter_text_of(v: CompletionItemView) -> Seq<char> {
    or_label(v.filter_text, v.label)
}

/// The sort text: the kind's priority digit followed by `sort_text` or the label.
pub open spec fn sort_text_of(v: CompletionItemView) -> Seq<char> {
    seq![digit_char(kind_priority(v.kind) as nat)] + or_label(v.sort_text, v.label)
}

/// The sort key: the sort text as code points.
pub open spec fn sort_key_of(v: CompletionItemView) -> Seq<u32> {
    sort_text_of(v).map_values(|c: char| c as u32)
}

/// `n` spaces.
pub open spec fn spaces(n: nat) -> Seq<char> {
    Seq::new(n, |i: int| ' ')
}

/// `label` padded with spaces on the right to at least `width` characters.
pub open spec fn pad_right(label: Seq<char>, width: nat) -> Seq<char> {
    if label.len() < width {
        label + spaces((width - label.len()) as nat)
    } else {
        label
    }
}

/// The menu line of an item: icon, padded label, optional detail, source tag.
pub open spec fn render_line_of(v: CompletionItemView, width: nat) -> Seq<char> {
    let head = kind_icon(v.kind) + pad_right(v.label, width) + "  "@;
    match v.detail {
        Some(d) => head + d + "  "@ + source_tag(v.source),
        None => head + source_tag(v.source),
    }
}

impl CompletionItem {
    /// Create a new completion item with the given label, kind, and source.
    pub fn new(label: &str, kind: CompletionKind, source: CompletionSource) -> (r: Self)
        ensures
            r@ == (CompletionItemView {
                label: label@,
                kind,
                detail: None,
                insert_text: None,
                sort_text: None,
                filter_text: None,
                source,
            }),
    {
        CompletionItem {
            label: label.to_owned(),
            kind,
            detail: None,
            insert_text: None,
            sort_text: None,
            filter_text: None,
            source,
        }
    }

    /// Set detail text.
    pub fn detail(self, detail: &str) -> (r: Self)
        ensures
            r@ == (CompletionItemView { detail: Some(detail@), ..self@ }),
    {
        CompletionItem { detail: Some(detail.to_owned()), ..self }
    }

    /// Set insert text (what gets inserted on confirm).
    pub fn insert_text(self, text: &str) -> (r: Self)
        ensures
            r@ == (CompletionItemView { insert_text: Some(text@), ..self@ }),
    {
        CompletionItem { insert_text: Some(text.to_owned()), ..self }
    }

    /// Set sort text override.
    pub fn sort_text(self, text: &str) -> (r: Self)
        ensures
            r@ == (CompletionItemView { sort_text: Some(text@), ..self@ }),
    {
        CompletionItem { sort_text: Some(text.to_owned()), ..self }
    }

    /// Set filter text for fuzzy matching.
    pub fn filter_text(self, text: &str) -> (r: Self)
        ensures
            r@ == (CompletionItemView { filter_text: Some(text@), ..self@ }),
    {
        CompletionItem { filter_text: Some(text.to_owned()), ..self }
    }

    /// The text used for inserting (`insert_text` or label).
    pub fn text_to_insert(&self) -> (r: &str)
        ensures
            r@ == insert_text_of(self@),
    {
        match &self.insert_text {
            Some(t) => t.as_str(),
            None => self.label.as_str(),
        }
    }

    /// The text used for filtering (`filter_text` or label).
    pub fn text_to_filter(&self) -> (r: &str)
        ensures
            r@ == filter_text_of(self@),
    {
        match &self.filter_text {
            Some(t) => t.as_str(),
            None => self.label.as_str(),
        }
    }

    /// The text used for sorting: `{priority}{sort_text_or_label}`.
    pub fn text_to_sort(&self) -> (r: String)
        ensures
            r@ == sort_text_of(self@),
    {
        let priority = self.kind.sort_priority();
        let mut r = String::new();
        push_char(&mut r, (48u8 + priority) as char);
        let base = match &self.sort_text {
            Some(t) => t.as_str(),
            None => self.label.as_str(),
        };
        r.append(base);
        r
    }

    /// Render a single-line display string: "icon label  detail  [source]".
    pub fn render_line(&self, max_label_width: usize) -> (r: String)
        ensures
            r@ == render_line_of(self@, max_label_width as nat),
    {
        let mut r = self.kind.icon().to_owned();
        r.append(self.label.as_str());
        let n = self.label.as_str().unicode_len();
        if n < max_label_width {
            let mut k = n;
            while k < max_label_width
                invariant
                    n <= k <= max_label_width,
                    r@ == kind_icon(self.kind) + self.label@ + spaces((k - n) as nat),
                decreases max_label_width - k,
            {
                push_char(&mut r, ' ');
                k = k + 1;
                assert(spaces((k - n) as nat) =~= spaces((k - 1 - n) as nat).push(' '));
            }
            assert(self.label@ + spaces((max_label_width - n) as nat) == pad_right(self.label@, max_label_width as nat));
        } else {
            assert(r@ =~= kind_icon(self.kind) + pad_right(self.label@, max_label_width as nat));
        }
        r.append("  ");
        match &self.detail {
            Some(d) => {
                r.append(d.as_str());
                r.append("  ");
            },
            None => {},
        }
        r.append(self.source.tag());
        r
    }
}

/// Sort items by their sort text (kind priority, then sort text or label),
/// keeping the original order of items with equal sort text.
pub fn sort_items(items: &mut Vec<CompletionItem>)
    ensures
        is_stable_sort_of(final(items)@, old(items)@, old(items)@.map_values(|it: CompletionItem| sort_key_of(it@))),
{
    let mut taken: Vec<CompletionItem> = Vec::new();
    std::mem::swap(&mut taken, items);
    let mut keys: Vec<Vec<u32>> = Vec::new();
    let n = taken.len();
    for i in 0..n
        invariant
            n == taken@.len(),
            keys@.len() == i,
            forall|a: int| 0 <= a < i ==> (#[trigger] keys@[a])@ == sort_key_of(taken@[a]@),
    {
        let text = taken[i].text_to_sort();
        let chars = chars_of(text.as_str());
        let mut key: Vec<u32> = Vec::new();
        for k in 0..chars.len()
            invariant
                key@ =~= chars@.take(k as int).map_values(|c: char| c as u32),
        {
            key.push(chars[k] as u32);
        }
        assert(chars@.take(chars@.len() as int) =~= chars@);
        keys.push(key);
    }
    assert(keys@.map_values(|k: Vec<u32>| k@) =~= taken@.map_values(|it: CompletionItem| sort_key_of(it@)));
    *items = stable_sort_by_keys(taken, &keys);
}

/// Icons tell kinds apart: two different kinds have different icons.
pub proof fn law_icons_distinct(k1: CompletionKind, k2: CompletionKind)
    requires
        k1 != k2,
    ensures
        kind_icon(k1) != kind_icon(k2),
{
    icon_is_non_empty(k1);
    reveal_strlit("\u{f15c} ");
    reveal_strlit("\u{f6a6} ");
    reveal_strlit("\u{f0295} ");
    reveal_strlit("\u{f0536} ");
    reveal_strlit("\u{f0374} ");
    reveal_strlit("\u{f0ae7} ");
    reveal_strlit("\u{f0b22} ");
    reveal_strlit("\u{ea91} ");
    reveal_strlit("\u{f108} ");
    reveal_strlit("\u{f0d25} ");
    reveal_strlit("\u{f0ad4} ");
    reveal_strlit("\u{f475} ");
    reveal_strlit("\u{f89f} ");
    reveal_strlit("\u{f0702} ");
    reveal_strlit("\u{f0f4b} ");
    reveal_strlit("\u{f0e14} ");
    reveal_strlit("\u{f0266} ");
    reveal_strlit("\u{f0214} ");
    reveal_strlit("\u{f0c95} ");
    reveal_strlit("\u{f024b} ");
    reveal_strlit("\u{f0703} ");
    reveal_strlit("\u{f03a0} ");
    reveal_strlit("\u{f0adb} ");
    reveal_strlit("\u{f0604} ");
    reveal_strlit("\u{f1507} ");
    assert(kind_icon(k1)[0] != kind_icon(k2)[0]);
}

/// Sorting puts lower kind priorities first: in the result of
/// `sort_items`, an item never precedes one of a lower-priority-number kind.
pub proof fn law_sorted_by_kind_priority(
    res: Seq<CompletionItem>,
    orig: Seq<CompletionItem>,
    i: int,
    j: int,
)
    requires
        is_stable_sort_of(res, orig, orig.map_values(|it: CompletionItem| sort_key_of(it@))),
        0 <= i < j < res.len(),
    ensures
        kind_priority(res[i].kind) <= kind_priority(res[j].kind),
{
    let keys = orig.map_values(|it: CompletionItem| sort_key_of(it@));
    let p = choose|p: Seq<int>|
        #![trigger is_index_permutation(p, orig.len())]
        is_index_permutation(p, orig.len()) && is_stable_order(p, keys) && res.len() == orig.len()
            && forall|i: int| 0 <= i < res.len() ==> #[trigger] res[i] == orig[p[i]];
    assert(res[i] == orig[p[i]] && res[j] == orig[p[j]]);
    assert(lex_le(keys[p[i]], keys[p[j]]));
    let a = keys[p[i]];
    let b = keys[p[j]];
    assert(a == sort_key_of(res[i]@));
    assert(b == sort_key_of(res[j]@));
    assert(a[0] == digit_char(kind_priority(res[i].kind) as nat) as u32);
    assert(b[0] == digit_char(kind_priority(res[j].kind) as nat) as u32);
    if kind_priority(res[j].kind) < kind_priority(res[i].kind) {
        assert(b[0] < a[0]);
        assert(lex_lt(b, a));
    }
}

/// The menu ranks of kinds, as the menu orders them: variables, fields
/// and properties; then functions, methods and constructors; keywords;
/// snippets; modules and types; constants and values; files and folders;
/// plain text; everything else.
pub open spec fn menu_rank(k: CompletionKind) -> nat {
    match k {
        CompletionKind::Variable => 0,
        CompletionKind::Field => 0,
        CompletionKind::Property => 0,
        CompletionKind::Function => 1,
        CompletionKind::Method => 1,
        CompletionKind::Constructor => 1,
        CompletionKind::Keyword => 2,
        CompletionKind::Snippet => 3,
        CompletionKind::Module => 4,
        CompletionKind::Class => 4,
        CompletionKind::Struct => 4,
        CompletionKind::Interface => 4,
        CompletionKind::Enum => 4,
        CompletionKind::Constant => 5,
        CompletionKind::EnumMember => 5,
        CompletionKind::Value => 5,
        CompletionKind::Unit => 5,
        CompletionKind::File => 6,
        CompletionKind::Folder => 6,
        CompletionKind::Text => 7,
        _ => 8,
    }
}

/// Sorted items come in menu-rank order: in the result of `sort_items`,
/// no item precedes an item of a lower menu rank (so a method comes
/// before a keyword, a keyword before a snippet, and so on).
pub proof fn law_sorted_by_menu_rank(
    res: Seq<CompletionItem>,
    orig: Seq<CompletionItem>,
    i: int,
    j: int,
)
    requires
        is_stable_sort_of(res, orig, orig.map_values(|it: CompletionItem| sort_key_of(it@))),
        0 <= i < j < res.len(),
    ensures
        menu_rank(res[i].kind) <= menu_rank(res[j].kind),
{
    law_sorted_by_kind_priority(res, orig, i, j);
    lemma_priority_follows_rank(res[i].kind, res[j].kind);
}

proof fn lemma_priority_follows_rank(a: CompletionKind, b: CompletionKind)
    ensures
        kind_priority(a) <= kind_priority(b) ==> menu_rank(a) <= menu_rank(b),
{
}

/// The shape of a menu line: the kind's icon, then the label, then spaces
/// up to the label width (at least two), then the detail followed by two
/// spaces when there is one, and the source tag at the end.
pub proof fn law_render_line_shape(v: CompletionItemView, width: nat)
    ensures
        ({
            let line = render_line_of(v, width);
            let lw = if v.label.len() < width {
                width
            } else {
                v.label.len()
            };
            let dl: nat = match v.detail {
                Some(d) => d.len() + 2,
                None => 0,
            };
            &&& line.len() == kind_icon(v.kind).len() + lw + 2 + dl + source_tag(v.source).len()
            &&& line.take((kind_icon(v.kind).len() + v.label.len()) as int) == kind_icon(v.kind) + v.label
            &&& forall|k: int|
                kind_icon(v.kind).len() + v.label.len() <= k < kind_icon(v.kind).len() + lw + 2
                    ==> #[trigger] line[k] == ' '
            &&& v.detail matches Some(d) ==> line.subrange(
                (kind_icon(v.kind).len() + lw + 2) as int,
                (kind_icon(v.kind).len() + lw + 2 + d.len()) as int,
            ) == d
            &&& line.skip(line.len() - source_tag(v.source).len()) == source_tag(v.source)
        }),
{
    let icon = kind_icon(v.kind);
    let tag = source_tag(v.source);
    let padded = pad_right(v.label, width);
    reveal_strlit("  ");
    let head = icon + padded + "  "@;
    let line = render_line_of(v, width);
    let lw = if v.label.len() < width {
        width
    } else {
        v.label.len()
    };
    assert(padded.len() == lw);
    assert(head.len() == icon.len() + lw + 2);
    assert forall|k: int| icon.len() + v.label.len() <= k < icon.len() + lw + 2 implies #[trigger] line[k]
        == ' ' by {
        assert(line[k] == head[k]);
        if k < icon.len() + lw {
            assert(head[k] == padded[k - icon.len()]);
        }
    }
    assert(line.take((icon.len() + v.label.len()) as int) =~= icon + v.label);
    match v.detail {
        Some(d) => {
            assert(line =~= head + d + "  "@ + tag);
            assert(line.subrange(head.len() as int, (head.len() + d.len()) as int) =~= d);
        },
        None => {
            assert(line =~= head + tag);
        },
    }
    assert(line.skip(line.len() - tag.len()) =~= tag);
}

/// Icons are never empty: each is a codepoint followed by a space.
pub proof fn icon_is_non_empty(k: CompletionKind)
    ensures
        kind_icon(k).len() == 2,
        kind_icon(k)[1] == ' ',
{
    reveal_strlit("\u{f15c} ");
    reveal_strlit("\u{f6a6} ");
    reveal_strlit("\u{f0295} ");
    reveal_strlit("\u{f0536} ");
    reveal_strlit("\u{f0374} ");
    reveal_strlit("\u{f0ae7} ");
    reveal_strlit("\u{f0b22} ");
    reveal_strlit("\u{ea91} ");
    reveal_strlit("\u{f108} ");
    reveal_strlit("\u{f0d25} ");
    reveal_strlit("\u{f0ad4} ");
    reveal_strlit("\u{f475} ");
    reveal_strlit("\u{f89f} ");
    reveal_strlit("\u{f0702} ");
    reveal_strlit("\u{f0f4b} ");
    reveal_strlit("\u{f0e14} ");
    reveal_strlit("\u{f0266} ");
    reveal_strlit("\u{f0214} ");
    reveal_strlit("\u{f0c95} ");
    reveal_strlit("\u{f024b} ");
    reveal_strlit("\u{f0703} ");
    reveal_strlit("\u{f03a0} ");
    reveal_strlit("\u{f0adb} ");
    reveal_strlit("\u{f0604} ");
    reveal_strlit("\u{f1507} ");
}

} // verus!
