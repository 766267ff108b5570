//! Simple snippet expansion engine.
//!
//! Supports `$1`, `$2`, ... tabstops and `${1:default}` placeholders.
//! This is a minimal engine: no nested placeholders, no transformations,
//! no mirroring.

use vstd::prelude::*;

use crate::sorting::{
    is_index_permutation, is_stable_order, is_stable_sort_of, lemma_stable_sort_map, lex_le, lex_lt,
    stable_sort_by_keys,
};
use crate::text::{
    byte_len, char_is_digit, chars_of, is_digit, lemma_encode_utf8_concat, push_char, push_chars,
    utf8_len,
};
use vstd::utf8::encode_utf8;

verus! {

/// A parsed tabstop within a snippet.
#[derive(Debug, Clone, PartialEq, Eq)]
pub struct Tabstop {
    /// Tabstop number (0 = final cursor position, 1..n = navigation order).
    pub number: u32,
    /// Default text to insert at this tabstop. Empty if none.
    pub default_text: String,
    /// Byte offset in the expanded text where this tabstop starts.
    pub offset: usize,
    /// Length in bytes of the default text (0 for bare tabstops).
    pub len: usize,
}

/// Result of expanding a snippet template.
#[derive(Debug, Clone, PartialEq, Eq)]
pub struct ExpandedSnippet {
    /// The fully expanded text with tabstop markers removed and defaults inserted.
    pub text: String,
    /// Tabstops sorted by number (ascending). `$0` is always last for navigation.
    pub tabstops: Vec<Tabstop>,
}

/// The mathematical content of a tabstop.
pub struct TabstopView {
    pub number: u32,
    pub default_text: Seq<char>,
    pub offset: usize,
    pub len: usize,
}

impl View for Tabstop {
    type V = TabstopView;

    open spec fn view(&self) -> TabstopView {
        TabstopView {
            number: self.number,
            default_text: self.default_text@,
            offset: self.offset,
            len: self.len,
        }
    }
}

/// The views of a sequence of tabstops.
pub open spec fn tabstop_views(ts: Seq<Tabstop>) -> Seq<TabstopView> {
    ts.map_values(|t: Tabstop| t@)
}

/// The number of leading ASCII digits of `s`.
pub open spec fn leading_digits(s: Seq<char>) -> nat
    decreases s.len(),
{
    if s.len() > 0 && is_digit(s[0]) {
        1 + leading_digits(s.drop_first())
    } else {
        0
    }
}

/// The value of a digit character.
pub open spec fn digit_value(c: char) -> nat {
    (c as u32 - '0' as u32) as nat
}

/// The value of a string of decimal digits.
pub open spec fn decimal_value(digits: Seq<char>) -> nat
    decreases digits.len(),
{
    if digits.len() == 0 {
        0
    } else {
        decimal_value(digits.drop_last()) * 10 + digit_value(digits.last())
    }
}

/// The number written by the leading digits of `s`, saturated at `u32::MAX`.
pub open spec fn number_at(s: Seq<char>) -> u32 {
    let v = decimal_value(s.take(leading_digits(s) as int));
    if v > u32::MAX {
        u32::MAX
    } else {
        v as u32
    }
}

/// The position of the first `}` in `s`.
pub open spec fn close_brace_index(s: Seq<char>) -> Option<nat>
    decreases s.len(),
{
    if s.len() == 0 {
        None
    } else if s[0] == '}' {
        Some(0)
    } else {
        match close_brace_index(s.drop_first()) {
            Some(p) => Some(p + 1),
            None => None,
        }
    }
}

pub proof fn lemma_leading_digits_bound(s: Seq<char>)
    ensures
        leading_digits(s) <= s.len(),
    decreases s.len(),
{
    if s.len() > 0 && is_digit(s[0]) {
        lemma_leading_digits_bound(s.drop_first());
    }
}

pub proof fn lemma_close_brace_index_bound(s: Seq<char>)
    ensures
        close_brace_index(s) matches Some(p) ==> p < s.len() && s[p as int] == '}' && forall|
            j: int,
        | 0 <= j < p ==> s[j] != '}',
        close_brace_index(s) is None ==> forall|j: int| 0 <= j < s.len() ==> s[j] != '}',
    decreases s.len(),
{
    if s.len() > 0 && s[0] != '}' {
        lemma_close_brace_index_bound(s.drop_first());
        assert forall|j: int| 1 <= j < s.len() implies s[j] == s.drop_first()[j - 1] by {}
    }
}

/// The braced tabstop that follows `${`: its number, its default text and
/// the number of characters it takes up to and including the closing `}`.
/// `N}` has an empty default; `N:text}` has default `text` (up to the
/// first `}`); anything else is malformed (`None`).
pub open spec fn braced_tabstop(s: Seq<char>) -> Option<(u32, Seq<char>, nat)> {
    let k = leading_digits(s);
    if k == 0 || k >= s.len() {
        None
    } else if s[k as int] == '}' {
        Some((number_at(s), Seq::<char>::empty(), k + 1))
    } else if s[k as int] == ':' {
        match close_brace_index(s.skip(k + 1 as int)) {
            Some(p) => Some((number_at(s), s.subrange(k + 1 as int, k + 1 + p as int), k + 2 + p)),
            None => None,
        }
    } else {
        None
    }
}

pub proof fn lemma_braced_tabstop_bound(s: Seq<char>)
    ensures
        braced_tabstop(s) matches Some(t) ==> 0 < t.2 <= s.len(),
{
    lemma_leading_digits_bound(s);
    let k = leading_digits(s);
    if k > 0 && k < s.len() && s[k as int] == ':' {
        lemma_close_brace_index_bound(s.skip(k + 1 as int));
    }
}

/// A tabstop at the end of the text produced so far.
pub open spec fn stop_at(number: u32, default_text: Seq<char>, text: Seq<char>) -> TabstopView {
    TabstopView {
        number,
        default_text,
        offset: utf8_len(text) as usize,
        len: utf8_len(default_text) as usize,
    }
}

/// Expansion of the rest `s` of a template, given the text and the tabstops
/// produced so far (in template order).
///
/// `$$` yields `$`; `${N}` and `${N:default}` yield a tabstop with its
/// default inserted into the text; a malformed `${` is kept literally;
/// `$N` yields a bare tabstop; any other `$` and any other character is
/// kept as it is.
pub open spec fn expand_rest(s: Seq<char>, text: Seq<char>, stops: Seq<TabstopView>) -> (
    Seq<char>,
    Seq<TabstopView>,
)
    decreases s.len(),
{
    if s.len() == 0 {
        (text, stops)
    } else if s[0] == '$' && s.len() > 1 && s[1] == '$' {
        expand_rest(s.skip(2), text.push('$'), stops)
    } else if s[0] == '$' && s.len() > 1 && s[1] == '{' {
        proof {
            lemma_braced_tabstop_bound(s.skip(2));
        }
        match braced_tabstop(s.skip(2)) {
            Some(t) => expand_rest(
                s.skip(2 + t.2 as int),
                text + t.1,
                stops.push(stop_at(t.0, t.1, text)),
            ),
            None => expand_rest(s.skip(2), text + seq!['$', '{'], stops),
        }
    } else if s[0] == '$' && s.len() > 1 && is_digit(s[1]) {
        proof {
            lemma_leading_digits_bound(s.drop_first());
        }
        expand_rest(
            s.skip(1 + leading_digits(s.drop_first()) as int),
            text,
            stops.push(stop_at(number_at(s.drop_first()), Seq::<char>::empty(), text)),
        )
    } else {
        expand_rest(s.drop_first(), text.push(s[0]), stops)
    }
}

/// The expanded text and the tabstops of a template, in template order.
pub open spec fn expansion(template: Seq<char>) -> (Seq<char>, Seq<TabstopView>) {
    expand_rest(template, Seq::<char>::empty(), Seq::<TabstopView>::empty())
}

/// The navigation key of a tabstop: `[0, n]` for `$n` with `n > 0`, and
/// `[1]` for `$0`, so that `$0` comes after every numbered tabstop.
pub open spec fn tabstop_key(t: TabstopView) -> Seq<u32> {
    if t.number == 0 {
        seq![1u32]
    } else {
        seq![0u32, t.number]
    }
}

/// The tabstop keys of a sequence of tabstops.
pub open spec fn tabstop_keys(ts: Seq<TabstopView>) -> Seq<Seq<u32>> {
    ts.map_values(|t: TabstopView| tabstop_key(t))
}

/// Parse a number from `chars[start..]`.
/// Returns `(number, chars_consumed)`; the number saturates at `u32::MAX`.
fn parse_number(chars: &Vec<char>, start: usize) -> (r: (u32, usize))
    requires
        start <= chars@.len(),
    ensures
        r.0 == number_at(chars@.skip(start as int)),
        r.1 == leading_digits(chars@.skip(start as int)),
        start + r.1 <= chars@.len(),
{
    let ghost s = chars@.skip(start as int);
    let mut n: u32 = 0;
    let mut j = start;
    assert(s.take(0) =~= Seq::<char>::empty());
    while j < chars.len() && char_is_digit(chars[j])
        invariant
            start <= j <= chars@.len(),
            s == chars@.skip(start as int),
            leading_digits(s) == (j - start) + leading_digits(chars@.skip(j as int)),
            n == (if decimal_value(s.take(j - start)) > u32::MAX {
                u32::MAX
            } else {
                decimal_value(s.take(j - start)) as u32
            }),
        decreases chars.len() - j,
    {
        let d = (chars[j] as u32) - ('0' as u32);
        let v: u64 = (n as u64) * 10 + (d as u64);
        n = if v > u32::MAX as u64 {
            u32::MAX
        } else {
            v as u32
        };
        proof {
            let t = s.take(j + 1 - start);
            assert(t.drop_last() =~= s.take(j - start));
            assert(t.last() == chars@[j as int]);
            assert(chars@.skip(j as int).drop_first() =~= chars@.skip(j + 1));
        }
        j = j + 1;
    }
    proof {
        lemma_leading_digits_bound(chars@.skip(j as int));
        assert(leading_digits(chars@.skip(j as int)) == 0);
    }
    (n, j - start)
}

/// Parse a braced tabstop `N:default}` or `N}` starting at `chars[start]`
/// (just after `${`). Returns the tabstop and the characters consumed
/// including the closing brace, or `(None, 0)` when malformed.
fn parse_braced_tabstop(chars: &Vec<char>, start: usize, current_offset: usize) -> (r: (
    Option<Tabstop>,
    usize,
))
    requires
        start <= chars@.len(),
    ensures
        match braced_tabstop(chars@.skip(start as int)) {
            Some(t) => r.0 matches Some(ts) && ts@ == (TabstopView {
                number: t.0,
                default_text: t.1,
                offset: current_offset,
                len: utf8_len(t.1) as usize,
            }) && r.1 == t.2,
            None => r.0 is None && r.1 == 0,
        },
{
    let ghost s = chars@.skip(start as int);
    if start == chars.len() {
        return (None, 0);
    }
    let (number, num_consumed) = parse_number(chars, start);
    if num_consumed == 0 {
        return (None, 0);
    }
    let rest = start + num_consumed;
    if rest == chars.len() {
        return (None, 0);
    }
    assert(s[num_consumed as int] == chars@[rest as int]);
    if chars[rest] == '}' {
        let ts = Tabstop { number, default_text: String::new(), offset: current_offset, len: 0 };
        proof {
            assert(utf8_len(Seq::<char>::empty()) == 0);
        }
        return (Some(ts), num_consumed + 1);
    }
    if chars[rest] == ':' {
        let from = rest + 1;
        let mut q = from;
        assert(s.skip(num_consumed + 1) =~= chars@.skip(from as int));
        while q < chars.len() && chars[q] != '}'
            invariant
                from <= q <= chars@.len(),
                close_brace_index(chars@.skip(from as int)) == (match close_brace_index(
                    chars@.skip(q as int),
                ) {
                    Some(p) => Some(p + (q - from) as nat),
                    None => None::<nat>,
                }),
            decreases chars.len() - q,
        {
            assert(chars@.skip(q as int).drop_first() =~= chars@.skip(q + 1));
            q = q + 1;
        }
        if q < chars.len() {
            let mut default_text = String::new();
            push_chars(&mut default_text, chars, from, q);
            let default_len = byte_len(&default_text);
            let ts = Tabstop { number, default_text, offset: current_offset, len: default_len };
            proof {
                assert(s.subrange(num_consumed + 1, num_consumed + 1 + (q - from)) =~= chars@.subrange(
                    from as int,
                    q as int,
                ));
                assert(Seq::<char>::empty() + chars@.subrange(from as int, q as int)
                    =~= chars@.subrange(from as int, q as int));
            }
            return (Some(ts), num_consumed + 1 + (q - from) + 1);
        }
        assert(chars@.skip(q as int).len() == 0);
    }
    (None, 0)
}

/// Expand a snippet template string into text and tabstop positions.
///
/// Supported syntax:
/// - `$1`, `$2`, ... — bare tabstops (cursor positions)
/// - `$0` — final cursor position
/// - `${1:default}` — tabstop with default text
/// - `$$` — literal `$`
///
/// The tabstops come out in navigation order: `$1`, `$2`, ... by number,
/// then `$0`; tabstops with the same number keep their template order.
pub fn expand(template: &str) -> (r: ExpandedSnippet)
    ensures
        r.text@ == expansion(template@).0,
        is_stable_sort_of(
            tabstop_views(r.tabstops@),
            expansion(template@).1,
            tabstop_keys(expansion(template@).1),
        ),
{
    let chars = chars_of(template);
    let len = chars.len();
    let mut text = String::new();
    let mut tabstops: Vec<Tabstop> = Vec::new();
    let mut i: usize = 0;
    assert(chars@.skip(0) =~= chars@);
    assert(tabstop_views(tabstops@) =~= Seq::<TabstopView>::empty());
    while i < len
        invariant
            len == chars@.len(),
            i <= len,
            chars@ == template@,
            expand_rest(chars@.skip(i as int), text@, tabstop_views(tabstops@)) == expansion(
                template@,
            ),
        decreases len - i,
    {
        let ghost s = chars@.skip(i as int);
        let ghost old_text = text@;
        let ghost old_stops = tabstop_views(tabstops@);
        assert(s[0] == chars@[i as int]);
        if chars[i] == '$' {
            if i + 1 < len && chars[i + 1] == '$' {
                assert(s[1] == chars@[i + 1]);
                push_char(&mut text, '$');
                assert(s.skip(2) =~= chars@.skip(i + 2));
                i = i + 2;
            } else if i + 1 < len && chars[i + 1] == '{' {
                assert(s[1] == chars@[i + 1]);
                assert(s.skip(2) =~= chars@.skip(i + 2));
                let offset = byte_len(&text);
                let (tabstop, consumed) = parse_braced_tabstop(&chars, i + 2, offset);
                match tabstop {
                    Some(ts) => {
                        proof {
                            lemma_braced_tabstop_bound(s.skip(2));
                        }
                        text.append(ts.default_text.as_str());
                        tabstops.push(ts);
                        assert(tabstop_views(tabstops@) =~= old_stops.push(ts@));
                        assert(s.skip(2 + consumed) =~= chars@.skip(i + 2 + consumed));
                        let ghost t = braced_tabstop(s.skip(2))->0;
                        assert(text@ == old_text + t.1);
                        assert(ts@ == stop_at(t.0, t.1, old_text));
                        i = i + 2 + consumed;
                    },
                    None => {
                        text.append("${");
                        proof {
                            reveal_strlit("${");
                            assert(text@ =~= old_text + seq!['$', '{']);
                            assert(tabstop_views(tabstops@) == old_stops);
                        }
                        i = i + 2;
                    },
                }
            } else if i + 1 < len && char_is_digit(chars[i + 1]) {
                assert(s[1] == chars@[i + 1]);
                assert(s.drop_first() =~= chars@.skip(i + 1));
                let offset = byte_len(&text);
                let (number, consumed) = parse_number(&chars, i + 1);
                let ts = Tabstop { number, default_text: String::new(), offset, len: 0 };
                proof {
                    assert(utf8_len(Seq::<char>::empty()) == 0);
                }
                tabstops.push(ts);
                assert(tabstop_views(tabstops@) =~= old_stops.push(ts@));
                assert(s.skip(1 + consumed) =~= chars@.skip(i + 1 + consumed));
                i = i + 1 + consumed;
            } else {
                push_char(&mut text, '$');
                assert(s.drop_first() =~= chars@.skip(i + 1));
                i = i + 1;
            }
        } else {
            push_char(&mut text, chars[i]);
            assert(s.drop_first() =~= chars@.skip(i + 1));
            i = i + 1;
        }
    }
    assert(chars@.skip(len as int) =~= Seq::<char>::empty());
    let ghost stops = tabstop_views(tabstops@);
    let mut keys: Vec<Vec<u32>> = Vec::new();
    for k in 0..tabstops.len()
        invariant
            keys@.len() == k,
            k <= tabstops@.len(),
            forall|a: int| 0 <= a < k ==> (#[trigger] keys@[a])@ == tabstop_key(tabstops@[a]@),
    {
        let number = tabstops[k].number;
        let key = if number == 0 {
            vec![1u32]
        } else {
            vec![0u32, number]
        };
        keys.push(key);
    }
    let ghost orig = tabstops@;
    assert(keys@.map_values(|k: Vec<u32>| k@) =~= tabstop_keys(stops));
    let sorted = stable_sort_by_keys(tabstops, &keys);
    proof {
        lemma_stable_sort_map(sorted@, orig, tabstop_keys(stops), |t: Tabstop| t@);
    }
    ExpandedSnippet { text, tabstops: sorted }
}

/// Given an expanded snippet and a tabstop index (0-based into the sorted
/// tabstops vector), return the (offset, len) for the cursor/selection.
pub fn tabstop_position(snippet: &ExpandedSnippet, index: usize) -> (r: Option<(usize, usize)>)
    ensures
        r == (if index < snippet.tabstops@.len() {
            Some((snippet.tabstops@[index as int].offset, snippet.tabstops@[index as int].len))
        } else {
            None
        }),
{
    if index < snippet.tabstops.len() {
        Some((snippet.tabstops[index].offset, snippet.tabstops[index].len))
    } else {
        None
    }
}

/// `t` sits in `text`: its default text occurs in `text` right after a
/// prefix whose UTF-8 length is `t.offset`, and `t.len` is its UTF-8 length.
pub open spec fn anchored(text: Seq<char>, t: TabstopView) -> bool {
    exists|x: Seq<char>, y: Seq<char>|
        #![trigger x + t.default_text + y]
        text == x + t.default_text + y && t.offset == utf8_len(x) as usize && t.len == utf8_len(
            t.default_text,
        ) as usize
}

proof fn lemma_anchored_extend(text: Seq<char>, z: Seq<char>, t: TabstopView)
    requires
        anchored(text, t),
    ensures
        anchored(text + z, t),
{
    let (x, y) = choose|x: Seq<char>, y: Seq<char>|
        #![trigger x + t.default_text + y]
        text == x + t.default_text + y && t.offset == utf8_len(x) as usize && t.len == utf8_len(
            t.default_text,
        ) as usize;
    assert(text + z =~= x + t.default_text + (y + z));
}

proof fn lemma_expand_rest_anchors(s: Seq<char>, text: Seq<char>, stops: Seq<TabstopView>)
    requires
        forall|i: int| 0 <= i < stops.len() ==> anchored(text, #[trigger] stops[i]),
    ensures
        forall|i: int|
            0 <= i < expand_rest(s, text, stops).1.len() ==> anchored(
                expand_rest(s, text, stops).0,
                #[trigger] expand_rest(s, text, stops).1[i],
            ),
    decreases s.len(),
{
    if s.len() == 0 {
    } else if s[0] == '$' && s.len() > 1 && s[1] == '$' {
        assert forall|i: int| 0 <= i < stops.len() implies anchored(text.push('$'), #[trigger] stops[i]) by {
            lemma_anchored_extend(text, seq!['$'], stops[i]);
            assert(text + seq!['$'] =~= text.push('$'));
        }
        lemma_expand_rest_anchors(s.skip(2), text.push('$'), stops);
        assert(expand_rest(s, text, stops) == expand_rest(s.skip(2), text.push('$'), stops));
    } else if s[0] == '$' && s.len() > 1 && s[1] == '{' {
        lemma_braced_tabstop_bound(s.skip(2));
        match braced_tabstop(s.skip(2)) {
            Some(t) => {
                let text2 = text + t.1;
                let stops2 = stops.push(stop_at(t.0, t.1, text));
                assert forall|i: int| 0 <= i < stops2.len() implies anchored(text2, #[trigger] stops2[i]) by {
                    if i < stops.len() {
                        lemma_anchored_extend(text, t.1, stops[i]);
                    } else {
                        let st = stops2[i];
                        assert(st == stop_at(t.0, t.1, text));
                        assert(text2 =~= text + st.default_text + Seq::<char>::empty());
                    }
                }
                lemma_expand_rest_anchors(s.skip(2 + t.2 as int), text2, stops2);
                assert(expand_rest(s, text, stops) == expand_rest(s.skip(2 + t.2 as int), text2, stops2));
            },
            None => {
                assert forall|i: int| 0 <= i < stops.len() implies anchored(text + seq!['$', '{'], #[trigger] stops[i]) by {
                    lemma_anchored_extend(text, seq!['$', '{'], stops[i]);
                }
                lemma_expand_rest_anchors(s.skip(2), text + seq!['$', '{'], stops);
                assert(expand_rest(s, text, stops) == expand_rest(s.skip(2), text + seq!['$', '{'], stops));
            },
        }
    } else if s[0] == '$' && s.len() > 1 && is_digit(s[1]) {
        lemma_leading_digits_bound(s.drop_first());
        let stops2 = stops.push(stop_at(number_at(s.drop_first()), Seq::<char>::empty(), text));
        assert forall|i: int| 0 <= i < stops2.len() implies anchored(text, #[trigger] stops2[i]) by {
            if i == stops.len() {
                let st = stops2[i];
                assert(st.default_text == Seq::<char>::empty());
                assert(text =~= text + st.default_text + Seq::<char>::empty());
            }
        }
        lemma_expand_rest_anchors(s.skip(1 + leading_digits(s.drop_first()) as int), text, stops2);
        assert(expand_rest(s, text, stops) == expand_rest(s.skip(1 + leading_digits(s.drop_first()) as int), text, stops2));
    } else {
        assert forall|i: int| 0 <= i < stops.len() implies anchored(text.push(s[0]), #[trigger] stops[i]) by {
            lemma_anchored_extend(text, seq![s[0]], stops[i]);
            assert(text + seq![s[0]] =~= text.push(s[0]));
        }
        lemma_expand_rest_anchors(s.drop_first(), text.push(s[0]), stops);
        assert(expand_rest(s, text, stops) == expand_rest(s.drop_first(), text.push(s[0]), stops));
    }
}

/// Every tabstop's default text is in the expanded text where the tabstop
/// says: the bytes `offset..offset + len` of the expanded text are the UTF-8
/// encoding of the default text (bare tabstops: `len == 0`), and `offset`
/// is the byte length of a prefix of the expanded text, so it falls on a
/// character boundary. Stated for expanded texts whose byte length fits in
/// `usize`.
pub proof fn law_default_text_at_offset(template: Seq<char>, res: Seq<TabstopView>, i: int)
    requires
        is_stable_sort_of(res, expansion(template).1, tabstop_keys(expansion(template).1)),
        utf8_len(expansion(template).0) <= usize::MAX,
        0 <= i < res.len(),
    ensures
        res[i].offset + res[i].len <= utf8_len(expansion(template).0),
        encode_utf8(expansion(template).0).subrange(
            res[i].offset as int,
            res[i].offset + res[i].len,
        ) == encode_utf8(res[i].default_text),
        exists|k: int|
            0 <= k <= expansion(template).0.len() && utf8_len(#[trigger] expansion(template).0.take(k))
                == res[i].offset,
{
    let (text, stops) = expansion(template);
    lemma_expand_rest_anchors(template, Seq::<char>::empty(), Seq::<TabstopView>::empty());
    let p = choose|p: Seq<int>|
        #![trigger is_index_permutation(p, stops.len())]
        is_index_permutation(p, stops.len()) && is_stable_order(p, tabstop_keys(stops)) && res.len()
            == stops.len() && forall|i: int| 0 <= i < res.len() ==> #[trigger] res[i] == stops[p[i]];
    let t = res[i];
    assert(t == stops[p[i]]);
    assert(anchored(text, t));
    let (x, y) = choose|x: Seq<char>, y: Seq<char>|
        #![trigger x + t.default_text + y]
        text == x + t.default_text + y && t.offset == utf8_len(x) as usize && t.len == utf8_len(
            t.default_text,
        ) as usize;
    lemma_encode_utf8_concat(x + t.default_text, y);
    lemma_encode_utf8_concat(x, t.default_text);
    let ex = encode_utf8(x);
    let ed = encode_utf8(t.default_text);
    assert(encode_utf8(text) =~= ex + ed + encode_utf8(y));
    assert(encode_utf8(text).subrange(ex.len() as int, (ex.len() + ed.len()) as int) =~= ed);
    assert(text.take(x.len() as int) =~= x);
    assert(utf8_len(text.take(x.len() as int)) == t.offset);
}

/// Ordered navigation keys: `$0` only before `$0`, and numbered tabstops
/// by number.
proof fn lemma_tabstop_key_order(a: TabstopView, b: TabstopView)
    requires
        lex_le(tabstop_key(a), tabstop_key(b)),
    ensures
        a.number == 0 ==> b.number == 0,
        a.number != 0 && b.number != 0 ==> a.number <= b.number,
{
    let ka = tabstop_key(a);
    let kb = tabstop_key(b);
    if a.number == 0 && b.number != 0 {
        assert(lex_lt(kb, ka));
    }
    if a.number != 0 && b.number != 0 && b.number < a.number {
        assert(kb.drop_first() =~= seq![b.number]);
        assert(ka.drop_first() =~= seq![a.number]);
        assert(lex_lt(kb.drop_first(), ka.drop_first()));
        assert(lex_lt(kb, ka));
    }
}

/// Navigation order: numbered tabstops come in ascending number order and
/// `$0` comes after every numbered tabstop.
pub proof fn law_navigation_order(template: Seq<char>, res: Seq<TabstopView>, i: int, j: int)
    requires
        is_stable_sort_of(res, expansion(template).1, tabstop_keys(expansion(template).1)),
        0 <= i < j < res.len(),
    ensures
        res[i].number == 0 ==> res[j].number == 0,
        res[i].number != 0 && res[j].number != 0 ==> res[i].number <= res[j].number,
{
    let stops = expansion(template).1;
    let keys = tabstop_keys(stops);
    let p = choose|p: Seq<int>|
        #![trigger is_index_permutation(p, stops.len())]
        is_index_permutation(p, stops.len()) && is_stable_order(p, keys) && res.len() == stops.len()
            && forall|i: int| 0 <= i < res.len() ==> #[trigger] res[i] == stops[p[i]];
    assert(res[i] == stops[p[i]] && res[j] == stops[p[j]]);
    assert(lex_le(keys[p[i]], keys[p[j]]));
    assert(keys[p[i]] == tabstop_key(res[i]));
    assert(keys[p[j]] == tabstop_key(res[j]));
    lemma_tabstop_key_order(res[i], res[j]);
}

/// A template without `$` expands to itself, with no tabstops.
pub proof fn law_plain_text_unchanged(template: Seq<char>)
    requires
        forall|i: int| 0 <= i < template.len() ==> template[i] != '$',
    ensures
        expansion(template).0 == template,
        expansion(template).1.len() == 0,
{
    lemma_plain_rest(template, Seq::<char>::empty(), Seq::<TabstopView>::empty());
    assert(Seq::<char>::empty() + template =~= template);
}

proof fn lemma_plain_rest(s: Seq<char>, text: Seq<char>, stops: Seq<TabstopView>)
    requires
        forall|i: int| 0 <= i < s.len() ==> s[i] != '$',
    ensures
        expand_rest(s, text, stops) == (text + s, stops),
    decreases s.len(),
{
    if s.len() == 0 {
        assert(text + s =~= text);
    } else {
        assert(s[0] != '$');
        lemma_plain_rest(s.drop_first(), text.push(s[0]), stops);
        assert(text.push(s[0]) + s.drop_first() =~= text + s);
    }
}

proof fn lemma_leading_digits_all(s: Seq<char>)
    ensures
        leading_digits(s) <= s.len(),
        forall|i: int| 0 <= i < leading_digits(s) ==> '0' <= #[trigger] s[i] <= '9',
        leading_digits(s) < s.len() ==> !('0' <= s[leading_digits(s) as int] <= '9'),
    decreases s.len(),
{
    if s.len() > 0 && is_digit(s[0]) {
        lemma_leading_digits_all(s.drop_first());
        assert forall|i: int| 0 <= i < leading_digits(s) implies '0' <= #[trigger] s[i] <= '9' by {
            if i > 0 {
                assert(s[i] == s.drop_first()[i - 1]);
            }
        }
        if leading_digits(s) < s.len() {
            assert(s[leading_digits(s) as int] == s.drop_first()[leading_digits(s) - 1]);
        }
    }
}

proof fn lemma_decimal_values_agree(d: Seq<char>)
    ensures
        decimal_value(d) == crate::text::digits_value(d),
    decreases d.len(),
{
    if d.len() > 0 {
        lemma_decimal_values_agree(d.drop_last());
    }
}

/// The number of a tabstop is the value of the digits that start `s`
/// (all of them, up to the first non-digit), saturated at `u32::MAX`.
pub proof fn law_number_at_reads_all_digits(s: Seq<char>)
    ensures
        exists|k: int|
            #![trigger s.take(k)]
            0 <= k <= s.len() && (forall|i: int| 0 <= i < k ==> '0' <= #[trigger] s[i] <= '9') && (k
                < s.len() ==> !('0' <= s[k] <= '9')) && number_at(s) == (if crate::text::digits_value(
                s.take(k),
            ) > u32::MAX {
                u32::MAX
            } else {
                crate::text::digits_value(s.take(k)) as u32
            }),
{
    lemma_leading_digits_all(s);
    let k = leading_digits(s) as int;
    lemma_decimal_values_agree(s.take(k));
}

/// The shape of a braced tabstop: after `${` come one or more digits, then
/// either `}` (empty default) or `:`, the default text (which holds no
/// `}`) and `}`; the characters consumed are exactly these.
pub proof fn law_braced_tabstop_shape(s: Seq<char>)
    ensures
        braced_tabstop(s) matches Some(t) ==> exists|k: int|
            #![trigger s.take(k)]
            1 <= k && (forall|i: int| 0 <= i < k ==> '0' <= #[trigger] s[i] <= '9') && t.0
                == number_at(s) && (forall|i: int| 0 <= i < t.1.len() ==> #[trigger] t.1[i] != '}')
                && ((t.1.len() == 0 && s.take(t.2 as int) == s.take(k) + seq!['}']) || s.take(
                t.2 as int,
            ) == s.take(k) + seq![':'] + t.1 + seq!['}']),
{
    lemma_leading_digits_all(s);
    let k = leading_digits(s) as int;
    if let Some(t) = braced_tabstop(s) {
        if s[k] == '}' {
            assert(s.take(t.2 as int) =~= s.take(k) + seq!['}']);
        } else {
            let rest = s.skip(k + 1);
            lemma_close_brace_index_bound(rest);
            let p = close_brace_index(rest)->0 as int;
            assert forall|i: int| 0 <= i < t.1.len() implies #[trigger] t.1[i] != '}' by {
                assert(t.1[i] == rest[i]);
            }
            assert(s.take(t.2 as int) =~= s.take(k) + seq![':'] + t.1 + seq!['}']);
        }
    }
}

} // verus!
