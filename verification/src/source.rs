//! Completion sources: word prefixes, buffer words and file paths.
//!
//! Each source gathers completion candidates from a different origin.
//! LSP completions are handled separately by the editor's LSP client.

use vstd::prelude::*;

use crate::item::{
    CompletionItem, CompletionItemView, CompletionKind, CompletionSource, opt_view, sort_key_of,
    sort_text_of,
};
use crate::sorting::{is_stable_sort_of, lex_lt, stable_sort_by_keys};
use crate::text::{
    char_is_ascii_alnum, chars_of, decimal, digit_char, digits_value, is_ascii_alnum, push_char, push_chars,
    push_zero_padded, zero_padded,
};

verus! {

/// Context passed to completion sources when requesting candidates.
#[derive(Debug, Clone)]
pub struct CompletionContext {
    /// The text of the current line up to (but not including) the cursor.
    pub line_before_cursor: String,
    /// The word prefix being typed (extracted from `line_before_cursor`).
    pub prefix: String,
    /// The full path of the current buffer, if available.
    pub filepath: Option<String>,
    /// All lines in the current buffer.
    pub buffer_lines: Vec<String>,
    /// Current cursor row (0-indexed).
    pub cursor_row: usize,
    /// Current cursor col (0-indexed, byte offset).
    pub cursor_col: usize,
}

/// A word character: ASCII letter, ASCII digit or `_`.
pub open spec fn is_word_char(c: char) -> bool {
    is_ascii_alnum(c) || c == '_'
}

/// A path character: a word character or one of `/ . ~ -`.
pub open spec fn is_path_char(c: char) -> bool {
    is_word_char(c) || c == '/' || c == '.' || c == '~' || c == '-'
}

/// The number of word characters at the end of `s`.
pub open spec fn trailing_word_chars(s: Seq<char>) -> nat
    decreases s.len(),
{
    if s.len() > 0 && is_word_char(s.last()) {
        1 + trailing_word_chars(s.drop_last())
    } else {
        0
    }
}

/// The number of path characters at the end of `s`.
pub open spec fn trailing_path_chars(s: Seq<char>) -> nat
    decreases s.len(),
{
    if s.len() > 0 && is_path_char(s.last()) {
        1 + trailing_path_chars(s.drop_last())
    } else {
        0
    }
}

/// The word being typed at the end of `line`: its longest suffix of word characters.
pub open spec fn word_prefix(line: Seq<char>) -> Seq<char> {
    line.skip(line.len() - trailing_word_chars(line))
}

/// The path being typed at the end of `line`: its longest suffix of path characters.
pub open spec fn path_prefix(line: Seq<char>) -> Seq<char> {
    line.skip(line.len() - trailing_path_chars(line))
}

pub proof fn lemma_trailing_word_chars(s: Seq<char>)
    ensures
        trailing_word_chars(s) <= s.len(),
        forall|i: int| s.len() - trailing_word_chars(s) <= i < s.len() ==> is_word_char(#[trigger] s[i]),
        trailing_word_chars(s) < s.len() ==> !is_word_char(s[s.len() - trailing_word_chars(s) - 1]),
    decreases s.len(),
{
    if s.len() > 0 && is_word_char(s.last()) {
        lemma_trailing_word_chars(s.drop_last());
        assert forall|i: int| s.len() - trailing_word_chars(s) <= i < s.len() implies is_word_char(
            #[trigger] s[i],
        ) by {
            if i < s.len() - 1 {
                assert(s[i] == s.drop_last()[i]);
            }
        }
        if trailing_word_chars(s) < s.len() {
            assert(s[s.len() - trailing_word_chars(s) - 1] == s.drop_last()[s.len()
                - trailing_word_chars(s) - 1]);
        }
    }
}

pub proof fn lemma_trailing_path_chars(s: Seq<char>)
    ensures
        trailing_path_chars(s) <= s.len(),
        forall|i: int| s.len() - trailing_path_chars(s) <= i < s.len() ==> is_path_char(#[trigger] s[i]),
        trailing_path_chars(s) < s.len() ==> !is_path_char(s[s.len() - trailing_path_chars(s) - 1]),
    decreases s.len(),
{
    if s.len() > 0 && is_path_char(s.last()) {
        lemma_trailing_path_chars(s.drop_last());
        assert forall|i: int| s.len() - trailing_path_chars(s) <= i < s.len() implies is_path_char(
            #[trigger] s[i],
        ) by {
            if i < s.len() - 1 {
                assert(s[i] == s.drop_last()[i]);
            }
        }
        if trailing_path_chars(s) < s.len() {
            assert(s[s.len() - trailing_path_chars(s) - 1] == s.drop_last()[s.len()
                - trailing_path_chars(s) - 1]);
        }
    }
}

/// The characters `chars[from..]` as a new string.
fn string_from(chars: &Vec<char>, from: usize) -> (r: String)
    requires
        from <= chars@.len(),
    ensures
        r@ == chars@.skip(from as int),
{
    let mut r = String::new();
    push_chars(&mut r, chars, from, chars.len());
    assert(Seq::<char>::empty() + chars@.subrange(from as int, chars@.len() as int) =~= chars@.skip(
        from as int,
    ));
    r
}

fn word_char(c: char) -> (r: bool)
    ensures
        r == is_word_char(c),
{
    char_is_ascii_alnum(c) || c == '_'
}

fn path_char(c: char) -> (r: bool)
    ensures
        r == is_path_char(c),
{
    word_char(c) || c == '/' || c == '.' || c == '~' || c == '-'
}

impl CompletionContext {
    /// Extract the word prefix from the line before cursor: the longest
    /// suffix made of ASCII letters, digits and underscores.
    pub fn extract_prefix(line: &str) -> (r: String)
        ensures
            r@ == word_prefix(line@),
    {
        let chars = chars_of(line);
        let mut start = chars.len();
        assert(chars@.take(start as int) =~= chars@);
        while start > 0 && word_char(chars[start - 1])
            invariant
                start <= chars@.len(),
                trailing_word_chars(chars@) == (chars@.len() - start) + trailing_word_chars(
                    chars@.take(start as int),
                ),
            decreases start,
        {
            assert(chars@.take(start as int).drop_last() =~= chars@.take(start - 1));
            start = start - 1;
        }
        string_from(&chars, start)
    }

    /// Extract a path-like prefix: the longest suffix made of word
    /// characters and `/`, `.`, `~`, `-`.
    pub fn extract_path_prefix(line: &str) -> (r: String)
        ensures
            r@ == path_prefix(line@),
    {
        let chars = chars_of(line);
        let mut start = chars.len();
        assert(chars@.take(start as int) =~= chars@);
        while start > 0 && path_char(chars[start - 1])
            invariant
                start <= chars@.len(),
                trailing_path_chars(chars@) == (chars@.len() - start) + trailing_path_chars(
                    chars@.take(start as int),
                ),
            decreases start,
        {
            assert(chars@.take(start as int).drop_last() =~= chars@.take(start - 1));
            start = start - 1;
        }
        string_from(&chars, start)
    }
}

/// The word prefix of a line is its longest suffix of word characters:
/// a suffix of the line, made of word characters only, and not preceded
/// by another word character.
pub proof fn law_word_prefix_is_longest_word_suffix(line: Seq<char>)
    ensures
        word_prefix(line).len() <= line.len(),
        word_prefix(line) == line.skip(line.len() - word_prefix(line).len()),
        forall|i: int| 0 <= i < word_prefix(line).len() ==> is_word_char(#[trigger] word_prefix(line)[i]),
        word_prefix(line).len() < line.len() ==> !is_word_char(
            line[line.len() - word_prefix(line).len() - 1],
        ),
{
    lemma_trailing_word_chars(line);
    let k = trailing_word_chars(line);
    assert forall|i: int| 0 <= i < word_prefix(line).len() implies is_word_char(
        #[trigger] word_prefix(line)[i],
    ) by {
        assert(word_prefix(line)[i] == line[line.len() - k + i]);
    }
}

/// The word prefix of a line is a suffix of its path prefix: every word
/// character is a path character.
pub proof fn law_word_prefix_within_path_prefix(line: Seq<char>)
    ensures
        word_prefix(line).len() <= path_prefix(line).len(),
        word_prefix(line) == path_prefix(line).skip(
            path_prefix(line).len() - word_prefix(line).len(),
        ),
    decreases line.len(),
{
    lemma_trailing_word_chars(line);
    lemma_trailing_path_chars(line);
    lemma_word_run_within_path_run(line);
    assert(path_prefix(line).skip(path_prefix(line).len() - word_prefix(line).len()) =~= word_prefix(
        line,
    ));
}

proof fn lemma_word_run_within_path_run(s: Seq<char>)
    ensures
        trailing_word_chars(s) <= trailing_path_chars(s),
    decreases s.len(),
{
    if s.len() > 0 {
        lemma_word_run_within_path_run(s.drop_last());
    }
}

/// The number of word characters at the start of `s`.
pub open spec fn leading_word_chars(s: Seq<char>) -> nat
    decreases s.len(),
{
    if s.len() > 0 && is_word_char(s[0]) {
        1 + leading_word_chars(s.drop_first())
    } else {
        0
    }
}

pub proof fn lemma_leading_word_chars_bound(s: Seq<char>)
    ensures
        leading_word_chars(s) <= s.len(),
    decreases s.len(),
{
    if s.len() > 0 && is_word_char(s[0]) {
        lemma_leading_word_chars_bound(s.drop_first());
    }
}

/// The words of a line, in order: the maximal runs of word characters that
/// are at least two characters long.
pub open spec fn words(s: Seq<char>) -> Seq<Seq<char>>
    decreases s.len(),
{
    if s.len() == 0 {
        Seq::<Seq<char>>::empty()
    } else if !is_word_char(s[0]) {
        words(s.drop_first())
    } else {
        proof {
            lemma_leading_word_chars_bound(s);
        }
        let k = leading_word_chars(s);
        if k >= 2 {
            seq![s.take(k as int)] + words(s.skip(k as int))
        } else {
            words(s.skip(k as int))
        }
    }
}

/// The characters of each string.
pub open spec fn string_views(v: Seq<String>) -> Seq<Seq<char>> {
    v.map_values(|s: String| s@)
}

/// Extract all word-like tokens from a line: maximal runs of ASCII
/// letters, digits and underscores, at least two characters long.
pub fn extract_words(line: &str) -> (r: Vec<String>)
    ensures
        string_views(r@) == words(line@),
{
    let chars = chars_of(line);
    let n = chars.len();
    let mut out: Vec<String> = Vec::new();
    let mut i: usize = 0;
    assert(chars@.skip(0) =~= chars@);
    while i < n
        invariant
            n == chars@.len(),
            i <= n,
            words(chars@) == string_views(out@) + words(chars@.skip(i as int)),
        decreases n - i,
    {
        let ghost s = chars@.skip(i as int);
        assert(s[0] == chars@[i as int]);
        if !word_char(chars[i]) {
            assert(s.drop_first() =~= chars@.skip(i + 1));
            i = i + 1;
        } else {
            let mut j = i;
            while j < n && word_char(chars[j])
                invariant
                    n == chars@.len(),
                    i <= j <= n,
                    leading_word_chars(s) == (j - i) + leading_word_chars(chars@.skip(j as int)),
                decreases n - j,
            {
                assert(chars@.skip(j as int).drop_first() =~= chars@.skip(j + 1));
                j = j + 1;
            }
            assert(leading_word_chars(chars@.skip(j as int)) == 0);
            assert(s.skip(j - i) =~= chars@.skip(j as int));
            let ghost before = string_views(out@);
            if j - i >= 2 {
                let mut w = String::new();
                push_chars(&mut w, &chars, i, j);
                assert(Seq::<char>::empty() + chars@.subrange(i as int, j as int) =~= s.take(
                    (j - i) as int,
                ));
                out.push(w);
                assert(string_views(out@) =~= before.push(s.take((j - i) as int)));
                assert(before + (seq![s.take((j - i) as int)] + words(chars@.skip(j as int)))
                    =~= before.push(s.take((j - i) as int)) + words(chars@.skip(j as int)));
            }
            i = j;
        }
    }
    assert(chars@.skip(n as int) =~= Seq::<char>::empty());
    assert(string_views(out@) + Seq::<Seq<char>>::empty() =~= string_views(out@));
    out
}

/// Every word of `lines` with its row, in reading order.
pub open spec fn occurrences(lines: Seq<Seq<char>>) -> Seq<(nat, Seq<char>)>
    decreases lines.len(),
{
    if lines.len() == 0 {
        Seq::<(nat, Seq<char>)>::empty()
    } else {
        occurrences(lines.drop_last()) + row_words(lines.last(), (lines.len() - 1) as nat)
    }
}

/// The words of one line, tagged with its row.
pub open spec fn row_words(line: Seq<char>, row: nat) -> Seq<(nat, Seq<char>)> {
    words(line).map_values(|w: Seq<char>| (row, w))
}

/// `w` starts with `prefix` and is longer than it.
pub open spec fn extends_prefix(w: Seq<char>, prefix: Seq<char>) -> bool {
    w.len() > prefix.len() && w.take(prefix.len() as int) == prefix
}

/// Whether `w` is the word of one of `found`.
pub open spec fn word_found(found: Seq<(nat, Seq<char>)>, w: Seq<char>) -> bool {
    exists|i: int| 0 <= i < found.len() && (#[trigger] found[i]).1 == w
}

/// The first occurrence of each word that extends `prefix`, in reading order.
pub open spec fn first_extensions(occ: Seq<(nat, Seq<char>)>, prefix: Seq<char>) -> Seq<
    (nat, Seq<char>),
>
    decreases occ.len(),
{
    if occ.len() == 0 {
        Seq::<(nat, Seq<char>)>::empty()
    } else {
        let found = first_extensions(occ.drop_last(), prefix);
        let o = occ.last();
        if extends_prefix(o.1, prefix) && !word_found(found, o.1) {
            found.push(o)
        } else {
            found
        }
    }
}

/// The distance between two rows.
pub open spec fn row_distance(row: nat, current: nat) -> nat {
    if row >= current {
        (row - current) as nat
    } else {
        (current - row) as nat
    }
}

/// The buffer-word item for word occurrence `o`: a `Text` item from the
/// buffer source whose sort text is `7`, the row distance to the cursor in
/// five (or more) zero-padded digits, then the word.
pub open spec fn buffer_item(o: (nat, Seq<char>), current_row: nat) -> CompletionItemView {
    CompletionItemView {
        label: o.1,
        kind: CompletionKind::Text,
        detail: None,
        insert_text: None,
        sort_text: Some(seq!['7'] + zero_padded(row_distance(o.0, current_row), 5) + o.1),
        filter_text: None,
        source: CompletionSource::Buffer,
    }
}

/// The buffer completions of `lines` for `prefix`, as item views.
pub open spec fn buffer_items(lines: Seq<Seq<char>>, prefix: Seq<char>, current_row: nat) -> Seq<
    CompletionItemView,
> {
    if prefix.len() == 0 {
        Seq::<CompletionItemView>::empty()
    } else {
        first_extensions(occurrences(lines), prefix).map_values(
            |o: (nat, Seq<char>)| buffer_item(o, current_row),
        )
    }
}

/// The views of a sequence of items.
pub open spec fn item_views(v: Seq<CompletionItem>) -> Seq<CompletionItemView> {
    v.map_values(|it: CompletionItem| it@)
}

fn extends_prefix_exec(w: &Vec<char>, prefix: &Vec<char>) -> (r: bool)
    ensures
        r == extends_prefix(w@, prefix@),
{
    if w.len() <= prefix.len() {
        return false;
    }
    let mut k: usize = 0;
    while k < prefix.len()
        invariant
            prefix@.len() < w@.len(),
            k <= prefix@.len(),
            forall|j: int| 0 <= j < k ==> w@[j] == prefix@[j],
        decreases prefix.len() - k,
    {
        if w[k] != prefix[k] {
            assert(w@.take(prefix@.len() as int)[k as int] != prefix@[k as int]);
            return false;
        }
        k = k + 1;
    }
    assert(w@.take(prefix@.len() as int) =~= prefix@);
    true
}

/// Collect buffer-word completions from the given buffer lines.
///
/// Scans all lines for words (runs of ASCII letters, digits and `_` of at
/// least two characters) and returns, for each distinct word that starts
/// with `prefix` and is longer than it, one item at its first occurrence,
/// in reading order. Its sort text ranks words from nearby lines first.
/// An empty prefix yields no items.
pub fn buffer_completions(lines: &[String], prefix: &str, current_row: usize) -> (r: Vec<
    CompletionItem,
>)
    ensures
        item_views(r@) == buffer_items(string_views(lines@), prefix@, current_row as nat),
{
    if prefix.is_empty() {
        let r: Vec<CompletionItem> = Vec::new();
        assert(item_views(r@) =~= Seq::<CompletionItemView>::empty());
        return r;
    }
    let pchars = chars_of(prefix);
    let ghost all = string_views(lines@);
    let ghost cur = current_row as nat;
    let mut items: Vec<CompletionItem> = Vec::new();
    let n = lines.len();
    assert(all.take(0) =~= Seq::<Seq<char>>::empty());
    assert(item_views(items@) =~= Seq::<CompletionItemView>::empty());
    for row in 0..n
        invariant
            n == lines@.len(),
            all == string_views(lines@),
            cur == current_row as nat,
            pchars@ == prefix@,
            item_views(items@) == first_extensions(occurrences(all.take(row as int)), prefix@).map_values(
                |o: (nat, Seq<char>)| buffer_item(o, cur),
            ),
    {
        let ws = extract_words(lines[row].as_str());
        let ghost base = occurrences(all.take(row as int));
        let ghost line = all[row as int];
        assert(line == lines@[row as int]@);
        assert(base + row_words(line, row as nat).take(0) =~= base);
        for k in 0..ws.len()
            invariant
                n == lines@.len(),
                row < n,
                all == string_views(lines@),
                cur == current_row as nat,
                pchars@ == prefix@,
                string_views(ws@) == words(line),
                item_views(items@) == first_extensions(
                    base + row_words(line, row as nat).take(k as int),
                    prefix@,
                ).map_values(|o: (nat, Seq<char>)| buffer_item(o, cur)),
        {
            let ghost occ = base + row_words(line, row as nat).take(k as int);
            let ghost found = first_extensions(occ, prefix@);
            let ghost o = (row as nat, ws@[k as int]@);
            assert(string_views(ws@)[k as int] == ws@[k as int]@);
            assert(row_words(line, row as nat)[k as int] == o);
            assert((base + row_words(line, row as nat).take(k + 1)).drop_last() =~= occ);
            assert((base + row_words(line, row as nat).take(k + 1)).last() == o);
            let wchars = chars_of(ws[k].as_str());
            if extends_prefix_exec(&wchars, &pchars) {
                let mut seen = false;
                let mut j: usize = 0;
                while j < items.len()
                    invariant
                        j <= items@.len(),
                        k < ws@.len(),
                        o == (row as nat, ws@[k as int]@),
                        item_views(items@) == found.map_values(
                            |o: (nat, Seq<char>)| buffer_item(o, cur),
                        ),
                        seen == (exists|i: int| 0 <= i < j && (#[trigger] found[i]).1 == o.1),
                    decreases items.len() - j,
                {
                    assert(item_views(items@).len() == items@.len());
                    assert(found.map_values(|o: (nat, Seq<char>)| buffer_item(o, cur)).len()
                        == found.len());
                    assert(item_views(items@)[j as int] == buffer_item(found[j as int], cur));
                    if items[j].label == ws[k] {
                        seen = true;
                    }
                    j = j + 1;
                }
                if !seen {
                    let distance = if row >= current_row {
                        row - current_row
                    } else {
                        current_row - row
                    };
                    let mut sort = String::new();
                    push_char(&mut sort, '7');
                    push_zero_padded(&mut sort, distance, 5);
                    sort.append(ws[k].as_str());
                    let item = CompletionItem::new(
                        ws[k].as_str(),
                        CompletionKind::Text,
                        CompletionSource::Buffer,
                    ).sort_text(sort.as_str());
                    assert(item@ == buffer_item(o, cur));
                    let ghost before = items@;
                    items.push(item);
                    assert(item_views(items@) =~= item_views(before).push(buffer_item(o, cur)));
                    assert(item_views(items@) =~= found.push(o).map_values(
                        |o: (nat, Seq<char>)| buffer_item(o, cur),
                    ));
                }
            }
        }
        assert(row_words(line, row as nat).take(ws@.len() as int) =~= row_words(line, row as nat));
        assert(all.take(row + 1).drop_last() =~= all.take(row as int));
        assert(all.take(row + 1).last() == line);
    }
    assert(all.take(n as int) =~= all);
    items
}

proof fn lemma_first_extensions(occ: Seq<(nat, Seq<char>)>, prefix: Seq<char>)
    ensures
        forall|i: int, j: int|
            0 <= i < j < first_extensions(occ, prefix).len() ==> (#[trigger] first_extensions(
                occ,
                prefix,
            )[i]).1 != (#[trigger] first_extensions(occ, prefix)[j]).1,
        forall|i: int|
            0 <= i < first_extensions(occ, prefix).len() ==> extends_prefix(
                (#[trigger] first_extensions(occ, prefix)[i]).1,
                prefix,
            ),
        forall|i: int|
            0 <= i < occ.len() && extends_prefix((#[trigger] occ[i]).1, prefix) ==> word_found(
                first_extensions(occ, prefix),
                occ[i].1,
            ),
    decreases occ.len(),
{
    if occ.len() > 0 {
        let prev = occ.drop_last();
        lemma_first_extensions(prev, prefix);
        let found = first_extensions(prev, prefix);
        let fe = first_extensions(occ, prefix);
        assert forall|i: int|
            0 <= i < occ.len() && extends_prefix((#[trigger] occ[i]).1, prefix) implies word_found(
            fe,
            occ[i].1,
        ) by {
            if i < occ.len() - 1 {
                assert(occ[i] == prev[i]);
                assert(word_found(found, prev[i].1));
                let k = choose|k: int| 0 <= k < found.len() && (#[trigger] found[k]).1 == prev[i].1;
                assert(fe[k] == found[k]);
            } else if !word_found(found, occ.last().1) {
                assert(fe[found.len() as int] == occ.last());
            } else {
            }
        }
    }
}

/// Buffer completions list each word once, only words that extend the
/// prefix, and every word of the buffer that extends the prefix; each is a
/// `Text` item from the buffer source.
pub proof fn law_buffer_items_distinct_and_complete(
    lines: Seq<Seq<char>>,
    prefix: Seq<char>,
    current_row: nat,
)
    requires
        prefix.len() > 0,
    ensures
        ({
            let items = buffer_items(lines, prefix, current_row);
            &&& forall|i: int, j: int|
                0 <= i < j < items.len() ==> (#[trigger] items[i]).label != (#[trigger] items[j]).label
            &&& forall|i: int|
                0 <= i < items.len() ==> extends_prefix((#[trigger] items[i]).label, prefix)
                    && items[i].kind == CompletionKind::Text && items[i].source
                    == CompletionSource::Buffer
            &&& forall|r: int, w: int|
                0 <= r < lines.len() && 0 <= w < words(lines[r]).len() && extends_prefix(
                    #[trigger] words(lines[r])[w],
                    prefix,
                ) ==> exists|i: int| 0 <= i < items.len() && (#[trigger] items[i]).label == words(
                    lines[r],
                )[w]
        }),
{
    let occ = occurrences(lines);
    let fe = first_extensions(occ, prefix);
    let items = buffer_items(lines, prefix, current_row);
    lemma_first_extensions(occ, prefix);
    assert forall|i: int| 0 <= i < items.len() implies #[trigger] items[i] == buffer_item(fe[i], current_row) by {}
    assert forall|r: int, w: int|
        0 <= r < lines.len() && 0 <= w < words(lines[r]).len() && extends_prefix(
            #[trigger] words(lines[r])[w],
            prefix,
        ) implies exists|i: int| 0 <= i < items.len() && (#[trigger] items[i]).label == words(
        lines[r],
    )[w] by {
        let k = lemma_occurrence_index(lines, r, w);
        assert(extends_prefix(occ[k].1, prefix));
        assert(word_found(fe, occ[k].1));
        let i = choose|i: int| 0 <= i < fe.len() && (#[trigger] fe[i]).1 == occ[k].1;
        assert(items[i] == buffer_item(fe[i], current_row));
    }
}

/// Each word of each line appears among the occurrences.
proof fn lemma_occurrence_index(lines: Seq<Seq<char>>, r: int, w: int) -> (k: int)
    requires
        0 <= r < lines.len(),
        0 <= w < words(lines[r]).len(),
    ensures
        0 <= k < occurrences(lines).len(),
        occurrences(lines)[k] == (r as nat, words(lines[r])[w]),
    decreases lines.len(),
{
    let prev = lines.drop_last();
    let last = row_words(lines.last(), (lines.len() - 1) as nat);
    if r < lines.len() - 1 {
        assert(lines[r] == prev[r]);
        let k = lemma_occurrence_index(prev, r, w);
        assert(occurrences(lines)[k] == occurrences(prev)[k]);
        k
    } else {
        let k = occurrences(prev).len() + w;
        assert(occurrences(lines)[k] == last[w]);
        k
    }
}

/// The path to complete for a typed path prefix: `None` for an empty prefix
/// or when a leading `~` cannot be expanded; a leading `~` is replaced by
/// the home directory; any other prefix is kept as it is.
pub open spec fn expanded_path(path_prefix: Seq<char>, home: Option<Seq<char>>) -> Option<
    Seq<char>,
> {
    if path_prefix.len() == 0 {
        None
    } else if path_prefix[0] == '~' {
        match home {
            Some(h) => Some(h + path_prefix.drop_first()),
            None => None,
        }
    } else {
        Some(path_prefix)
    }
}

/// Expand a typed path prefix for listing (see `expanded_path`).
/// `home` is the user's home directory, if known.
pub fn expand_path_prefix(path_prefix: &str, home: Option<String>) -> (r: Option<String>)
    ensures
        opt_view(r) == expanded_path(path_prefix@, opt_view(home)),
{
    let chars = chars_of(path_prefix);
    if chars.len() == 0 {
        return None;
    }
    if chars[0] == '~' {
        match home {
            Some(h) => {
                let mut r = h;
                push_chars(&mut r, &chars, 1, chars.len());
                assert(chars@.subrange(1, chars@.len() as int) =~= path_prefix@.drop_first());
                Some(r)
            },
            None => None,
        }
    } else {
        Some(path_prefix.to_owned())
    }
}

/// A directory entry as listed by the file system.
pub struct PathEntry {
    /// The entry's file name.
    pub name: String,
    /// Whether the entry is a directory.
    pub is_dir: bool,
}

/// Whether an entry named `name` is offered for the typed file-name
/// prefix: the name starts with the prefix, and hidden entries (starting
/// with `.`) are offered only when the prefix starts with `.`.
pub open spec fn entry_offered(name: Seq<char>, name_prefix: Seq<char>) -> bool {
    &&& (name_prefix.len() == 0 || (name.len() >= name_prefix.len() && name.take(
        name_prefix.len() as int,
    ) == name_prefix))
    &&& !(name.len() > 0 && name[0] == '.' && !(name_prefix.len() > 0 && name_prefix[0] == '.'))
}

/// The offered entries, in listing order.
pub open spec fn offered_entries(entries: Seq<PathEntry>, name_prefix: Seq<char>) -> Seq<PathEntry>
    decreases entries.len(),
{
    if entries.len() == 0 {
        Seq::<PathEntry>::empty()
    } else {
        let prev = offered_entries(entries.drop_last(), name_prefix);
        if entry_offered(entries.last().name@, name_prefix) {
            prev.push(entries.last())
        } else {
            prev
        }
    }
}

/// The completion item of a directory entry: a `Folder` inserting
/// `name/` with detail `directory`, or a `File` inserting `name` with
/// detail `file`.
pub open spec fn path_item(e: PathEntry) -> CompletionItemView {
    CompletionItemView {
        label: e.name@,
        kind: if e.is_dir {
            CompletionKind::Folder
        } else {
            CompletionKind::File
        },
        detail: Some(
            if e.is_dir {
                "directory"@
            } else {
                "file"@
            },
        ),
        insert_text: Some(
            if e.is_dir {
                e.name@.push('/')
            } else {
                e.name@
            },
        ),
        sort_text: None,
        filter_text: None,
        source: CompletionSource::Path,
    }
}

/// The listing order key: folders before files, then by label.
pub open spec fn path_key(v: CompletionItemView) -> Seq<u32> {
    seq![
        if v.kind == CompletionKind::Folder {
            0u32
        } else {
            1u32
        },
    ] + v.label.map_values(|c: char| c as u32)
}

fn entry_offered_exec(name: &Vec<char>, prefix: &Vec<char>) -> (r: bool)
    ensures
        r == entry_offered(name@, prefix@),
{
    if prefix.len() > 0 {
        if name.len() < prefix.len() {
            return false;
        }
        let mut k: usize = 0;
        while k < prefix.len()
            invariant
                prefix@.len() <= name@.len(),
                k <= prefix@.len(),
                forall|j: int| 0 <= j < k ==> name@[j] == prefix@[j],
            decreases prefix.len() - k,
        {
            if name[k] != prefix[k] {
                assert(name@.take(prefix@.len() as int)[k as int] != prefix@[k as int]);
                return false;
            }
            k = k + 1;
        }
        assert(name@.take(prefix@.len() as int) =~= prefix@);
    }
    let hidden = name.len() > 0 && name[0] == '.';
    let dot_prefix = prefix.len() > 0 && prefix[0] == '.';
    !(hidden && !dot_prefix)
}

/// Build the completion items for the entries of a listed directory.
///
/// Entries are offered when their name starts with `name_prefix`; hidden
/// entries only when `name_prefix` starts with `.`. Folders come first,
/// then files, each group by label; entries that compare equal keep their
/// listing order.
pub fn path_items(name_prefix: &str, entries: Vec<PathEntry>) -> (r: Vec<CompletionItem>)
    ensures
        is_stable_sort_of(
            item_views(r@),
            offered_entries(entries@, name_prefix@).map_values(|e: PathEntry| path_item(e)),
            offered_entries(entries@, name_prefix@).map_values(|e: PathEntry| path_key(path_item(e))),
        ),
{
    let pchars = chars_of(name_prefix);
    let ghost es = entries@;
    let mut items: Vec<CompletionItem> = Vec::new();
    let mut keys: Vec<Vec<u32>> = Vec::new();
    assert(es.take(0) =~= Seq::<PathEntry>::empty());
    for e in it: entries.into_iter()
        invariant
            pchars@ == name_prefix@,
            it.seq() == es,
            item_views(items@) == offered_entries(es.take(it.index()), name_prefix@).map_values(
                |e: PathEntry| path_item(e),
            ),
            keys@.map_values(|k: Vec<u32>| k@) == offered_entries(es.take(it.index()), name_prefix@).map_values(
                |e: PathEntry| path_key(path_item(e)),
            ),
    {
        let ghost idx = it.index();
        assert(es.take(idx + 1).drop_last() =~= es.take(idx));
        assert(es.take(idx + 1).last() == e);
        let nchars = chars_of(e.name.as_str());
        if entry_offered_exec(&nchars, &pchars) {
            let ghost prev_items = items@;
            let ghost prev_keys = keys@;
            let mut key: Vec<u32> = Vec::new();
            key.push(if e.is_dir { 0u32 } else { 1u32 });
            for k in 0..nchars.len()
                invariant
                    key@ =~= seq![if e.is_dir { 0u32 } else { 1u32 }] + nchars@.take(k as int).map_values(
                        |c: char| c as u32,
                    ),
            {
                key.push(nchars[k] as u32);
            }
            assert(nchars@.take(nchars@.len() as int) =~= nchars@);
            let item = if e.is_dir {
                let mut insert = e.name.clone();
                push_char(&mut insert, '/');
                CompletionItem::new(e.name.as_str(), CompletionKind::Folder, CompletionSource::Path)
                    .insert_text(insert.as_str()).detail("directory")
            } else {
                CompletionItem::new(e.name.as_str(), CompletionKind::File, CompletionSource::Path)
                    .insert_text(e.name.as_str()).detail("file")
            };
            assert(item@ == path_item(e));
            assert(key@ == path_key(path_item(e)));
            items.push(item);
            keys.push(key);
            assert(item_views(items@) =~= item_views(prev_items).push(path_item(e)));
            assert(keys@.map_values(|k: Vec<u32>| k@) =~= prev_keys.map_values(|k: Vec<u32>| k@).push(
                path_key(path_item(e)),
            ));
        }
    }
    assert(es.take(es.len() as int) =~= es);
    let ghost before = items@;
    let sorted = stable_sort_by_keys(items, &keys);
    proof {
        crate::sorting::lemma_stable_sort_map(
            sorted@,
            before,
            keys@.map_values(|k: Vec<u32>| k@),
            |it: CompletionItem| it@,
        );
    }
    sorted
}

/// Code points of a character sequence.
pub open spec fn code_points(s: Seq<char>) -> Seq<u32> {
    s.map_values(|c: char| c as u32)
}

proof fn lemma_code_points_concat(a: Seq<char>, b: Seq<char>)
    ensures
        code_points(a + b) == code_points(a) + code_points(b),
{
    assert(code_points(a + b) =~= code_points(a) + code_points(b));
}

/// A distance below 100000 is written as exactly five digits.
proof fn lemma_zero_padded_five(d: nat)
    requires
        d < 100000,
    ensures
        zero_padded(d, 5) == seq![
            digit_char(d / 10000),
            digit_char((d / 1000) % 10),
            digit_char((d / 100) % 10),
            digit_char((d / 10) % 10),
            digit_char(d % 10),
        ],
{
    reveal_with_fuel(decimal, 6);
    assert(digit_char(0) == '0');
    if d < 10 {
        assert(decimal(d) == seq![digit_char(d)]);
    } else if d < 100 {
        assert(decimal(d) =~= seq![digit_char(d / 10), digit_char(d % 10)]);
    } else if d < 1000 {
        assert(decimal(d / 10) =~= seq![digit_char(d / 100), digit_char((d / 10) % 10)]);
        assert(decimal(d) =~= seq![
            digit_char(d / 100),
            digit_char((d / 10) % 10),
            digit_char(d % 10),
        ]);
    } else if d < 10000 {
        assert(decimal(d / 100) =~= seq![digit_char(d / 1000), digit_char((d / 100) % 10)]);
        assert(decimal(d / 10) =~= seq![
            digit_char(d / 1000),
            digit_char((d / 100) % 10),
            digit_char((d / 10) % 10),
        ]);
        assert(decimal(d) =~= seq![
            digit_char(d / 1000),
            digit_char((d / 100) % 10),
            digit_char((d / 10) % 10),
            digit_char(d % 10),
        ]);
    } else {
        assert(decimal(d / 1000) =~= seq![digit_char(d / 10000), digit_char((d / 1000) % 10)]);
        assert(decimal(d / 100) =~= seq![
            digit_char(d / 10000),
            digit_char((d / 1000) % 10),
            digit_char((d / 100) % 10),
        ]);
        assert(decimal(d / 10) =~= seq![
            digit_char(d / 10000),
            digit_char((d / 1000) % 10),
            digit_char((d / 100) % 10),
            digit_char((d / 10) % 10),
        ]);
        assert(decimal(d) =~= seq![
            digit_char(d / 10000),
            digit_char((d / 1000) % 10),
            digit_char((d / 100) % 10),
            digit_char((d / 10) % 10),
            digit_char(d % 10),
        ]);
    }
    assert(zero_padded(d, 5) =~= seq![
        digit_char(d / 10000),
        digit_char((d / 1000) % 10),
        digit_char((d / 100) % 10),
        digit_char((d / 10) % 10),
        digit_char(d % 10),
    ]);
}

/// Five-digit padded numbers compare as the numbers do.
proof fn lemma_zero_padded_five_order(a: nat, b: nat)
    requires
        a < b < 100000,
    ensures
        lex_lt(code_points(zero_padded(a, 5)), code_points(zero_padded(b, 5))),
{
    lemma_zero_padded_five(a);
    lemma_zero_padded_five(b);
    let ka = code_points(zero_padded(a, 5));
    let kb = code_points(zero_padded(b, 5));
    assert(ka =~= seq![
        (48 + a / 10000) as u32,
        (48 + (a / 1000) % 10) as u32,
        (48 + (a / 100) % 10) as u32,
        (48 + (a / 10) % 10) as u32,
        (48 + a % 10) as u32,
    ]);
    assert(kb =~= seq![
        (48 + b / 10000) as u32,
        (48 + (b / 1000) % 10) as u32,
        (48 + (b / 100) % 10) as u32,
        (48 + (b / 10) % 10) as u32,
        (48 + b % 10) as u32,
    ]);
    reveal_with_fuel(lex_lt, 6);
    assert(ka.drop_first() =~= seq![
        (48 + (a / 1000) % 10) as u32,
        (48 + (a / 100) % 10) as u32,
        (48 + (a / 10) % 10) as u32,
        (48 + a % 10) as u32,
    ]);
    assert(kb.drop_first() =~= seq![
        (48 + (b / 1000) % 10) as u32,
        (48 + (b / 100) % 10) as u32,
        (48 + (b / 10) % 10) as u32,
        (48 + b % 10) as u32,
    ]);
    assert(ka.drop_first().drop_first() =~= seq![
        (48 + (a / 100) % 10) as u32,
        (48 + (a / 10) % 10) as u32,
        (48 + a % 10) as u32,
    ]);
    assert(kb.drop_first().drop_first() =~= seq![
        (48 + (b / 100) % 10) as u32,
        (48 + (b / 10) % 10) as u32,
        (48 + b % 10) as u32,
    ]);
    assert(ka.drop_first().drop_first().drop_first() =~= seq![
        (48 + (a / 10) % 10) as u32,
        (48 + a % 10) as u32,
    ]);
    assert(kb.drop_first().drop_first().drop_first() =~= seq![
        (48 + (b / 10) % 10) as u32,
        (48 + b % 10) as u32,
    ]);
    assert(ka.drop_first().drop_first().drop_first().drop_first() =~= seq![(48 + a % 10) as u32]);
    assert(kb.drop_first().drop_first().drop_first().drop_first() =~= seq![(48 + b % 10) as u32]);
    assert(ka.drop_first().drop_first().drop_first().drop_first().drop_first().len() == 0);
    assert(kb.drop_first().drop_first().drop_first().drop_first().drop_first().len() == 0);
    assert(a / 10000 < b / 10000 || (a / 10000 == b / 10000 && ((a / 1000) % 10 < (b / 1000) % 10 || (
    (a / 1000) % 10 == (b / 1000) % 10 && ((a / 100) % 10 < (b / 100) % 10 || ((a / 100) % 10 == (b
        / 100) % 10 && ((a / 10) % 10 < (b / 10) % 10 || ((a / 10) % 10 == (b / 10) % 10 && a % 10
        < b % 10)))))))) by (nonlinear_arith)
        requires
            a < b < 100000,
    ;
}

proof fn lemma_lex_common_prefix(p: Seq<u32>, a: Seq<u32>, b: Seq<u32>)
    requires
        lex_lt(a, b),
    ensures
        lex_lt(p + a, p + b),
    decreases p.len(),
{
    if p.len() > 0 {
        lemma_lex_common_prefix(p.drop_first(), a, b);
        assert((p + a).drop_first() =~= p.drop_first() + a);
        assert((p + b).drop_first() =~= p.drop_first() + b);
    } else {
        assert(p + a =~= a);
        assert(p + b =~= b);
    }
}

proof fn lemma_lex_equal_length_heads(a: Seq<u32>, b: Seq<u32>, s: Seq<u32>, t: Seq<u32>)
    requires
        lex_lt(a, b),
        a.len() == b.len(),
    ensures
        lex_lt(a + s, b + t),
    decreases a.len(),
{
    if a[0] == b[0] {
        lemma_lex_equal_length_heads(a.drop_first(), b.drop_first(), s, t);
        assert((a + s).drop_first() =~= a.drop_first() + s);
        assert((b + t).drop_first() =~= b.drop_first() + t);
    }
}

/// Buffer words from nearer rows sort first: when one word's first row is
/// nearer the cursor than another's, and the distances are below 100000
/// (five digits), its item's sort key (the key `sort_items` orders by)
/// is smaller.
pub proof fn law_nearer_rows_sort_first(
    lines: Seq<Seq<char>>,
    prefix: Seq<char>,
    current_row: nat,
    i: int,
    j: int,
)
    requires
        prefix.len() > 0,
        0 <= i < first_extensions(occurrences(lines), prefix).len(),
        0 <= j < first_extensions(occurrences(lines), prefix).len(),
        row_distance(first_extensions(occurrences(lines), prefix)[i].0, current_row) < row_distance(
            first_extensions(occurrences(lines), prefix)[j].0,
            current_row,
        ),
        row_distance(first_extensions(occurrences(lines), prefix)[j].0, current_row) < 100000,
    ensures
        lex_lt(
            sort_key_of(buffer_items(lines, prefix, current_row)[i]),
            sort_key_of(buffer_items(lines, prefix, current_row)[j]),
        ),
{
    let fe = first_extensions(occurrences(lines), prefix);
    let items = buffer_items(lines, prefix, current_row);
    let x = items[i];
    let y = items[j];
    assert(x == buffer_item(fe[i], current_row));
    assert(y == buffer_item(fe[j], current_row));
    let dx = row_distance(fe[i].0, current_row);
    let dy = row_distance(fe[j].0, current_row);
    let head = seq![digit_char(7), '7'];
    assert(sort_text_of(x) =~= head + zero_padded(dx, 5) + fe[i].1);
    assert(sort_text_of(y) =~= head + zero_padded(dy, 5) + fe[j].1);
    lemma_code_points_concat(head + zero_padded(dx, 5), fe[i].1);
    lemma_code_points_concat(head, zero_padded(dx, 5));
    lemma_code_points_concat(head + zero_padded(dy, 5), fe[j].1);
    lemma_code_points_concat(head, zero_padded(dy, 5));
    lemma_zero_padded_five_order(dx, dy);
    lemma_zero_padded_five(dx);
    lemma_zero_padded_five(dy);
    let px = code_points(zero_padded(dx, 5));
    let py = code_points(zero_padded(dy, 5));
    lemma_lex_equal_length_heads(px, py, code_points(fe[i].1), code_points(fe[j].1));
    lemma_lex_common_prefix(code_points(head), px + code_points(fe[i].1), py + code_points(fe[j].1));
    assert(sort_key_of(x) =~= code_points(head) + (px + code_points(fe[i].1)));
    assert(sort_key_of(y) =~= code_points(head) + (py + code_points(fe[j].1)));
}

/// The word prefix is made of ASCII letters, ASCII digits and `_` only,
/// and the character before it, if any, is none of these.
pub proof fn law_word_prefix_characters(line: Seq<char>)
    ensures
        forall|i: int|
            0 <= i < word_prefix(line).len() ==> ({
                let c = #[trigger] word_prefix(line)[i];
                ('a' <= c && c <= 'z') || ('A' <= c && c <= 'Z') || ('0' <= c && c <= '9') || c
                    == '_'
            }),
        word_prefix(line).len() < line.len() ==> ({
            let c = line[line.len() - word_prefix(line).len() - 1];
            !(('a' <= c && c <= 'z') || ('A' <= c && c <= 'Z') || ('0' <= c && c <= '9') || c
                == '_')
        }),
        word_prefix(line) == line.skip(line.len() - word_prefix(line).len()),
{
    law_word_prefix_is_longest_word_suffix(line);
}

/// The path prefix is made of ASCII letters, ASCII digits and the
/// characters `_ / . ~ -` only, and the character before it, if any, is
/// none of these (so a quote or a space ends it).
pub proof fn law_path_prefix_characters(line: Seq<char>)
    ensures
        path_prefix(line).len() <= line.len(),
        path_prefix(line) == line.skip(line.len() - path_prefix(line).len()),
        forall|i: int|
            0 <= i < path_prefix(line).len() ==> ({
                let c = #[trigger] path_prefix(line)[i];
                ('a' <= c && c <= 'z') || ('A' <= c && c <= 'Z') || ('0' <= c && c <= '9') || c
                    == '_' || c == '/' || c == '.' || c == '~' || c == '-'
            }),
        path_prefix(line).len() < line.len() ==> ({
            let c = line[line.len() - path_prefix(line).len() - 1];
            !(('a' <= c && c <= 'z') || ('A' <= c && c <= 'Z') || ('0' <= c && c <= '9') || c
                == '_' || c == '/' || c == '.' || c == '~' || c == '-')
        }),
{
    lemma_trailing_path_chars(line);
    let k = trailing_path_chars(line);
    assert forall|i: int| 0 <= i < path_prefix(line).len() implies is_path_char(
        #[trigger] path_prefix(line)[i],
    ) by {
        assert(path_prefix(line)[i] == line[line.len() - k + i]);
    }
}

/// The words of a line are made of ASCII letters, ASCII digits and `_`
/// only, and each has at least two characters.
pub proof fn law_words_characters(line: Seq<char>)
    ensures
        forall|w: int|
            0 <= w < words(line).len() ==> (#[trigger] words(line)[w]).len() >= 2 && forall|i: int|
                0 <= i < words(line)[w].len() ==> ({
                    let c = #[trigger] words(line)[w][i];
                    ('a' <= c && c <= 'z') || ('A' <= c && c <= 'Z') || ('0' <= c && c <= '9')
                        || c == '_'
                }),
    decreases line.len(),
{
    if line.len() > 0 {
        if !is_word_char(line[0]) {
            law_words_characters(line.drop_first());
            assert(words(line) == words(line.drop_first()));
        } else {
            lemma_leading_word_chars_bound(line);
            lemma_leading_word_chars_all(line);
            let k = leading_word_chars(line);
            law_words_characters(line.skip(k as int));
            if k < 2 {
                assert(words(line) == words(line.skip(k as int)));
            }
            if k >= 2 {
                let ws = words(line);
                assert(ws == seq![line.take(k as int)] + words(line.skip(k as int)));
                assert forall|w: int| 0 <= w < ws.len() implies (#[trigger] ws[w]).len() >= 2
                    && forall|i: int|
                    0 <= i < ws[w].len() ==> ({
                        let c = #[trigger] ws[w][i];
                        ('a' <= c && c <= 'z') || ('A' <= c && c <= 'Z') || ('0' <= c && c <= '9')
                            || c == '_'
                    }) by {
                    if w > 0 {
                        assert(ws[w] == words(line.skip(k as int))[w - 1]);
                    } else {
                        assert forall|i: int| 0 <= i < ws[w].len() implies is_word_char(
                            #[trigger] ws[w][i],
                        ) by {
                            assert(ws[w][i] == line[i]);
                        }
                    }
                }
            }
        }
    }
}

proof fn lemma_leading_word_chars_all(s: Seq<char>)
    ensures
        forall|i: int| 0 <= i < leading_word_chars(s) ==> is_word_char(#[trigger] s[i]),
    decreases s.len(),
{
    if s.len() > 0 && is_word_char(s[0]) {
        lemma_leading_word_chars_all(s.drop_first());
        lemma_leading_word_chars_bound(s.drop_first());
        assert forall|i: int| 0 <= i < leading_word_chars(s) implies is_word_char(#[trigger] s[i]) by {
            if i > 0 {
                assert(s[i] == s.drop_first()[i - 1]);
            }
        }
    }
}

/// The sort text of a buffer item is `7`, then the absolute difference
/// between the row where its word is first found and the cursor row,
/// zero-padded to five digits, then the word. The distance is the same
/// for rows above and below the cursor and is 0 only on the cursor row;
/// below 100000 it is written as exactly five digits.
pub proof fn law_buffer_sort_text_distance(
    lines: Seq<Seq<char>>,
    prefix: Seq<char>,
    current_row: nat,
    i: int,
)
    requires
        prefix.len() > 0,
        0 <= i < first_extensions(occurrences(lines), prefix).len(),
    ensures
        ({
            let o = first_extensions(occurrences(lines), prefix)[i];
            let item = buffer_items(lines, prefix, current_row)[i];
            &&& item.label == o.1
            &&& exists|d: nat|
                (o.0 == current_row + d || current_row == o.0 + d) && item.sort_text == Some(
                    seq!['7'] + zero_padded(d, 5) + o.1,
                ) && #[trigger] digits_value(zero_padded(d, 5)) == d
            &&& (o.0 == current_row <==> item.sort_text == Some(
                seq!['7', '0', '0', '0', '0', '0'] + o.1,
            ))
        }),
{
    let fe = first_extensions(occurrences(lines), prefix);
    let o = fe[i];
    let item = buffer_items(lines, prefix, current_row)[i];
    assert(item == buffer_item(o, current_row));
    let d = row_distance(o.0, current_row);
    crate::text::law_zero_padded_value(d, 5);
    let zeros = seq!['7', '0', '0', '0', '0', '0'] + o.1;
    crate::text::law_zero_padded_value(0, 5);
    if o.0 == current_row {
        lemma_zero_padded_five(0);
        assert(digit_char(0) == '0');
        assert(seq!['7'] + zero_padded(0, 5) + o.1 =~= zeros);
    } else {
        if item.sort_text == Some(zeros) {
            assert((seq!['7'] + zero_padded(d, 5) + o.1).subrange(1, 1 + zero_padded(d, 5).len() as int)
                =~= zero_padded(d, 5));
            assert(zeros.subrange(1, 6) =~= seq!['0', '0', '0', '0', '0']);
            assert(zero_padded(d, 5).len() >= 5);
            if zero_padded(d, 5).len() == 5 {
                assert(zero_padded(d, 5) =~= seq!['0', '0', '0', '0', '0']);
                lemma_zero_padded_five(0);
                assert(zero_padded(0, 5) =~= seq!['0', '0', '0', '0', '0']);
            } else {
                assert(zeros[6] == (seq!['7'] + zero_padded(d, 5) + o.1)[6]);
                assert(zero_padded(d, 5)[5] == zeros[6]);
            }
        }
    }
}

/// An entry is offered exactly when the typed name prefix is a prefix of
/// its name (a name equal to the prefix included) and it is not hidden
/// (a name starting with `.`) unless the prefix starts with `.`.
pub proof fn law_offered_entries_exact(entries: Seq<PathEntry>, name_prefix: Seq<char>)
    ensures
        forall|k: int|
            0 <= k < entries.len() && name_prefix.is_prefix_of((#[trigger] entries[k]).name@) && !(
            entries[k].name@.len() > 0 && entries[k].name@[0] == '.' && !(name_prefix.len() > 0
                && name_prefix[0] == '.')) ==> offered_entries(entries, name_prefix).contains(
                entries[k],
            ),
        forall|k: int|
            0 <= k < offered_entries(entries, name_prefix).len() ==> ({
                let e = #[trigger] offered_entries(entries, name_prefix)[k];
                &&& entries.contains(e)
                &&& name_prefix.is_prefix_of(e.name@)
                &&& !(e.name@.len() > 0 && e.name@[0] == '.' && !(name_prefix.len() > 0
                    && name_prefix[0] == '.'))
            }),
    decreases entries.len(),
{
    if entries.len() > 0 {
        let prev = entries.drop_last();
        law_offered_entries_exact(prev, name_prefix);
        let off = offered_entries(entries, name_prefix);
        let poff = offered_entries(prev, name_prefix);
        let last = entries.last();
        assert forall|k: int|
            0 <= k < entries.len() && name_prefix.is_prefix_of((#[trigger] entries[k]).name@) && !(
            entries[k].name@.len() > 0 && entries[k].name@[0] == '.' && !(name_prefix.len() > 0
                && name_prefix[0] == '.')) implies off.contains(entries[k]) by {
            if k < entries.len() - 1 {
                assert(entries[k] == prev[k]);
                assert(poff.contains(prev[k]));
                let j = choose|j: int| 0 <= j < poff.len() && poff[j] == prev[k];
                assert(off[j] == poff[j]);
            } else {
                assert(name_prefix.len() == 0 || (last.name@.len() >= name_prefix.len()
                    && last.name@.take(name_prefix.len() as int) =~= name_prefix));
                assert(entry_offered(last.name@, name_prefix));
                assert(off[poff.len() as int] == last);
            }
        }
        assert forall|k: int| 0 <= k < off.len() implies ({
            let e = #[trigger] off[k];
            &&& entries.contains(e)
            &&& name_prefix.is_prefix_of(e.name@)
            &&& !(e.name@.len() > 0 && e.name@[0] == '.' && !(name_prefix.len() > 0
                && name_prefix[0] == '.'))
        }) by {
            if k < poff.len() {
                assert(off[k] == poff[k]);
                let j = choose|j: int| 0 <= j < prev.len() && prev[j] == poff[k];
                assert(entries[j] == prev[j]);
            } else {
                assert(off[k] == last);
                assert(entries[entries.len() - 1] == last);
                assert(name_prefix.is_prefix_of(last.name@)) by {
                    if name_prefix.len() > 0 {
                        assert(last.name@.take(name_prefix.len() as int) == name_prefix);
                        assert(name_prefix =~= last.name@.subrange(0, name_prefix.len() as int));
                    }
                }
            }
        }
    }
}

proof fn lemma_extends_prefix_meaning(w: Seq<char>, prefix: Seq<char>)
    ensures
        extends_prefix(w, prefix) <==> (prefix.is_prefix_of(w) && w.len() > prefix.len()),
{
    if prefix.is_prefix_of(w) && w.len() > prefix.len() {
        assert(w.take(prefix.len() as int) =~= prefix);
    }
    if extends_prefix(w, prefix) {
        assert(prefix =~= w.subrange(0, prefix.len() as int));
    }
}

/// Buffer completions are exactly the words longer than the prefix that
/// start with it: every item's label starts with the prefix and is longer
/// than it, and every such word of the buffer is the label of an item.
pub proof fn law_buffer_items_start_with_prefix(
    lines: Seq<Seq<char>>,
    prefix: Seq<char>,
    current_row: nat,
)
    requires
        prefix.len() > 0,
    ensures
        forall|i: int|
            0 <= i < buffer_items(lines, prefix, current_row).len() ==> prefix.is_prefix_of(
                (#[trigger] buffer_items(lines, prefix, current_row)[i]).label,
            ) && buffer_items(lines, prefix, current_row)[i].label.len() > prefix.len(),
        forall|r: int, w: int|
            0 <= r < lines.len() && 0 <= w < words(lines[r]).len() && prefix.is_prefix_of(
                #[trigger] words(lines[r])[w],
            ) && words(lines[r])[w].len() > prefix.len() ==> exists|i: int|
                0 <= i < buffer_items(lines, prefix, current_row).len() && (#[trigger] buffer_items(
                    lines,
                    prefix,
                    current_row,
                )[i]).label == words(lines[r])[w],
{
    law_buffer_items_distinct_and_complete(lines, prefix, current_row);
    let items = buffer_items(lines, prefix, current_row);
    assert forall|i: int| 0 <= i < items.len() implies prefix.is_prefix_of(
        (#[trigger] items[i]).label,
    ) && items[i].label.len() > prefix.len() by {
        lemma_extends_prefix_meaning(items[i].label, prefix);
    }
    assert forall|r: int, w: int|
        0 <= r < lines.len() && 0 <= w < words(lines[r]).len() && prefix.is_prefix_of(
            #[trigger] words(lines[r])[w],
        ) && words(lines[r])[w].len() > prefix.len() implies exists|i: int|
        0 <= i < items.len() && (#[trigger] items[i]).label == words(lines[r])[w] by {
        lemma_extends_prefix_meaning(words(lines[r])[w], prefix);
    }
}

/// Path items list folders before files, and items of the same kind in
/// label order (by code point).
pub proof fn law_path_items_order(
    entries: Seq<PathEntry>,
    name_prefix: Seq<char>,
    res: Seq<CompletionItemView>,
    i: int,
    j: int,
)
    requires
        is_stable_sort_of(
            res,
            offered_entries(entries, name_prefix).map_values(|e: PathEntry| path_item(e)),
            offered_entries(entries, name_prefix).map_values(|e: PathEntry| path_key(path_item(e))),
        ),
        0 <= i < j < res.len(),
    ensures
        res[i].kind == CompletionKind::Folder || res[i].kind == CompletionKind::File,
        !(res[i].kind == CompletionKind::File && res[j].kind == CompletionKind::Folder),
        res[i].kind == res[j].kind ==> !lex_lt(code_points(res[j].label), code_points(res[i].label)),
{
    let off = offered_entries(entries, name_prefix);
    let orig = off.map_values(|e: PathEntry| path_item(e));
    let keys = off.map_values(|e: PathEntry| path_key(path_item(e)));
    let p = choose|p: Seq<int>|
        #![trigger crate::sorting::is_index_permutation(p, orig.len())]
        crate::sorting::is_index_permutation(p, orig.len()) && crate::sorting::is_stable_order(p, keys)
            && res.len() == orig.len() && forall|i: int| 0 <= i < res.len() ==> #[trigger] res[i]
            == orig[p[i]];
    assert(res[i] == orig[p[i]] && res[j] == orig[p[j]]);
    assert(crate::sorting::lex_le(keys[p[i]], keys[p[j]]));
    let a = res[i];
    let b = res[j];
    assert(keys[p[i]] == path_key(a));
    assert(keys[p[j]] == path_key(b));
    let fa: u32 = if a.kind == CompletionKind::Folder { 0 } else { 1 };
    let fb: u32 = if b.kind == CompletionKind::Folder { 0 } else { 1 };
    assert(path_key(a) =~= seq![fa] + code_points(a.label));
    assert(path_key(b) =~= seq![fb] + code_points(b.label));
    assert(path_key(a).drop_first() =~= code_points(a.label));
    assert(path_key(b).drop_first() =~= code_points(b.label));
    if a.kind == CompletionKind::File && b.kind == CompletionKind::Folder {
        assert(lex_lt(path_key(b), path_key(a)));
    }
    if a.kind == b.kind && lex_lt(code_points(b.label), code_points(a.label)) {
        assert(lex_lt(path_key(b), path_key(a)));
    }
}

proof fn lemma_leading_word_chars_stop(s: Seq<char>)
    ensures
        leading_word_chars(s) < s.len() ==> !is_word_char(s[leading_word_chars(s) as int]),
    decreases s.len(),
{
    if s.len() > 0 && is_word_char(s[0]) {
        lemma_leading_word_chars_stop(s.drop_first());
        if leading_word_chars(s) < s.len() {
            assert(s[leading_word_chars(s) as int] == s.drop_first()[leading_word_chars(s) - 1]);
        }
    }
}

/// Every word is found: each maximal run of at least two word characters
/// (ASCII letters, digits, `_`) of a line is one of its words.
pub proof fn law_every_run_is_a_word(s: Seq<char>, a: int, b: int)
    requires
        0 <= a,
        a + 2 <= b <= s.len(),
        forall|i: int| a <= i < b ==> is_word_char(#[trigger] s[i]),
        a == 0 || !is_word_char(s[a - 1]),
        b == s.len() || !is_word_char(s[b]),
    ensures
        words(s).contains(s.subrange(a, b)),
    decreases s.len(),
{
    if !is_word_char(s[0]) {
        assert(a > 0);
        assert forall|i: int| a - 1 <= i < b - 1 implies is_word_char(#[trigger] s.drop_first()[i]) by {
            assert(s.drop_first()[i] == s[i + 1]);
        }
        if a - 1 > 0 {
            assert(s.drop_first()[a - 2] == s[a - 1]);
        }
        if b - 1 < s.len() - 1 {
            assert(s.drop_first()[b - 1] == s[b]);
        }
        law_every_run_is_a_word(s.drop_first(), a - 1, b - 1);
        assert(s.drop_first().subrange(a - 1, b - 1) =~= s.subrange(a, b));
    } else {
        lemma_leading_word_chars_bound(s);
        lemma_leading_word_chars_all(s);
        lemma_leading_word_chars_stop(s);
        let k = leading_word_chars(s) as int;
        if a == 0 {
            if k < b {
                assert(is_word_char(s[k]));
            }
            if b < k {
                assert(is_word_char(s[b]));
            }
            assert(k == b);
            assert(s.take(k) =~= s.subrange(a, b));
            assert(words(s)[0] == s.take(k));
        } else {
            if a - 1 < k {
                assert(is_word_char(s[a - 1]));
            }
            let t = s.skip(k);
            assert forall|i: int| a - k <= i < b - k implies is_word_char(#[trigger] t[i]) by {
                assert(t[i] == s[i + k]);
            }
            if a - k > 0 {
                assert(t[a - k - 1] == s[a - 1]);
            }
            if b - k < t.len() {
                assert(t[b - k] == s[b]);
            }
            law_every_run_is_a_word(t, a - k, b - k);
            assert(t.subrange(a - k, b - k) =~= s.subrange(a, b));
            let w = words(t);
            let j = choose|j: int| 0 <= j < w.len() && w[j] == s.subrange(a, b);
            if k >= 2 {
                assert(words(s) == seq![s.take(k)] + w);
                assert(words(s)[j + 1] == w[j]);
            } else {
                assert(words(s) == w);
            }
        }
    }
}

} // verus!
