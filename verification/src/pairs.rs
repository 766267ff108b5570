//! Auto-pair logic for brackets and quotes.
//!
//! Decides what text transformation to apply when the user types an opening
//! bracket, a closing bracket, a quote, or backspace. All functions are
//! side-effect free.

use vstd::prelude::*;

use crate::text::{alphanumeric, is_alphanumeric, is_alphanumeric_char};

verus! {

/// A paired delimiter definition.
#[derive(Debug, Clone, Copy, PartialEq, Eq, Structural)]
pub struct Pair {
    pub open: char,
    pub close: char,
}

/// The default set of auto-pairs: `()`, `[]`, `{}`, `""`, `''` and backticks.
pub open spec fn default_pairs_spec() -> Seq<Pair> {
    seq![
        Pair { open: '(', close: ')' },
        Pair { open: '[', close: ']' },
        Pair { open: '{', close: '}' },
        Pair { open: '"', close: '"' },
        Pair { open: '\'', close: '\'' },
        Pair { open: '`', close: '`' },
    ]
}

/// The default set of auto-pairs.
pub fn default_pairs() -> (r: Vec<Pair>)
    ensures
        r@ == default_pairs_spec(),
{
    vec![
        Pair { open: '(', close: ')' },
        Pair { open: '[', close: ']' },
        Pair { open: '{', close: '}' },
        Pair { open: '"', close: '"' },
        Pair { open: '\'', close: '\'' },
        Pair { open: '`', close: '`' },
    ]
}

/// What action to take after typing a character.
#[derive(Debug, Clone, PartialEq, Eq, Structural)]
pub enum PairAction {
    /// Insert both the open and close character, cursor between them.
    InsertPair { open: char, close: char },
    /// Skip over an existing closing character (cursor moves right).
    SkipClose { close: char },
    /// Just insert the character as-is (no pair action).
    Passthrough,
}

/// What action to take on backspace.
#[derive(Debug, Clone, PartialEq, Eq, Structural)]
pub enum BackspaceAction {
    /// Delete both the opening and closing character of a pair.
    DeletePair,
    /// Normal single-character backspace.
    Normal,
}

/// The first pair in `pairs` whose opening character is `ch`.
pub open spec fn pair_opened_by(pairs: Seq<Pair>, ch: char) -> Option<Pair>
    decreases pairs.len(),
{
    if pairs.len() == 0 {
        None
    } else if pairs[0].open == ch {
        Some(pairs[0])
    } else {
        pair_opened_by(pairs.drop_first(), ch)
    }
}

/// Whether `ch` closes some pair in `pairs`.
pub open spec fn closes_some_pair(pairs: Seq<Pair>, ch: char) -> bool {
    exists|i: int| 0 <= i < pairs.len() && (#[trigger] pairs[i]).close == ch
}

/// Whether `(open, close)` is one of `pairs`.
pub open spec fn is_listed_pair(pairs: Seq<Pair>, open: char, close: char) -> bool {
    exists|i: int| 0 <= i < pairs.len() && (#[trigger] pairs[i]).open == open && pairs[i].close == close
}

/// A character that continues a word: alphanumeric or `_`.
pub open spec fn continues_word(c: char) -> bool {
    is_alphanumeric_char(c) || c == '_'
}

/// Whether an optional neighbouring character continues a word.
pub open spec fn neighbour_continues_word(c: Option<char>) -> bool {
    match c {
        Some(c) => continues_word(c),
        None => false,
    }
}

/// The action for typing `typed` between `before` and `after`.
///
/// A closing character that is already right after the cursor is skipped.
/// An opening character inserts its pair, unless the next character
/// continues a word, or the pair is quote-like (open == close) and the
/// previous character continues a word. Anything else passes through.
pub open spec fn typed_action(
    before: Option<char>,
    after: Option<char>,
    typed: char,
    pairs: Seq<Pair>,
) -> PairAction {
    if after == Some(typed) && closes_some_pair(pairs, typed) {
        PairAction::SkipClose { close: typed }
    } else {
        match pair_opened_by(pairs, typed) {
            Some(p) => {
                if p.open == p.close && neighbour_continues_word(before) {
                    PairAction::Passthrough
                } else if neighbour_continues_word(after) {
                    PairAction::Passthrough
                } else {
                    PairAction::InsertPair { open: p.open, close: p.close }
                }
            },
            None => PairAction::Passthrough,
        }
    }
}

/// The action for backspace between `before` and `after`: the pair is
/// deleted exactly when both characters exist and form one of `pairs`.
pub open spec fn backspace_action(
    before: Option<char>,
    after: Option<char>,
    pairs: Seq<Pair>,
) -> BackspaceAction {
    match (before, after) {
        (Some(b), Some(a)) => if is_listed_pair(pairs, b, a) {
            BackspaceAction::DeletePair
        } else {
            BackspaceAction::Normal
        },
        _ => BackspaceAction::Normal,
    }
}

/// Whether an optional character continues a word.
fn neighbour_is_word(c: Option<char>) -> (r: bool)
    ensures
        r == neighbour_continues_word(c),
{
    match c {
        Some(c) => is_alphanumeric(c) || c == '_',
        None => false,
    }
}

/// Determine the action for a typed character given surrounding context.
///
/// `char_before`: the character immediately before the cursor (None at line start).
/// `char_after`: the character immediately after the cursor (None at line end).
/// `typed`: the character being typed.
pub fn on_char_typed(
    char_before: Option<char>,
    char_after: Option<char>,
    typed: char,
    pairs: &[Pair],
) -> (r: PairAction)
    ensures
        r == typed_action(char_before, char_after, typed, pairs@),
{
    if let Some(after) = char_after {
        if typed == after && is_close_char(typed, pairs) {
            return PairAction::SkipClose { close: typed };
        }
    }
    if let Some(pair) = find_pair_by_open(typed, pairs) {
        if pair.open == pair.close {
            if neighbour_is_word(char_before) {
                return PairAction::Passthrough;
            }
        }
        if neighbour_is_word(char_after) {
            return PairAction::Passthrough;
        }
        return PairAction::InsertPair { open: pair.open, close: pair.close };
    }
    PairAction::Passthrough
}

/// Determine the backspace action given the characters around the cursor.
pub fn on_backspace(char_before: Option<char>, char_after: Option<char>, pairs: &[Pair]) -> (r:
    BackspaceAction)
    ensures
        r == backspace_action(char_before, char_after, pairs@),
{
    match (char_before, char_after) {
        (Some(before), Some(after)) => {
            let mut i: usize = 0;
            while i < pairs.len()
                invariant
                    i <= pairs@.len(),
                    char_before == Some(before),
                    char_after == Some(after),
                    forall|k: int| 0 <= k < i ==> !((#[trigger] pairs@[k]).open == before
                        && pairs@[k].close == after),
                decreases pairs.len() - i,
            {
                if pairs[i].open == before && pairs[i].close == after {
                    assert(pairs@[i as int].open == before && pairs@[i as int].close == after);
                    assert(is_listed_pair(pairs@, before, after));
                    return BackspaceAction::DeletePair;
                }
                i = i + 1;
            }
            BackspaceAction::Normal
        },
        _ => BackspaceAction::Normal,
    }
}

/// Find a pair definition by its opening character.
fn find_pair_by_open(ch: char, pairs: &[Pair]) -> (r: Option<Pair>)
    ensures
        r == pair_opened_by(pairs@, ch),
{
    let mut i: usize = 0;
    assert(pairs@.skip(0) =~= pairs@);
    while i < pairs.len()
        invariant
            i <= pairs@.len(),
            pair_opened_by(pairs@, ch) == pair_opened_by(pairs@.skip(i as int), ch),
        decreases pairs.len() - i,
    {
        if pairs[i].open == ch {
            return Some(pairs[i]);
        }
        assert(pairs@.skip(i as int).drop_first() =~= pairs@.skip(i + 1));
        i = i + 1;
    }
    None
}

/// Check if a character is a closing character in any pair.
fn is_close_char(ch: char, pairs: &[Pair]) -> (r: bool)
    ensures
        r == closes_some_pair(pairs@, ch),
{
    let mut i: usize = 0;
    while i < pairs.len()
        invariant
            i <= pairs@.len(),
            forall|k: int| 0 <= k < i ==> (#[trigger] pairs@[k]).close != ch,
        decreases pairs.len() - i,
    {
        if pairs[i].close == ch {
            return true;
        }
        i = i + 1;
    }
    false
}

/// A pair found by its opening character is one of the listed pairs.
proof fn lemma_opened_pair_is_listed(pairs: Seq<Pair>, ch: char)
    requires
        pair_opened_by(pairs, ch) is Some,
    ensures
        pair_opened_by(pairs, ch)->0.open == ch,
        is_listed_pair(pairs, ch, pair_opened_by(pairs, ch)->0.close),
    decreases pairs.len(),
{
    if pairs[0].open != ch {
        lemma_opened_pair_is_listed(pairs.drop_first(), ch);
        let i = choose|i: int|
            0 <= i < pairs.drop_first().len() && (#[trigger] pairs.drop_first()[i]).open == ch
                && pairs.drop_first()[i].close == pair_opened_by(pairs, ch)->0.close;
        assert(pairs[i + 1] == pairs.drop_first()[i]);
    } else {
        assert(pairs[0].open == ch);
    }
}

/// Backspace right after an auto-inserted pair deletes that pair again:
/// whenever typing a character inserts a pair, backspace between the two
/// inserted characters deletes both.
pub proof fn law_backspace_undoes_insert_pair(
    before: Option<char>,
    after: Option<char>,
    typed: char,
    pairs: Seq<Pair>,
)
    requires
        typed_action(before, after, typed, pairs) is InsertPair,
    ensures
        ({
            let a = typed_action(before, after, typed, pairs);
            &&& a->InsertPair_open == typed
            &&& backspace_action(Some(a->InsertPair_open), Some(a->InsertPair_close), pairs)
                == BackspaceAction::DeletePair
        }),
{
    lemma_opened_pair_is_listed(pairs, typed);
}

/// With no pairs configured, typing never pairs and backspace is always normal.
pub proof fn law_no_pairs_no_action(before: Option<char>, after: Option<char>, typed: char)
    ensures
        typed_action(before, after, typed, Seq::<Pair>::empty()) == PairAction::Passthrough,
        backspace_action(before, after, Seq::<Pair>::empty()) == BackspaceAction::Normal,
{
}

/// Skipping happens only over the character typed, and only when it is the
/// character right after the cursor and closes some pair.
pub proof fn law_skip_only_over_typed_close(
    before: Option<char>,
    after: Option<char>,
    typed: char,
    pairs: Seq<Pair>,
)
    ensures
        typed_action(before, after, typed, pairs) is SkipClose <==> (after == Some(typed)
            && closes_some_pair(pairs, typed)),
        typed_action(before, after, typed, pairs) is SkipClose ==> typed_action(
            before,
            after,
            typed,
            pairs,
        )->SkipClose_close == typed,
{
}

/// A character that a word may contain, as the typing rules see it: an
/// ASCII letter or digit, `_`, or a non-ASCII character that
/// `char::is_alphanumeric` accepts.
pub open spec fn word_like(c: char) -> bool {
    ('a' <= c && c <= 'z') || ('A' <= c && c <= 'Z') || ('0' <= c && c <= '9') || c == '_' || (
    (c as u32) >= 128 && alphanumeric(c))
}

/// No pair is inserted right in front of a word: when the character after
/// the cursor is word-like (digits included), typing never inserts a pair.
pub proof fn law_no_pair_before_word(before: Option<char>, c: char, typed: char, pairs: Seq<Pair>)
    requires
        word_like(c),
    ensures
        !(typed_action(before, Some(c), typed, pairs) is InsertPair),
{
}

/// A quote-like opener (every pair it opens closes with the same
/// character) is not paired right after a word-like character.
pub proof fn law_no_quote_pair_after_word(
    b: char,
    after: Option<char>,
    typed: char,
    pairs: Seq<Pair>,
)
    requires
        word_like(b),
        forall|i: int| 0 <= i < pairs.len() && (#[trigger] pairs[i]).open == typed ==> pairs[i].close
            == typed,
    ensures
        !(typed_action(Some(b), after, typed, pairs) is InsertPair),
{
    if pair_opened_by(pairs, typed) is Some {
        lemma_opened_pair_is_listed(pairs, typed);
        let p = pair_opened_by(pairs, typed)->0;
        let i = choose|i: int|
            0 <= i < pairs.len() && (#[trigger] pairs[i]).open == typed && pairs[i].close
                == p.close;
        assert(pairs[i].open == typed);
    }
}

/// Typing the opener of a listed pair at the start of a line, with the
/// line ending or a character that is not word-like after the cursor,
/// inserts a pair opened by the typed character, unless the typed
/// character is the one right after the cursor and closes some pair.
pub proof fn law_pair_inserted_in_open_space(
    after: Option<char>,
    typed: char,
    pairs: Seq<Pair>,
    k: int,
)
    requires
        0 <= k < pairs.len(),
        pairs[k].open == typed,
        match after {
            Some(c) => (c as u32) < 128 && !word_like(c) && !(c == typed && closes_some_pair(
                pairs,
                typed,
            )),
            None => true,
        },
    ensures
        typed_action(None, after, typed, pairs) is InsertPair,
        typed_action(None, after, typed, pairs)->InsertPair_open == typed,
        is_listed_pair(
            pairs,
            typed,
            typed_action(None, after, typed, pairs)->InsertPair_close,
        ),
{
    lemma_pair_opened_exists(pairs, typed, k);
    lemma_opened_pair_is_listed(pairs, typed);
}

proof fn lemma_pair_opened_exists(pairs: Seq<Pair>, ch: char, k: int)
    requires
        0 <= k < pairs.len(),
        pairs[k].open == ch,
    ensures
        pair_opened_by(pairs, ch) is Some,
    decreases pairs.len(),
{
    if pairs[0].open != ch {
        assert(pairs.drop_first()[k - 1] == pairs[k]);
        lemma_pair_opened_exists(pairs.drop_first(), ch, k - 1);
    }
}

/// Backspace deletes a pair exactly when there is a character on each side
/// of the cursor and some listed pair opens with the one before and closes
/// with the one after; otherwise it is a normal backspace.
pub proof fn law_backspace_deletes_only_listed_pairs(
    before: Option<char>,
    after: Option<char>,
    pairs: Seq<Pair>,
)
    ensures
        backspace_action(before, after, pairs) == BackspaceAction::DeletePair <==> (before is Some
            && after is Some && exists|i: int|
            0 <= i < pairs.len() && (#[trigger] pairs[i]).open == before->0 && pairs[i].close
                == after->0),
        backspace_action(before, after, pairs) != BackspaceAction::DeletePair ==> backspace_action(
            before,
            after,
            pairs,
        ) == BackspaceAction::Normal,
{
}

/// Typing skips over the next character exactly when it is the typed
/// character and some listed pair closes with it; the skipped character is
/// the typed one.
pub proof fn law_skip_exactly_over_listed_close(
    before: Option<char>,
    after: Option<char>,
    typed: char,
    pairs: Seq<Pair>,
)
    ensures
        typed_action(before, after, typed, pairs) is SkipClose <==> (after == Some(typed)
            && exists|i: int| 0 <= i < pairs.len() && (#[trigger] pairs[i]).close == typed),
        typed_action(before, after, typed, pairs) is SkipClose ==> typed_action(
            before,
            after,
            typed,
            pairs,
        ) == (PairAction::SkipClose { close: typed }),
        !(exists|i: int| 0 <= i < pairs.len() && (#[trigger] pairs[i]).open == typed) && !(
        typed_action(before, after, typed, pairs) is SkipClose) ==> typed_action(
            before,
            after,
            typed,
            pairs,
        ) == PairAction::Passthrough,
{
    if !(exists|i: int| 0 <= i < pairs.len() && (#[trigger] pairs[i]).open == typed) {
        if pair_opened_by(pairs, typed) is Some {
            lemma_opened_pair_is_listed(pairs, typed);
        }
    }
}

} // verus!
