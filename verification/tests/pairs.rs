use hokan::pairs::{default_pairs, on_backspace, on_char_typed, BackspaceAction, PairAction};

// ---- InsertPair tests ----

#[test]
fn open_paren_inserts_pair() {
    let action = on_char_typed(None, None, '(', &default_pairs());
    assert_eq!(
        action,
        PairAction::InsertPair {
            open: '(',
            close: ')'
        }
    );
}

#[test]
fn open_bracket_inserts_pair() {
    let action = on_char_typed(None, None, '[', &default_pairs());
    assert_eq!(
        action,
        PairAction::InsertPair {
            open: '[',
            close: ']'
        }
    );
}

#[test]
fn open_brace_inserts_pair() {
    let action = on_char_typed(None, None, '{', &default_pairs());
    assert_eq!(
        action,
        PairAction::InsertPair {
            open: '{',
            close: '}'
        }
    );
}

#[test]
fn double_quote_inserts_pair() {
    let action = on_char_typed(None, None, '"', &default_pairs());
    assert_eq!(
        action,
        PairAction::InsertPair {
            open: '"',
            close: '"'
        }
    );
}

#[test]
fn single_quote_inserts_pair() {
    let action = on_char_typed(None, None, '\'', &default_pairs());
    assert_eq!(
        action,
        PairAction::InsertPair {
            open: '\'',
            close: '\''
        }
    );
}

#[test]
fn backtick_inserts_pair() {
    let action = on_char_typed(None, None, '`', &default_pairs());
    assert_eq!(
        action,
        PairAction::InsertPair {
            open: '`',
            close: '`'
        }
    );
}

// ---- SkipClose tests ----

#[test]
fn close_paren_skips_when_after_cursor() {
    let action = on_char_typed(Some('x'), Some(')'), ')', &default_pairs());
    assert_eq!(action, PairAction::SkipClose { close: ')' });
}

#[test]
fn close_bracket_skips() {
    let action = on_char_typed(Some('x'), Some(']'), ']', &default_pairs());
    assert_eq!(action, PairAction::SkipClose { close: ']' });
}

#[test]
fn close_brace_skips() {
    let action = on_char_typed(Some('x'), Some('}'), '}', &default_pairs());
    assert_eq!(action, PairAction::SkipClose { close: '}' });
}

#[test]
fn quote_skips_when_after_cursor() {
    // Typing " when " is already the next char => skip
    let action = on_char_typed(Some('x'), Some('"'), '"', &default_pairs());
    assert_eq!(action, PairAction::SkipClose { close: '"' });
}

// ---- Passthrough tests ----

#[test]
fn regular_char_is_passthrough() {
    let action = on_char_typed(None, None, 'a', &default_pairs());
    assert_eq!(action, PairAction::Passthrough);
}

#[test]
fn quote_after_alphanumeric_is_passthrough() {
    // e.g., typing ' in "it's" -> don't auto-pair
    let action = on_char_typed(Some('t'), None, '\'', &default_pairs());
    assert_eq!(action, PairAction::Passthrough);
}

#[test]
fn quote_after_underscore_is_passthrough() {
    let action = on_char_typed(Some('_'), None, '"', &default_pairs());
    assert_eq!(action, PairAction::Passthrough);
}

#[test]
fn open_paren_before_alphanumeric_is_passthrough() {
    // Don't auto-pair if the next char is a letter (completing into word)
    let action = on_char_typed(None, Some('a'), '(', &default_pairs());
    assert_eq!(action, PairAction::Passthrough);
}

#[test]
fn open_paren_before_space_inserts_pair() {
    let action = on_char_typed(Some('f'), Some(' '), '(', &default_pairs());
    assert_eq!(
        action,
        PairAction::InsertPair {
            open: '(',
            close: ')'
        }
    );
}

// ---- Backspace tests ----

#[test]
fn backspace_deletes_pair() {
    let action = on_backspace(Some('('), Some(')'), &default_pairs());
    assert_eq!(action, BackspaceAction::DeletePair);
}

#[test]
fn backspace_deletes_bracket_pair() {
    let action = on_backspace(Some('['), Some(']'), &default_pairs());
    assert_eq!(action, BackspaceAction::DeletePair);
}

#[test]
fn backspace_deletes_brace_pair() {
    let action = on_backspace(Some('{'), Some('}'), &default_pairs());
    assert_eq!(action, BackspaceAction::DeletePair);
}

#[test]
fn backspace_deletes_quote_pair() {
    let action = on_backspace(Some('"'), Some('"'), &default_pairs());
    assert_eq!(action, BackspaceAction::DeletePair);
}

#[test]
fn backspace_normal_when_no_pair() {
    let action = on_backspace(Some('a'), Some('b'), &default_pairs());
    assert_eq!(action, BackspaceAction::Normal);
}

#[test]
fn backspace_normal_at_line_start() {
    let action = on_backspace(None, Some(')'), &default_pairs());
    assert_eq!(action, BackspaceAction::Normal);
}

#[test]
fn backspace_normal_at_line_end() {
    let action = on_backspace(Some('('), None, &default_pairs());
    assert_eq!(action, BackspaceAction::Normal);
}

#[test]
fn backspace_mismatched_pair_is_normal() {
    let action = on_backspace(Some('('), Some(']'), &default_pairs());
    assert_eq!(action, BackspaceAction::Normal);
}

// ---- Edge cases ----

#[test]
fn empty_pairs_always_passthrough() {
    let action = on_char_typed(None, None, '(', &[]);
    assert_eq!(action, PairAction::Passthrough);
}

#[test]
fn empty_pairs_backspace_always_normal() {
    let action = on_backspace(Some('('), Some(')'), &[]);
    assert_eq!(action, BackspaceAction::Normal);
}

#[test]
fn open_brace_at_end_of_line() {
    let action = on_char_typed(Some(' '), None, '{', &default_pairs());
    assert_eq!(
        action,
        PairAction::InsertPair {
            open: '{',
            close: '}'
        }
    );
}

#[test]
fn quote_at_line_start() {
    let action = on_char_typed(None, Some(' '), '"', &default_pairs());
    assert_eq!(
        action,
        PairAction::InsertPair {
            open: '"',
            close: '"'
        }
    );
}

#[test]
fn paren_before_closing_bracket_inserts_pair() {
    // e.g., fn(|) where | is cursor, typing ( before )
    let action = on_char_typed(Some('n'), Some(')'), '(', &default_pairs());
    assert_eq!(
        action,
        PairAction::InsertPair {
            open: '(',
            close: ')'
        }
    );
}
