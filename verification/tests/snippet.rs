use hokan::snippet::{expand, tabstop_position};

#[test]
fn plain_text_no_tabstops() {
    let result = expand("hello world");
    assert_eq!(result.text, "hello world");
    assert!(result.tabstops.is_empty());
}

#[test]
fn single_bare_tabstop() {
    let result = expand("hello $1 world");
    assert_eq!(result.text, "hello  world");
    assert_eq!(result.tabstops.len(), 1);
    assert_eq!(result.tabstops[0].number, 1);
    assert_eq!(result.tabstops[0].offset, 6);
    assert_eq!(result.tabstops[0].len, 0);
}

#[test]
fn multiple_bare_tabstops() {
    let result = expand("$1 + $2 = $3");
    assert_eq!(result.text, " +  = ");
    assert_eq!(result.tabstops.len(), 3);
    assert_eq!(result.tabstops[0].number, 1);
    assert_eq!(result.tabstops[1].number, 2);
    assert_eq!(result.tabstops[2].number, 3);
}

#[test]
fn tabstop_with_default() {
    let result = expand("fn ${1:name}() {}");
    assert_eq!(result.text, "fn name() {}");
    assert_eq!(result.tabstops.len(), 1);
    assert_eq!(result.tabstops[0].number, 1);
    assert_eq!(result.tabstops[0].default_text, "name");
    assert_eq!(result.tabstops[0].offset, 3);
    assert_eq!(result.tabstops[0].len, 4);
}

#[test]
fn zero_tabstop_sorts_last() {
    let result = expand("$0 $2 $1");
    assert_eq!(result.tabstops.len(), 3);
    assert_eq!(result.tabstops[0].number, 1);
    assert_eq!(result.tabstops[1].number, 2);
    assert_eq!(result.tabstops[2].number, 0); // $0 last
}

#[test]
fn escaped_dollar() {
    let result = expand("costs $$5");
    assert_eq!(result.text, "costs $5");
    assert!(result.tabstops.is_empty());
}

#[test]
fn braced_tabstop_no_default() {
    let result = expand("hello ${1} world");
    assert_eq!(result.text, "hello  world");
    assert_eq!(result.tabstops.len(), 1);
    assert_eq!(result.tabstops[0].number, 1);
    assert_eq!(result.tabstops[0].offset, 6);
}

#[test]
fn mixed_tabstops_and_defaults() {
    let result = expand("fn ${1:name}($2) {\n    $0\n}");
    assert_eq!(result.text, "fn name() {\n    \n}");
    assert_eq!(result.tabstops.len(), 3);
    // Sorted: $1, $2, $0
    assert_eq!(result.tabstops[0].number, 1);
    assert_eq!(result.tabstops[0].default_text, "name");
    assert_eq!(result.tabstops[1].number, 2);
    assert_eq!(result.tabstops[2].number, 0);
}

#[test]
fn tabstop_position_returns_correct_values() {
    let result = expand("fn ${1:name}() {}");
    let pos = tabstop_position(&result, 0);
    assert_eq!(pos, Some((3, 4))); // "name" starts at offset 3, len 4
}

#[test]
fn tabstop_position_out_of_bounds() {
    let result = expand("hello $1");
    assert_eq!(tabstop_position(&result, 5), None);
}

#[test]
fn empty_template() {
    let result = expand("");
    assert_eq!(result.text, "");
    assert!(result.tabstops.is_empty());
}

#[test]
fn lone_dollar_at_end() {
    let result = expand("hello$");
    assert_eq!(result.text, "hello$");
    assert!(result.tabstops.is_empty());
}

#[test]
fn dollar_before_non_digit() {
    let result = expand("$a $b");
    assert_eq!(result.text, "$a $b");
    assert!(result.tabstops.is_empty());
}

#[test]
fn multi_digit_tabstop() {
    let result = expand("$10 $11");
    assert_eq!(result.tabstops.len(), 2);
    assert_eq!(result.tabstops[0].number, 10);
    assert_eq!(result.tabstops[1].number, 11);
}

#[test]
fn default_with_spaces() {
    let result = expand("${1:hello world}");
    assert_eq!(result.text, "hello world");
    assert_eq!(result.tabstops[0].default_text, "hello world");
    assert_eq!(result.tabstops[0].len, 11);
}

#[test]
fn empty_default() {
    let result = expand("${1:}");
    assert_eq!(result.text, "");
    assert_eq!(result.tabstops[0].default_text, "");
    assert_eq!(result.tabstops[0].len, 0);
}

#[test]
fn malformed_brace_passthrough() {
    // ${abc} — no number
    let result = expand("${abc}");
    assert_eq!(result.text, "${abc}");
    assert!(result.tabstops.is_empty());
}

#[test]
fn unclosed_brace_passthrough() {
    let result = expand("${1:hello");
    assert_eq!(result.text, "${1:hello");
    assert!(result.tabstops.is_empty());
}

#[test]
fn consecutive_tabstops() {
    let result = expand("$1$2$3");
    assert_eq!(result.text, "");
    assert_eq!(result.tabstops.len(), 3);
    // All at offset 0 since no text between them
    assert_eq!(result.tabstops[0].offset, 0);
    assert_eq!(result.tabstops[1].offset, 0);
    assert_eq!(result.tabstops[2].offset, 0);
}

#[test]
fn realistic_rust_snippet() {
    let template = "impl ${1:Trait} for ${2:Type} {\n    $0\n}";
    let result = expand(template);
    assert_eq!(result.text, "impl Trait for Type {\n    \n}");
    assert_eq!(result.tabstops.len(), 3);
    assert_eq!(result.tabstops[0].number, 1);
    assert_eq!(result.tabstops[0].default_text, "Trait");
    assert_eq!(result.tabstops[1].number, 2);
    assert_eq!(result.tabstops[1].default_text, "Type");
    assert_eq!(result.tabstops[2].number, 0);
}

#[test]
fn println_snippet() {
    let template = "println!(\"${1:{}}\", $2);$0";
    let result = expand(template);
    assert_eq!(result.text, "println!(\"{}\", );");
    assert_eq!(result.tabstops.len(), 3);
}
