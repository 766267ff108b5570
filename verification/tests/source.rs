use hokan::item::CompletionSource;
use hokan::source::{buffer_completions, extract_words, CompletionContext};

#[test]
fn extract_prefix_simple() {
    assert_eq!(CompletionContext::extract_prefix("hello wor"), "wor");
}

#[test]
fn extract_prefix_with_underscore() {
    assert_eq!(CompletionContext::extract_prefix("my_var"), "my_var");
}

#[test]
fn extract_prefix_empty_line() {
    assert_eq!(CompletionContext::extract_prefix(""), "");
}

#[test]
fn extract_prefix_after_paren() {
    assert_eq!(CompletionContext::extract_prefix("foo(bar"), "bar");
}

#[test]
fn extract_prefix_all_word() {
    assert_eq!(CompletionContext::extract_prefix("hello"), "hello");
}

#[test]
fn extract_path_prefix_relative() {
    assert_eq!(
        CompletionContext::extract_path_prefix("open ./src/ma"),
        "./src/ma"
    );
}

#[test]
fn extract_path_prefix_absolute() {
    assert_eq!(
        CompletionContext::extract_path_prefix("cat /etc/hos"),
        "/etc/hos"
    );
}

#[test]
fn extract_path_prefix_tilde() {
    assert_eq!(
        CompletionContext::extract_path_prefix("cd ~/cod"),
        "~/cod"
    );
}

#[test]
fn extract_words_basic() {
    let words = extract_words("hello world foo_bar");
    assert_eq!(words, vec!["hello", "world", "foo_bar"]);
}

#[test]
fn extract_words_with_punctuation() {
    let words = extract_words("fn main() { let x = 42; }");
    assert_eq!(words, vec!["fn", "main", "let", "42"]);
}

#[test]
fn extract_words_skips_single_chars() {
    let words = extract_words("a b cd ef");
    assert_eq!(words, vec!["cd", "ef"]);
}

#[test]
fn buffer_completions_basic() {
    let lines = vec![
        "fn hello_world() {".to_string(),
        "    let hello_there = 1;".to_string(),
        "    hel".to_string(),
    ];
    let items = buffer_completions(&lines, "hel", 2);
    let labels: Vec<&str> = items.iter().map(|i| i.label.as_str()).collect();
    assert!(labels.contains(&"hello_world"));
    assert!(labels.contains(&"hello_there"));
}

#[test]
fn buffer_completions_no_self_match() {
    // The prefix itself should not appear (word must be longer than prefix).
    let lines = vec!["foo foobar".to_string()];
    let items = buffer_completions(&lines, "foo", 0);
    let labels: Vec<&str> = items.iter().map(|i| i.label.as_str()).collect();
    assert!(labels.contains(&"foobar"));
    assert!(!labels.contains(&"foo"));
}

#[test]
fn buffer_completions_deduplicates() {
    let lines = vec![
        "hello hello hello".to_string(),
        "hello_world".to_string(),
    ];
    let items = buffer_completions(&lines, "hel", 0);
    // "hello" appears once, "hello_world" once
    let labels: Vec<&str> = items.iter().map(|i| i.label.as_str()).collect();
    assert_eq!(labels.iter().filter(|l| **l == "hello").count(), 1);
}

#[test]
fn buffer_completions_empty_prefix() {
    let lines = vec!["hello world".to_string()];
    let items = buffer_completions(&lines, "", 0);
    assert!(items.is_empty());
}

#[test]
fn buffer_completions_prefers_nearby_lines() {
    let lines: Vec<String> = (0..100)
        .map(|i| format!("hello_{i}"))
        .collect();
    let items = buffer_completions(&lines, "hello", 50);
    // Items from row 50 should sort before items from row 0 or 99
    assert!(!items.is_empty());
    // All items should have source Buffer
    for item in &items {
        assert_eq!(item.source, CompletionSource::Buffer);
    }
}
