use gha_main::encode::{encode_block, encode_record, encode_single_line, render_block, render_record, contains_line_break};
use std::collections::HashSet;

fn is_hyphenated_uuid(d: &str) -> bool {
    d.len() == 36
        && d.chars().enumerate().all(|(i, c)| {
            if i == 8 || i == 13 || i == 18 || i == 23 {
                c == '-'
            } else {
                c.is_ascii_digit() || ('a'..='f').contains(&c)
            }
        })
}

/// Splits a block record into its name, delimiter and value by stripping the
/// header and footer lines.
fn split_block(record: &str) -> (String, String, String) {
    let body = record.strip_suffix('\n').unwrap();
    let (header, rest) = body.split_once('\n').unwrap();
    let (value, footer) = rest.rsplit_once('\n').unwrap();
    let (name, delimiter) = header.split_once("<<").unwrap();
    assert_eq!(footer, delimiter);
    (name.to_string(), delimiter.to_string(), value.to_string())
}

#[test]
fn line_breaks_are_found() {
    assert!(!contains_line_break(""));
    assert!(!contains_line_break("a=b<<c"));
    assert!(contains_line_break("a\nb"));
    assert!(!contains_line_break("a\r"));
    assert!(contains_line_break("\n"));
}

#[test]
fn single_line_form_is_exact() {
    assert_eq!(encode_single_line("name", "value"), "name=value\n");
    assert_eq!(encode_single_line("name", ""), "name=\n");
}

#[test]
fn block_form_is_exact() {
    assert_eq!(encode_block("n", "a\nb", "D"), "n<<D\na\nb\nD\n");
    assert_eq!(encode_block("n", "1", "D"), "n<<D\n1\nD\n");
}

#[test]
fn record_form_follows_the_value() {
    assert_eq!(encode_record("n", "x=y", "D"), "n=x=y\n");
    assert_eq!(encode_record("n", "", "D"), "n=\n");
    assert_eq!(encode_record("n", "x\ny", "D"), "n<<D\nx\ny\nD\n");
    assert_eq!(encode_record("n", "x\ry", "D"), "n=x\ry\n");
    assert_eq!(encode_record("n", "x\n", "D"), "n<<D\nx\n\nD\n");
}

#[test]
fn single_line_value_reads_back() {
    for value in ["", "plain", "a=b", "x<<y", "tab\there", "carriage\rreturn"] {
        let record = render_record("key", value);
        let line = record.strip_suffix('\n').unwrap();
        let (name, read) = line.split_once('=').unwrap();
        assert_eq!(name, "key");
        assert_eq!(read, value);
    }
}

#[test]
fn block_value_reads_back() {
    for value in ["a\nb", "a\n\n\nb", "\n", "trailing\n", "\nleading", "looks like\nEOF\n"] {
        let record = render_record("key", value);
        let (name, delimiter, read) = split_block(&record);
        assert_eq!(name, "key");
        assert!(is_hyphenated_uuid(&delimiter));
        assert_eq!(read, value);
    }
}

#[test]
fn render_without_line_break_is_single_line() {
    assert_eq!(render_record("output", "Success!"), "output=Success!\n");
}

#[test]
fn render_block_uses_fresh_delimiter() {
    let record = render_block("one", "1");
    let (name, delimiter, value) = split_block(&record);
    assert_eq!(name, "one");
    assert_eq!(value, "1");
    assert!(is_hyphenated_uuid(&delimiter));
    assert_ne!(record, "one<<\n1\n\n");
}

#[test]
fn delimiters_do_not_repeat() {
    let mut seen = HashSet::new();
    for _ in 0..10_000 {
        let (_, delimiter, _) = split_block(&render_block("v", "x"));
        assert!(seen.insert(delimiter));
    }
}
