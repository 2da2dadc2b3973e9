//! The cursor primitives and the escape-aware scanner, exercised
//! directly on a hand-built lexer.
use mdlex::Lexer;
use mdlex::Pred;

fn chars(s: &str) -> Vec<char> {
    s.chars().collect()
}

fn mk(lines: Vec<Vec<char>>) -> Lexer {
    Lexer {
        lines,
        line: 0,
        col: 0,
        output: Vec::new(),
    }
}

#[test]
fn cursor_walks_lines_and_chars() {
    let mut l = mk(vec![chars("ab"), chars("c")]);
    assert_eq!(l.peek_char(), None);
    assert_eq!(l.next_line(), Some(chars("ab")));
    assert_eq!(l.peek_char(), Some('a'));
    assert_eq!(l.next_char(), Some('a'));
    assert_eq!(l.next_char(), Some('b'));
    assert_eq!(l.next_char(), None);
    assert_eq!(l.next_line(), Some(chars("c")));
    assert_eq!(l.next_char(), Some('c'));
    assert_eq!(l.next_line(), None);
}

#[test]
fn peek_line_does_not_consume() {
    let mut l = mk(vec![chars("x")]);
    assert!(l.peek_line().is_some());
    assert!(l.peek_line().is_some());
    assert_eq!(l.next_line(), Some(chars("x")));
    assert!(l.peek_line().is_none());
}

#[test]
fn scanner_stops_on_failing_character() {
    let mut l = mk(vec![chars("abc]rest")]);
    let _ = l.next_line();
    assert_eq!(l.consume_while_char(Pred::NotChar(']')), Some(chars("abc")));
    assert_eq!(l.peek_char(), Some(']'));
}

#[test]
fn scanner_backticks_toggle_escape_and_vanish() {
    let mut l = mk(vec![chars("a`b]c`d]e")]);
    let _ = l.next_line();
    assert_eq!(
        l.consume_while_char(Pred::NotChar(']')),
        Some(chars("ab]cd"))
    );
    assert_eq!(l.peek_char(), Some(']'));
}

#[test]
fn scanner_zero_matched_yields_none() {
    let mut l = mk(vec![chars("]x")]);
    let _ = l.next_line();
    assert_eq!(l.consume_while_char(Pred::NotChar(']')), None);
    assert_eq!(l.peek_char(), Some(']'));
}

#[test]
fn scanner_nothing_at_line_end_yields_none() {
    let mut l = mk(vec![Vec::new()]);
    let _ = l.next_line();
    assert_eq!(l.consume_while_char(Pred::NotChar(']')), None);
}

#[test]
fn expect_char_reports_position() {
    let mut l = mk(vec![chars("xy")]);
    let _ = l.next_line();
    assert!(l.expect_char('x').is_ok());
    let e = l.expect_char('z').unwrap_err();
    assert_eq!(e.expected, 'z');
    assert_eq!(e.line, 1);
    assert_eq!(e.col, 2);
    assert_eq!(e.message(), "Expecting character z, on line 1 column 2");
}

#[test]
fn expect_char_at_line_end_keeps_column() {
    let mut l = mk(vec![chars("x")]);
    let _ = l.next_line();
    assert!(l.expect_char('x').is_ok());
    let e = l.expect_char('y').unwrap_err();
    assert_eq!(e.col, 1);
}

#[test]
fn transform_plain_text() {
    let mut l = mk(vec![chars("hi")]);
    let _ = l.next_line();
    assert_eq!(l.transform(false).unwrap(), chars("hi"));
}

#[test]
fn transform_in_escaped_mode_copies_until_backtick() {
    let mut l = mk(vec![chars("a*b`*c*")]);
    let _ = l.next_line();
    assert_eq!(
        l.transform(true).unwrap(),
        chars("a*b<strong>c</strong>")
    );
}

#[test]
fn emit_suppresses_empty_fragments() {
    let mut l = mk(vec![]);
    l.emit("");
    assert_eq!(l.output, Vec::new());
    l.emit("a");
    assert_eq!(l.output, chars("a\n"));
}

#[test]
fn whitespace_scan_skips_spaces_and_tabs() {
    let mut l = mk(vec![chars(" \tz")]);
    let _ = l.next_line();
    assert_eq!(l.consume_while_char(Pred::Space), Some(chars(" \t")));
    assert_eq!(l.next_char(), Some('z'));
}

#[test]
fn digit_scan_takes_the_number_run() {
    let mut l = mk(vec![chars("123.")]);
    let _ = l.next_line();
    assert_eq!(l.consume_while_char(Pred::Digit), Some(chars("123")));
    assert!(l.expect_char('.').is_ok());
}
