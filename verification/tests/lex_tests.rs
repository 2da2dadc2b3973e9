//! End-to-end conversions through `Lexer::lex`.
use mdlex::Lexer;

fn conv(s: &str) -> String {
    Lexer::lex(s).unwrap()
}

fn body(lines: &str) -> String {
    format!("<!DOCTYPE html>\n<html>\n{}</html>\n", lines)
}

#[test]
fn empty_document() {
    assert_eq!(conv(""), "<!DOCTYPE html>\n<html>\n</html>\n");
}

#[test]
fn plain_line_unchanged() {
    assert_eq!(conv("hello world."), body("hello world.\n"));
}

#[test]
fn hard_line_break() {
    assert_eq!(conv("ab  "), body("ab<br />\n"));
}

#[test]
fn three_trailing_spaces_keep_one() {
    assert_eq!(conv("ab   "), body("ab <br />\n"));
}

#[test]
fn strong_span() {
    assert_eq!(conv("*bold*"), body("<strong>bold</strong>\n"));
}

#[test]
fn em_span() {
    assert_eq!(conv("~it~"), body("<em>it</em>\n"));
}

#[test]
fn underline_span() {
    assert_eq!(conv("_under_"), body("<u>under</u>\n"));
}

#[test]
fn delimiter_before_space_is_literal() {
    assert_eq!(conv("* item"), body("* item\n"));
}

#[test]
fn link() {
    assert_eq!(
        conv("[text](http://x)"),
        body("<a href=\"http://x\">text</a>\n")
    );
}

#[test]
fn named_anchor() {
    assert_eq!(conv("{name}x"), body("<a name=\"name\"></a>x\n"));
}

#[test]
fn backslash_escapes_delimiter() {
    assert_eq!(conv("\\*lit"), body("*lit\n"));
}

#[test]
fn horizontal_rule() {
    assert_eq!(conv("==="), body("<hr>\n"));
}

#[test]
fn single_equals_kept() {
    assert_eq!(conv("="), body("=\n"));
}

#[test]
fn single_equals_before_text_kept() {
    assert_eq!(conv("=a"), body("=a\n"));
}

#[test]
fn two_equals_before_text_give_rule() {
    assert_eq!(conv("==a"), body("<hr>a\n"));
}

#[test]
fn two_equals_alone_give_rule() {
    assert_eq!(conv("=="), body("<hr>\n"));
}

#[test]
fn inline_code_untagged() {
    assert_eq!(conv("say `raw` here"), body("say raw here\n"));
}

#[test]
fn backtick_led_line() {
    assert_eq!(conv("`raw`"), body("raw\n"));
}

#[test]
fn heading_level_one() {
    assert_eq!(conv("# Title"), body("<h1>Title</h1>\n"));
}

#[test]
fn heading_level_three() {
    assert_eq!(conv("### Title"), body("<h3>Title</h3>\n"));
}

#[test]
fn heading_without_space_after_marker() {
    assert_eq!(conv("#Title"), body("<h1>Title</h1>\n"));
}

#[test]
fn heading_level_twelve() {
    assert_eq!(conv("############x"), body("<h12>x</h12>\n"));
}

#[test]
fn unordered_list_single_wrapper() {
    assert_eq!(
        conv("- a\n- b\nx"),
        body("<ul>\n<li>a</li>\n<li>b</li>\n</ul>\nx\n")
    );
}

#[test]
fn unordered_list_closed_at_document_end() {
    assert_eq!(
        conv("- a\n- b"),
        body("<ul>\n<li>a</li>\n<li>b</li>\n</ul>\n")
    );
}

#[test]
fn blockquote_kept_open_at_document_end() {
    assert_eq!(conv("> q"), body("<blockquote>\nq\n"));
}

#[test]
fn ordered_list_kept_open_at_document_end() {
    assert_eq!(conv("1. a"), body("<ol>\n<li> a</li>\n"));
}

#[test]
fn ordered_list() {
    assert_eq!(
        conv("1. a\n2. b\nx"),
        body("<ol>\n<li> a</li>\n<li> b</li>\n</ol>\nx\n")
    );
}

#[test]
fn blockquote() {
    assert_eq!(conv("> q\nz"), body("<blockquote>\nq\n</blockquote>\nz\n"));
}

#[test]
fn fenced_code_block() {
    assert_eq!(
        conv("```\ncode1\ncode 2\n```\nafter"),
        body("<pre><code>\ncode1\ncode 2\n</pre></code>\nafter\n")
    );
}

#[test]
fn fenced_code_without_closing_fence() {
    assert_eq!(conv("```\ncode"), body("<pre><code>\ncode\n</pre></code>\n"));
}

#[test]
fn fenced_code_drops_empty_lines() {
    assert_eq!(
        conv("```\na\n\nb\n```"),
        body("<pre><code>\na\nb\n</pre></code>\n")
    );
}

#[test]
fn fence_rest_of_line_discarded() {
    assert_eq!(conv("```rust\nx\n```"), body("<pre><code>\nx\n</pre></code>\n"));
}

#[test]
fn four_backticks_are_inline() {
    assert_eq!(conv("````x"), body("x\n"));
}

#[test]
fn code_in_fence_not_transformed() {
    assert_eq!(conv("```\n*x*\n```"), body("<pre><code>\n*x*\n</pre></code>\n"));
}

#[test]
fn html_passthrough() {
    assert_eq!(conv("<div>hi</div>"), body("<div>hi</div>\n"));
}

#[test]
fn html_passthrough_keeps_backticks() {
    assert_eq!(conv("<b>`x`</b>"), body("<b>`x`</b>\n"));
}

#[test]
fn empty_line_closes_paragraph() {
    assert_eq!(conv("a\n\nb"), body("a\n</p>\n<p>\nb\n"));
}

#[test]
fn leading_empty_line_closes_initial_paragraph() {
    assert_eq!(conv("\nx"), body("</p>\n<p>\nx\n"));
}

#[test]
fn carriage_return_newline_is_one_line_ending() {
    assert_eq!(conv("a\r\nb"), conv("a\nb"));
}

#[test]
fn trailing_bare_carriage_return_kept() {
    assert_eq!(conv("a\r"), body("a\r\n"));
}

#[test]
fn unterminated_link_fails_with_position() {
    let e = Lexer::lex("[text](http://x").unwrap_err();
    assert_eq!(e.expected, ')');
    assert_eq!(e.line, 1);
    assert_eq!(e.col, 15);
    assert_eq!(e.message(), "Expecting character ), on line 1 column 15");
}

#[test]
fn unterminated_emphasis_fails_with_position() {
    let e = Lexer::lex("*ab").unwrap_err();
    assert_eq!(e.expected, '*');
    assert_eq!(e.line, 1);
    assert_eq!(e.col, 3);
}

#[test]
fn failure_on_second_line_reports_it() {
    let e = Lexer::lex("ok\n[a](b").unwrap_err();
    assert_eq!(e.expected, ')');
    assert_eq!(e.line, 2);
    assert_eq!(e.col, 5);
}

#[test]
fn ordered_list_without_dot_fails() {
    let e = Lexer::lex("5x").unwrap_err();
    assert_eq!(e.expected, '.');
    assert_eq!(e.line, 1);
    assert_eq!(e.col, 2);
}

#[test]
fn unterminated_anchor_fails() {
    let e = Lexer::lex("{name").unwrap_err();
    assert_eq!(e.expected, '}');
    assert_eq!(e.line, 1);
    assert_eq!(e.col, 5);
}

#[test]
fn empty_link_text_drops_the_link() {
    assert_eq!(conv("[]"), body("]\n"));
}

#[test]
fn empty_link_text_with_target_drops_the_link() {
    assert_eq!(conv("[](u)"), body("](u)\n"));
}

#[test]
fn trailing_delimiter_kept_literally() {
    assert_eq!(conv("a*"), body("a*\n"));
}

#[test]
fn empty_emphasis_span_emits_nothing() {
    assert_eq!(conv("x**y"), body("xy\n"));
}

#[test]
fn empty_anchor_drops_the_construct() {
    assert_eq!(conv("{}x"), body("}x\n"));
}

#[test]
fn reconverting_own_output_is_not_identity() {
    let once = conv("x");
    let twice = conv(&once);
    assert_ne!(once, twice);
}
