use ruulang::parser::parser_utils::{parse_docstrings, parse_multiline_comment};

#[test]
fn single_line_comment_loses_its_frame() {
    assert_eq!(parse_multiline_comment("/* hello */".to_string()), Some(" hello ".to_string()));
    assert_eq!(parse_multiline_comment("/** hello **/".to_string()), Some(" hello ".to_string()));
    assert_eq!(parse_multiline_comment("  /*x*/  ".to_string()), Some("x".to_string()));
}

#[test]
fn text_that_is_no_comment_has_no_documentation() {
    assert_eq!(parse_multiline_comment("hello".to_string()), None);
    assert_eq!(parse_multiline_comment("".to_string()), None);
    assert_eq!(parse_multiline_comment("   ".to_string()), None);
    assert_eq!(parse_multiline_comment("/ * x */".to_string()), None);
}

#[test]
fn multi_line_comment_keeps_its_middle_lines() {
    let text = "/**\n * First line.\n * Second line.\n */";
    assert_eq!(
        parse_multiline_comment(text.to_string()),
        Some(" First line.\n Second line.".to_string())
    );
}

#[test]
fn multi_line_comment_keeps_text_on_first_and_last_line() {
    let text = "/* start\n   * middle\nend */";
    assert_eq!(
        parse_multiline_comment(text.to_string()),
        Some(" start\n middle\nend ".to_string())
    );
}

#[test]
fn carriage_returns_before_line_feeds_are_dropped() {
    let text = "/*\r\n * a\r\n */";
    assert_eq!(parse_multiline_comment(text.to_string()), Some(" a".to_string()));
}

#[test]
fn docstrings_join_the_comments() {
    let inputs = vec!["/* one */".to_string(), "nothing".to_string(), "/* two */".to_string()];
    assert_eq!(parse_docstrings(inputs), Some(" one \n two ".to_string()));
    assert_eq!(parse_docstrings(vec![]), None);
    assert_eq!(parse_docstrings(vec!["x".to_string()]), None);
}
