use get_md::escape::escape_js_string;
use get_md::idle_browser_timeout;

#[test]
fn escape_simple_selector() {
    assert_eq!(escape_js_string("body"), r#""body""#);
}

#[test]
fn escape_selector_with_quotes() {
    assert_eq!(escape_js_string(r#"a[href="x"]"#), r#""a[href=\"x\"]""#);
}

#[test]
fn escape_selector_with_backslash() {
    assert_eq!(escape_js_string(r"div\.class"), r#""div\\.class""#);
}

#[test]
fn escape_selector_with_newline() {
    assert_eq!(escape_js_string("a\nb"), r#""a\nb""#);
}

#[test]
fn escape_selector_with_carriage_return() {
    assert_eq!(escape_js_string("a\rb"), r#""a\rb""#);
}

#[test]
fn escape_empty_string() {
    assert_eq!(escape_js_string(""), r#""""#);
}

#[test]
fn escape_complex_css_selector() {
    assert_eq!(
        escape_js_string("div > .content p:nth-child(2)"),
        r#""div > .content p:nth-child(2)""#,
    );
}

#[test]
fn escape_unicode_selector() {
    assert_eq!(escape_js_string(".日本語"), r#"".日本語""#);
}

#[test]
fn escape_tab_character() {
    assert_eq!(escape_js_string("a\tb"), "\"a\tb\"");
}

#[test]
fn escape_single_quotes_passthrough() {
    assert_eq!(escape_js_string("div[data-x='y']"), r#""div[data-x='y']""#);
}

#[test]
fn escape_mixed_special_chars() {
    assert_eq!(escape_js_string("a\"b\\c\nd\re"), r#""a\"b\\c\nd\re""#);
}

#[test]
fn escape_only_special_chars() {
    assert_eq!(escape_js_string("\"\\"), r#""\"\\""#);
}

#[test]
fn escape_js_line_separator_chars() {
    assert_eq!(
        escape_js_string("a\u{2028}b\u{2029}c"),
        r#""a\u2028b\u2029c""#
    );
}

#[test]
fn idle_browser_timeout_adds_buffer() {
    assert_eq!(idle_browser_timeout(60), 90);
}

#[test]
fn idle_browser_timeout_saturates_on_overflow() {
    assert_eq!(idle_browser_timeout(u64::MAX), u64::MAX);
}
