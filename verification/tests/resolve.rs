use get_md::links::find_link_close_paren;
use get_md::links::resolve_markdown_urls;
use get_md::links::split_link_destination;

const BASE: &str = "https://example.com/docs/en/page.md";

#[test]
fn resolve_relative_link() {
    assert_eq!(
        resolve_markdown_urls("[link](./other.md)", BASE),
        "[link](https://example.com/docs/en/other.md)",
    );
}

#[test]
fn resolve_root_relative_link() {
    assert_eq!(
        resolve_markdown_urls("[link](/root/path)", BASE),
        "[link](https://example.com/root/path)",
    );
}

#[test]
fn resolve_parent_relative_link() {
    assert_eq!(
        resolve_markdown_urls("[link](../sibling.md)", BASE),
        "[link](https://example.com/docs/sibling.md)",
    );
}

#[test]
fn resolve_absolute_url_unchanged() {
    assert_eq!(
        resolve_markdown_urls("[link](https://other.com/page)", BASE),
        "[link](https://other.com/page)",
    );
}

#[test]
fn resolve_fragment_only() {
    assert_eq!(
        resolve_markdown_urls("[link](#section)", BASE),
        "[link](https://example.com/docs/en/page.md#section)",
    );
}

#[test]
fn resolve_image_url() {
    assert_eq!(
        resolve_markdown_urls("![alt](./img.png)", BASE),
        "![alt](https://example.com/docs/en/img.png)",
    );
}

#[test]
fn resolve_link_with_title() {
    assert_eq!(
        resolve_markdown_urls(r#"[link](./page "Title")"#, BASE),
        r#"[link](https://example.com/docs/en/page "Title")"#,
    );
}

#[test]
fn resolve_link_with_tab_before_title() {
    assert_eq!(
        resolve_markdown_urls("[link](./page\t\"Title\")", BASE),
        "[link](https://example.com/docs/en/page\t\"Title\")",
    );
}

#[test]
fn resolve_url_with_apostrophe_in_path() {
    assert_eq!(
        resolve_markdown_urls("[link](./it's.md)", BASE),
        "[link](https://example.com/docs/en/it's.md)",
    );
}

#[test]
fn resolve_multiple_links() {
    let input = "[a](./one) and [b](../two) and [c](https://abs.com/page)";
    let expected = "[a](https://example.com/docs/en/one) and [b](https://example.com/docs/two) and [c](https://abs.com/page)";
    assert_eq!(resolve_markdown_urls(input, BASE), expected);
}

#[test]
fn resolve_no_links_unchanged() {
    assert_eq!(resolve_markdown_urls("plain text", BASE), "plain text",);
}

#[test]
fn resolve_empty_url_unchanged() {
    assert_eq!(resolve_markdown_urls("[link]()", BASE), "[link]()",);
}

#[test]
fn resolve_invalid_base_url_unchanged() {
    assert_eq!(
        resolve_markdown_urls("[link](./path)", "not a url"),
        "[link](./path)",
    );
}

#[test]
fn resolve_nested_parens_in_url() {
    assert_eq!(
        resolve_markdown_urls("[wiki](/wiki/Rust_(language))", BASE),
        "[wiki](https://example.com/wiki/Rust_(language))",
    );
}

#[test]
fn resolve_url_with_query_string() {
    assert_eq!(
        resolve_markdown_urls("[link](./page?q=test&a=1)", BASE),
        "[link](https://example.com/docs/en/page?q=test&a=1)",
    );
}

#[test]
fn resolve_url_with_fragment_and_query() {
    assert_eq!(
        resolve_markdown_urls("[link](./page?q=1#sec)", BASE),
        "[link](https://example.com/docs/en/page?q=1#sec)",
    );
}

#[test]
fn resolve_protocol_relative_url() {
    assert_eq!(
        resolve_markdown_urls("[link](//cdn.example.com/img.png)", BASE),
        "[link](https://cdn.example.com/img.png)",
    );
}

#[test]
fn resolve_data_url_unchanged() {
    let input = "[img](data:image/png;base64,ABC)";
    assert_eq!(resolve_markdown_urls(input, BASE), input);
}

#[test]
fn resolve_mailto_link_unchanged() {
    let input = "[email](mailto:test@example.com)";
    assert_eq!(resolve_markdown_urls(input, BASE), input);
}

#[test]
fn resolve_angle_bracket_url_with_space() {
    assert_eq!(
        resolve_markdown_urls("[doc](<./my file.md>)", BASE),
        "[doc](<https://example.com/docs/en/my%20file.md>)",
    );
}

#[test]
fn resolve_angle_bracket_url_with_title() {
    assert_eq!(
        resolve_markdown_urls(r#"[doc](<./my file.md> "Title")"#, BASE),
        r#"[doc](<https://example.com/docs/en/my%20file.md> "Title")"#,
    );
}

#[test]
fn resolve_angle_bracket_absolute_url_unchanged_except_wrapper() {
    assert_eq!(
        resolve_markdown_urls("[doc](<https://other.com/path with space>)", BASE),
        "[doc](<https://other.com/path%20with%20space>)",
    );
}

#[test]
fn resolve_adjacent_links() {
    let input = "[a](./x)[b](./y)";
    let expected = "[a](https://example.com/docs/en/x)[b](https://example.com/docs/en/y)";
    assert_eq!(resolve_markdown_urls(input, BASE), expected);
}

#[test]
fn resolve_link_title_containing_link_marker() {
    let input = r#"[a](./one "literal ]( marker")[b](./two)"#;
    let expected = r#"[a](https://example.com/docs/en/one "literal ]( marker")[b](https://example.com/docs/en/two)"#;
    assert_eq!(resolve_markdown_urls(input, BASE), expected);
}

#[test]
fn resolve_absolute_url_unchanged_for_other_bases() {
    for base in [
        "https://x.com/y",
        "http://host/a/b/c?q=1",
        "https://example.net",
    ] {
        assert_eq!(
            resolve_markdown_urls("[a](https://x.com/y)", base),
            "[a](https://x.com/y)",
        );
    }
}

#[test]
fn resolve_unterminated_link_copies_remainder() {
    let input = "[a](./one and nothing closes";
    assert_eq!(resolve_markdown_urls(input, BASE), input);
}

#[test]
fn find_close_paren_simple() {
    assert_eq!(find_link_close_paren("url)"), Some(3));
}

#[test]
fn find_close_paren_nested() {
    assert_eq!(find_link_close_paren("wiki/Rust_(lang))"), Some(16));
}

#[test]
fn find_close_paren_no_close() {
    assert_eq!(find_link_close_paren("no close paren"), None);
}

#[test]
fn find_close_paren_empty() {
    assert_eq!(find_link_close_paren(")"), Some(0));
}

#[test]
fn find_close_paren_deeply_nested() {
    assert_eq!(find_link_close_paren("a(b(c))d)"), Some(8));
}

#[test]
fn find_close_paren_ignores_escaped_close() {
    assert_eq!(find_link_close_paren(r"foo\)bar)"), Some(8));
}

#[test]
fn find_close_paren_ignores_escaped_open() {
    assert_eq!(find_link_close_paren(r"foo\(bar)"), Some(8));
}

#[test]
fn find_close_paren_ignores_paren_in_quoted_title() {
    assert_eq!(
        find_link_close_paren(r#"./one "title ) marker")"#),
        Some(22),
    );
}

#[test]
fn split_link_destination_standard_with_title() {
    let (url, title, angle) = split_link_destination(r#"./page "Title""#);
    assert_eq!(url, "./page");
    assert_eq!(title, r#" "Title""#);
    assert!(!angle);
}

#[test]
fn split_link_destination_standard_with_escaped_space() {
    let (url, title, angle) = split_link_destination(r#"./my\ file.md "Title""#);
    assert_eq!(url, r#"./my\ file.md"#);
    assert_eq!(title, r#" "Title""#);
    assert!(!angle);
}

#[test]
fn split_link_destination_standard_with_escaped_space_without_title() {
    let (url, title, angle) = split_link_destination(r#"./my\ file.md"#);
    assert_eq!(url, r#"./my\ file.md"#);
    assert_eq!(title, "");
    assert!(!angle);
}

#[test]
fn split_link_destination_standard_with_even_backslashes_before_space() {
    let (url, title, angle) = split_link_destination(r#"./path\\ "Title""#);
    assert_eq!(url, r#"./path\\"#);
    assert_eq!(title, r#" "Title""#);
    assert!(!angle);
}

#[test]
fn split_link_destination_angle_bracket_with_title() {
    let (url, title, angle) = split_link_destination(r#"<./my file.md> "Title""#);
    assert_eq!(url, "./my file.md");
    assert_eq!(title, r#" "Title""#);
    assert!(angle);
}
