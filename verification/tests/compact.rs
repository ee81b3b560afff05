use get_md::table::compact_markdown;
use get_md::table::compact_table_row;
use get_md::table::fence_marker;

#[test]
fn compact_table_cell_padding() {
    assert_eq!(compact_markdown("| aaaa           |"), "| aaaa |",);
    assert_eq!(
        compact_markdown("| col1           | col2       |"),
        "| col1 | col2 |",
    );
}

#[test]
fn compact_table_separator_dashes() {
    assert_eq!(compact_markdown("| -------------- |"), "| - |",);
    assert_eq!(
        compact_markdown("| -------------- | -------------- |"),
        "| - | - |",
    );
}

#[test]
fn compact_table_separator_preserves_alignment() {
    assert_eq!(compact_markdown("| :--- |"), "| :- |");
    assert_eq!(compact_markdown("| ---: |"), "| -: |");
    assert_eq!(compact_markdown("| :---: |"), "| :-: |");
    assert_eq!(
        compact_markdown("| :-------------- | --------------: | :--------------: |"),
        "| :- | -: | :-: |",
    );
}

#[test]
fn compact_table_already_compact() {
    assert_eq!(compact_markdown("| a | b |"), "| a | b |");
    assert_eq!(compact_markdown("| - | - |"), "| - | - |");
}

#[test]
fn compact_multiline_mixed() {
    let input = "\
# Title

* First item
* Second item

| Name           | Value          |
| -------------- | -------------- |
| foo            | bar            |";

    let expected = "\
# Title

* First item
* Second item

| Name | Value |
| - | - |
| foo | bar |";

    assert_eq!(compact_markdown(input), expected);
}

#[test]
fn compact_preserves_fenced_code_block() {
    let input = "\
```md
| Name           | Value          |
| -------------- | -------------- |
| foo            | bar            |
```";
    assert_eq!(compact_markdown(input), input);
}

#[test]
fn compact_preserves_tilde_fenced_code_block() {
    let input = "\
~~~text
| keep           | spacing        |
~~~";
    assert_eq!(compact_markdown(input), input);
}

#[test]
fn compact_preserves_non_table_lines() {
    assert_eq!(compact_markdown("---"), "---");
    assert_eq!(compact_markdown("- single space"), "- single space");
    assert_eq!(compact_markdown("Hello world"), "Hello world");
    assert_eq!(compact_markdown(""), "");
}

#[test]
fn compact_table_single_cell() {
    assert_eq!(compact_markdown("| only |"), "| only |");
}

#[test]
fn compact_table_empty_cells() {
    assert_eq!(compact_markdown("|  |  |"), "|  |  |");
}

#[test]
fn compact_markdown_empty_input() {
    assert_eq!(compact_markdown(""), "");
}

#[test]
fn compact_markdown_only_newlines() {
    assert_eq!(compact_markdown("\n\n\n"), "\n\n");
}

#[test]
fn compact_concrete_two_row_table() {
    assert_eq!(
        compact_markdown("| a        | b   |\n| --------- | --: |"),
        "| a | b |\n| - | -: |",
    );
}

#[test]
fn compact_twice_equals_compact_once() {
    let inputs = [
        "| a        | b   |\n| --------- | --: |",
        "# Title\n\n| Name   | v |\n| :----- | -: |\ntext",
        "```\n| keep   | this |\n```\nplain",
        "|||",
        "   | padded   |  ",
    ];
    for input in inputs {
        let once = compact_markdown(input);
        assert_eq!(compact_markdown(&once), once);
    }
}

#[test]
fn compact_fence_wrap_is_identity() {
    let body = "| a        | b   |\n| --------- | --: |\nplain text";
    let wrapped = format!("```\n{body}\n```");
    assert_eq!(compact_markdown(&wrapped), wrapped);
}

#[test]
fn compact_indented_table_row_is_trimmed() {
    assert_eq!(compact_markdown("   | a   | b |"), "| a | b |");
}

#[test]
fn compact_short_backtick_run_is_no_fence() {
    assert_eq!(compact_markdown("``\n| a   |"), "``\n| a |");
}

#[test]
fn compact_longer_close_run_ends_fence() {
    let input = "````\n| keep   |\n`````\n| trim   |";
    assert_eq!(compact_markdown(input), "````\n| keep   |\n`````\n| trim |");
}

#[test]
fn compact_colon_only_cell_is_separator() {
    assert_eq!(compact_markdown("| : |"), "| :-: |");
}

#[test]
fn fence_marker_reads_char_and_run() {
    assert_eq!(fence_marker("```rust"), Some(('`', 3)));
    assert_eq!(fence_marker("~~~~"), Some(('~', 4)));
    assert_eq!(fence_marker("``"), None);
    assert_eq!(fence_marker("text"), None);
    assert_eq!(fence_marker(""), None);
}

#[test]
fn compact_table_row_compacts_cells() {
    assert_eq!(compact_table_row("| a        | b   |"), "| a | b |");
    assert_eq!(compact_table_row("| :--- | --: |"), "| :- | -: |");
}
