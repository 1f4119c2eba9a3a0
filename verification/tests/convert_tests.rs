use txt_to_md::convert::convert_text_to_md;

fn conv(input: &str, is_plane_text: bool) -> String {
    let out = convert_text_to_md(input.as_bytes(), is_plane_text);
    String::from_utf8(out).unwrap()
}

#[test]
fn empty_input_yields_empty() {
    assert_eq!(conv("", false), "");
    assert_eq!(conv("", true), "");
}

#[test]
fn heading_separation_nested() {
    assert_eq!(conv("# Title\nplain line", false), "# Title\n\n- plain line");
}

#[test]
fn nested_mode_continuation() {
    assert_eq!(conv("first\nsecond\nthird\n", false), "- first\n  - second\n  - third");
}

#[test]
fn plain_text_mode_continuation() {
    assert_eq!(conv("first\nsecond\nthird\n", true), "- first\n\nsecond\nthird");
}

#[test]
fn plain_mode_single_line_trims_separator() {
    assert_eq!(conv("hello", true), "- hello");
}

#[test]
fn blank_line_splits_paragraphs() {
    assert_eq!(conv("a\nb\n\nc\nd", false), "- a\n  - b\n- c\n  - d");
}

#[test]
fn markdown_passthrough_unchanged() {
    let input = "# a\n## b\n> quote\n- item\n+ plus\n* star\n-[x] task";
    assert_eq!(conv(input, false), input);
    assert_eq!(conv(input, true), input);
}

#[test]
fn blank_between_markdown_lines_dropped() {
    assert_eq!(conv("# a\n\n# b", false), "# a\n# b");
}

#[test]
fn fence_content_preserved() {
    let input = "```\n# not a heading\n\n- item\n```";
    assert_eq!(conv(input, false), input);
}

#[test]
fn prose_after_fence_becomes_item() {
    assert_eq!(conv("```\ncode\n```\nprose", false), "```\ncode\n```\n- prose");
}

#[test]
fn unterminated_fence_passthrough() {
    let input = "```\nfoo\n\nbar";
    assert_eq!(conv(input, false), input);
    assert_eq!(conv(input, true), input);
}

#[test]
fn unterminated_fence_trailing_blanks_trimmed() {
    assert_eq!(conv("```\nx\n\n", false), "```\nx");
}

#[test]
fn heading_adjacency_after_blank() {
    assert_eq!(conv("# T\n\nprose", false), "# T\n\n- prose");
}

#[test]
fn heading_scan_skips_blank_output_lines() {
    assert_eq!(conv("# H\nx\n\ny", true), "# H\n\n- x\n\n- y");
}

#[test]
fn fence_line_is_not_a_heading_for_adjacency() {
    assert_eq!(conv("# H\n```\ncode\n```\nprose", false), "# H\n```\ncode\n```\n- prose");
}

#[test]
fn whitespace_only_line_is_blank() {
    assert_eq!(conv("a\n   \nb", false), "- a\n- b");
}

#[test]
fn item_head_is_trimmed() {
    assert_eq!(conv("   hello   ", false), "- hello");
}

#[test]
fn nested_continuation_is_trimmed() {
    assert_eq!(conv("a\n   b   ", false), "- a\n  - b");
}

#[test]
fn plain_mode_keeps_continuation_verbatim() {
    assert_eq!(conv("first\n  second", true), "- first\n\n  second");
}

#[test]
fn carriage_returns_are_stripped() {
    assert_eq!(conv("a\r\nb", false), "- a\n  - b");
}

#[test]
fn ordered_list_lines_pass_through() {
    assert_eq!(conv("1. item", false), "1. item");
    assert_eq!(conv("12) bar", false), "12) bar");
    assert_eq!(conv("3.", false), "3.");
}

#[test]
fn non_ordered_digit_line_becomes_item() {
    assert_eq!(conv("1x item", false), "- 1x item");
}

#[test]
fn indented_fence_recognized() {
    let input = "  ```\n# inside\n  ```";
    assert_eq!(conv(input, false), input);
}

#[test]
fn trailing_newline_makes_no_difference() {
    assert_eq!(conv("a\n", false), conv("a", false));
    assert_eq!(conv("a\n", false), "- a");
}
