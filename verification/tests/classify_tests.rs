use txt_to_md::classify::{is_markdown_line, last_non_empty_is_heading};

#[test]
fn ordered_list_detection() {
    assert!(is_markdown_line(b"1. item"));
    assert!(is_markdown_line(b"12) item"));
    assert!(is_markdown_line(b"3."));
    assert!(!is_markdown_line(b"1x item"));
}

#[test]
fn ordered_marker_edge_cases() {
    assert!(is_markdown_line(b"7)"));
    assert!(is_markdown_line(b"123. x"));
    assert!(!is_markdown_line(b")"));
    assert!(!is_markdown_line(b"."));
    assert!(!is_markdown_line(b"123"));
    assert!(!is_markdown_line(b"1.x"));
}

#[test]
fn recognized_prefixes() {
    assert!(is_markdown_line(b"# heading"));
    assert!(is_markdown_line(b"#heading"));
    assert!(is_markdown_line(b"> quote"));
    assert!(is_markdown_line(b"- bullet"));
    assert!(is_markdown_line(b"+ bullet"));
    assert!(is_markdown_line(b"* bullet"));
    assert!(is_markdown_line(b"-[x] task"));
    assert!(is_markdown_line(b"- [ ] task"));
    assert!(is_markdown_line(b"```rust"));
    assert!(is_markdown_line(b"   # indented heading"));
}

#[test]
fn unrecognized_lines() {
    assert!(!is_markdown_line(b"text"));
    assert!(!is_markdown_line(b""));
    assert!(!is_markdown_line(b"-x"));
    assert!(!is_markdown_line(b">q"));
    assert!(!is_markdown_line(b"*star"));
}

#[test]
fn heading_adjacency_scan() {
    let empty: Vec<Vec<u8>> = Vec::new();
    assert!(!last_non_empty_is_heading(&empty));

    let heading = vec![b"# h".to_vec()];
    assert!(last_non_empty_is_heading(&heading));

    let heading_then_blank = vec![b"# h".to_vec(), b"   ".to_vec()];
    assert!(last_non_empty_is_heading(&heading_then_blank));

    let heading_then_text = vec![b"# h".to_vec(), b"x".to_vec()];
    assert!(!last_non_empty_is_heading(&heading_then_text));

    let only_blank = vec![b"   ".to_vec()];
    assert!(!last_non_empty_is_heading(&only_blank));

    let indented_heading = vec![b"  ## h".to_vec()];
    assert!(last_non_empty_is_heading(&indented_heading));
}
