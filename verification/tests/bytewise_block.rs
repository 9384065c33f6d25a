//! Byte-wise block delimiters: exact pattern detection, line deletion and
//! insertion, and the block toggle built from them.

use toggle_comment::toggle_comment_indent_module::{
    delete_line_bytewise, detect_line_pattern, insert_line_after_bytewise,
    insert_line_before_bytewise, toggle_block_comment_bytewise,
};

#[test]
fn test_detect_line_pattern_match() {
    let content = b"line 0\n/*\nline 2\n";
    let r = detect_line_pattern(content, 1, b"/*\n");
    assert!(r);
    assert_eq!(r, true);
}

#[test]
fn test_detect_line_pattern_no_match() {
    let content = b"line 0\ncode\nline 2\n";
    let r = detect_line_pattern(content, 1, b"/*\n");
    assert!(!r);
    assert_eq!(r, false);
}

#[test]
fn test_detect_line_pattern_indented() {
    let content = b"line 0\n  /*\nline 2\n";
    let r = detect_line_pattern(content, 1, b"/*\n");
    assert!(!r);
    assert_eq!(r, false);
}

#[test]
fn test_delete_line_bytewise_middle() {
    let out = delete_line_bytewise(b"line 0\nline 1\nline 2\n", 1).unwrap();
    assert_eq!(out, b"line 0\nline 2\n");
}

#[test]
fn test_delete_line_bytewise_first() {
    let out = delete_line_bytewise(b"line 0\nline 1\nline 2\n", 0).unwrap();
    assert_eq!(out, b"line 1\nline 2\n");
}

#[test]
fn test_insert_line_before_bytewise() {
    let out = insert_line_before_bytewise(b"line 0\nline 1\nline 2\n", 1, b"NEW\n").unwrap();
    assert_eq!(out, b"line 0\nNEW\nline 1\nline 2\n");
}

#[test]
fn test_insert_line_after_bytewise() {
    let out = insert_line_after_bytewise(b"line 0\nline 1\nline 2\n", 1, b"NEW\n").unwrap();
    assert_eq!(out, b"line 0\nline 1\nNEW\nline 2\n");
}

#[test]
fn test_block_comment_bytewise_add_rust() {
    let out =
        toggle_block_comment_bytewise(b"code line 1\ncode line 2\n", Some("rs"), 0, 1).unwrap();
    assert_eq!(out, b"/*\ncode line 1\ncode line 2\n*/\n");
}

#[test]
fn test_block_comment_bytewise_remove_rust() {
    let out =
        toggle_block_comment_bytewise(b"/*\ncode line 1\ncode line 2\n*/\n", Some("rs"), 0, 3)
            .unwrap();
    assert_eq!(out, b"code line 1\ncode line 2\n");
}

#[test]
fn test_block_comment_bytewise_single_line() {
    // A single-line range is always an add
    let out = toggle_block_comment_bytewise(b"code line\n", Some("rs"), 0, 0).unwrap();
    assert_eq!(out, b"/*\ncode line\n*/\n");
}

#[test]
fn test_block_comment_bytewise_python() {
    let out =
        toggle_block_comment_bytewise(b"code line 1\ncode line 2\n", Some("py"), 0, 1).unwrap();
    assert_eq!(out, b"\"\"\"\ncode line 1\ncode line 2\n\"\"\"\n");
}

#[test]
fn test_block_comment_bytewise_roundtrip() {
    let original = b"code line 1\ncode line 2\n";
    let on = toggle_block_comment_bytewise(original, Some("rs"), 0, 1);
    assert!(on.is_ok());
    let on = on.unwrap();
    assert_eq!(on, b"/*\ncode line 1\ncode line 2\n*/\n");
    let off = toggle_block_comment_bytewise(on.as_slice(), Some("rs"), 0, 3);
    assert!(off.is_ok());
    assert_eq!(off.unwrap(), original);
}
