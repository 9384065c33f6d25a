//! Byte-wise single-line toggling: locating lines, tag detection at column 0,
//! and the three-part rewrite.

use toggle_comment::toggle_comment_indent_module::{
    find_line_start_position, toggle_basic_singleline_comment_bytewise,
    toggle_rust_docstring_singleline_comment_bytewise, ToggleCommentError,
};

#[test]
fn test_find_and_detect_line_0() {
    let content = b"code\nmore\n";
    let pos = find_line_start_position(content, 0);
    assert!(pos.is_some());
    assert_eq!(pos.unwrap(), 0); // Line 0 starts at position 0
    // "code" has no "//" tag, so toggling adds one
    let toggled = toggle_basic_singleline_comment_bytewise(content, Some("rs"), 0).unwrap();
    assert_eq!(toggled, b"// code\nmore\n");
}

#[test]
fn test_find_and_detect_line_1() {
    let content = b"line 0\n// line 1\nline 2\n";
    let pos = find_line_start_position(content, 1);
    assert!(pos.is_some());
    assert_eq!(pos.unwrap(), 7); // After "line 0\n"
    // Has the "// " pattern, so toggling removes it
    let toggled = toggle_basic_singleline_comment_bytewise(content, Some("rs"), 1).unwrap();
    assert_eq!(toggled, b"line 0\nline 1\nline 2\n");
}

#[test]
fn test_find_and_detect_line_not_found() {
    let content = b"line 0\nline 1\n";
    let pos = find_line_start_position(content, 10);
    assert!(pos.is_none()); // Line 10 doesn't exist
    assert!(matches!(
        toggle_basic_singleline_comment_bytewise(content, Some("rs"), 10),
        Err(ToggleCommentError::LineNotFound { .. })
    ));
}

#[test]
fn test_find_and_detect_no_space_after_tag() {
    let content = b"line 0\n//code\nline 2\n";
    // "//code" doesn't match the "// " pattern, so toggling adds a marker
    let toggled = toggle_basic_singleline_comment_bytewise(content, Some("rs"), 1).unwrap();
    assert_eq!(toggled, b"line 0\n// //code\nline 2\n");
}

#[test]
fn test_find_and_detect_empty_line() {
    let content = b"line 0\n\nline 2\n";
    // An empty line has no tag, so toggling adds one
    let toggled = toggle_basic_singleline_comment_bytewise(content, Some("rs"), 1).unwrap();
    assert_eq!(toggled, b"line 0\n// \nline 2\n");
}

#[test]
fn test_find_and_detect_hash_comment() {
    let content = b"line 0\n# code\nline 2\n";
    // The "# " pattern is found, so toggling removes it
    let toggled = toggle_basic_singleline_comment_bytewise(content, Some("py"), 1).unwrap();
    assert_eq!(toggled, b"line 0\ncode\nline 2\n");
}

#[test]
fn test_find_and_detect_triple_slash() {
    let content = b"line 0\n/// docs\nline 2\n";
    // The "/// " pattern is found, so toggling removes it
    let toggled = toggle_rust_docstring_singleline_comment_bytewise(content, 1).unwrap();
    assert_eq!(toggled, b"line 0\ndocs\nline 2\n");
}

#[test]
fn test_write_bytewise_add_tag() {
    let content = b"line 0\ncode\nline 2\n";
    let out = toggle_basic_singleline_comment_bytewise(content, Some("rs"), 1).unwrap();
    assert_eq!(out, b"line 0\n// code\nline 2\n");
}

#[test]
fn test_write_bytewise_remove_tag() {
    let content = b"line 0\n// code\nline 2\n";
    let out = toggle_basic_singleline_comment_bytewise(content, Some("rs"), 1).unwrap();
    assert_eq!(out, b"line 0\ncode\nline 2\n");
}

#[test]
fn test_write_bytewise_preserves_other_lines() {
    let content = b"line 0\nline 1\nline 2\nline 3\n";
    let out = toggle_basic_singleline_comment_bytewise(content, Some("rs"), 1).unwrap();
    assert_eq!(out, b"line 0\n// line 1\nline 2\nline 3\n");
}

#[test]
fn test_write_bytewise_empty_line_add() {
    let content = b"line 0\n\nline 2\n";
    let out = toggle_basic_singleline_comment_bytewise(content, Some("rs"), 1).unwrap();
    assert_eq!(out, b"line 0\n// \nline 2\n"); // Tag added to empty line
}

#[test]
fn test_write_bytewise_crlf_preservation() {
    let content = b"line 0\r\ncode\r\nline 2\r\n";
    let out = toggle_basic_singleline_comment_bytewise(content, Some("rs"), 1).unwrap();
    // CRLF should be preserved
    assert_eq!(out, b"line 0\r\n// code\r\nline 2\r\n");
}

#[test]
fn test_bytewise_toggle_full_add() {
    let content = b"fn main() {}\n";
    let out = toggle_basic_singleline_comment_bytewise(content, Some("rs"), 0).unwrap();
    assert_eq!(out, b"// fn main() {}\n");
}

#[test]
fn test_bytewise_toggle_full_remove() {
    let content = b"// fn main() {}\n";
    let out = toggle_basic_singleline_comment_bytewise(content, Some("rs"), 0).unwrap();
    assert_eq!(out, b"fn main() {}\n");
}

#[test]
fn test_bytewise_toggle_roundtrip() {
    let original = b"code\n";
    let on = toggle_basic_singleline_comment_bytewise(original, Some("rs"), 0);
    assert!(on.is_ok());
    let on = on.unwrap();
    assert_eq!(on, b"// code\n");
    let off = toggle_basic_singleline_comment_bytewise(on.as_slice(), Some("rs"), 0);
    assert!(off.is_ok());
    assert_eq!(off.unwrap(), original);
}

#[test]
fn test_bytewise_toggle_middle_line() {
    let content = b"line 0\nline 1\nline 2\n";
    let out = toggle_basic_singleline_comment_bytewise(content, Some("rs"), 1).unwrap();
    assert_eq!(out, b"line 0\n// line 1\nline 2\n");
}

#[test]
fn test_bytewise_toggle_last_line() {
    let content = b"line 0\nline 1\nline 2";
    let out = toggle_basic_singleline_comment_bytewise(content, Some("rs"), 2).unwrap();
    assert_eq!(out, b"line 0\nline 1\n// line 2");
}

#[test]
fn test_bytewise_toggle_python() {
    let content = b"print('hello')\n";
    let out = toggle_basic_singleline_comment_bytewise(content, Some("py"), 0).unwrap();
    assert_eq!(out, b"# print('hello')\n");
}

#[test]
fn test_bytewise_line_not_found_error() {
    let content = b"line 0\nline 1\n";
    let result = toggle_basic_singleline_comment_bytewise(content, Some("rs"), 10);
    assert!(matches!(
        result,
        Err(ToggleCommentError::LineNotFound { .. })
    ));
}
