//! Byte-wise range toggling: each line flipped independently, one after the
//! other, on the running result.

use toggle_comment::toggle_comment_indent_module::{
    toggle_range_basic_comments_bytewise, toggle_range_rust_docstring_bytewise,
    ToggleCommentError,
};

#[test]
fn test_range_bytewise_basic_all_off() {
    let out =
        toggle_range_basic_comments_bytewise(b"line 0\nline 1\nline 2\nline 3\n", Some("rs"), 1, 2)
            .unwrap();
    assert_eq!(out, b"line 0\n// line 1\n// line 2\nline 3\n");
}

#[test]
fn test_range_bytewise_basic_all_on() {
    let out = toggle_range_basic_comments_bytewise(
        b"line 0\n// line 1\n// line 2\nline 3\n",
        Some("rs"),
        1,
        2,
    )
    .unwrap();
    assert_eq!(out, b"line 0\nline 1\nline 2\nline 3\n");
}

#[test]
fn test_range_bytewise_basic_mixed() {
    let out = toggle_range_basic_comments_bytewise(
        b"line 0\n// line 1\nline 2\n// line 3\nline 4\n",
        Some("rs"),
        1,
        3,
    )
    .unwrap();
    // Each line toggled independently
    assert_eq!(out, b"line 0\nline 1\n// line 2\nline 3\nline 4\n");
}

#[test]
fn test_range_bytewise_reversed_input() {
    let out =
        toggle_range_basic_comments_bytewise(b"line 0\nline 1\nline 2\nline 3\n", Some("rs"), 2, 1)
            .unwrap();
    assert_eq!(out, b"line 0\n// line 1\n// line 2\nline 3\n");
}

#[test]
fn test_range_bytewise_single_line() {
    let out =
        toggle_range_basic_comments_bytewise(b"line 0\nline 1\nline 2\n", Some("rs"), 1, 1)
            .unwrap();
    assert_eq!(out, b"line 0\n// line 1\nline 2\n");
}

#[test]
fn test_range_bytewise_preserves_outside() {
    let out = toggle_range_basic_comments_bytewise(
        b"line 0\nline 1\nline 2\nline 3\nline 4\n",
        Some("rs"),
        1,
        3,
    )
    .unwrap();
    assert_eq!(out, b"line 0\n// line 1\n// line 2\n// line 3\nline 4\n");
}

#[test]
fn test_range_bytewise_roundtrip() {
    let original = b"line 0\nline 1\nline 2\n";
    let on = toggle_range_basic_comments_bytewise(original, Some("rs"), 0, 2);
    assert!(on.is_ok());
    let on = on.unwrap();
    assert_eq!(on, b"// line 0\n// line 1\n// line 2\n");
    let off = toggle_range_basic_comments_bytewise(on.as_slice(), Some("rs"), 0, 2);
    assert!(off.is_ok());
    assert_eq!(off.unwrap(), original);
}

#[test]
fn test_range_bytewise_python() {
    let out =
        toggle_range_basic_comments_bytewise(b"line 0\nline 1\nline 2\n", Some("py"), 0, 1)
            .unwrap();
    assert_eq!(out, b"# line 0\n# line 1\nline 2\n");
}

#[test]
fn test_range_bytewise_line_not_found() {
    let result = toggle_range_basic_comments_bytewise(b"line 0\nline 1\n", Some("rs"), 0, 10);
    assert!(matches!(
        result,
        Err(ToggleCommentError::LineNotFound { .. })
    ));
}

#[test]
fn test_range_bytewise_docstring_basic() {
    let out =
        toggle_range_rust_docstring_bytewise(b"line 0\nline 1\nline 2\nline 3\n", 1, 2).unwrap();
    assert_eq!(out, b"line 0\n/// line 1\n/// line 2\nline 3\n");
}

#[test]
fn test_range_bytewise_docstring_mixed() {
    let out =
        toggle_range_rust_docstring_bytewise(b"line 0\n/// line 1\nline 2\n/// line 3\n", 1, 3)
            .unwrap();
    assert_eq!(out, b"line 0\nline 1\n/// line 2\nline 3\n");
}

#[test]
fn test_range_bytewise_docstring_roundtrip() {
    let original = b"line 0\nline 1\nline 2\n";
    let on = toggle_range_rust_docstring_bytewise(original, 0, 2);
    assert!(on.is_ok());
    let on = on.unwrap();
    assert_eq!(on, b"/// line 0\n/// line 1\n/// line 2\n");
    let off = toggle_range_rust_docstring_bytewise(on.as_slice(), 0, 2);
    assert!(off.is_ok());
    assert_eq!(off.unwrap(), original);
}
