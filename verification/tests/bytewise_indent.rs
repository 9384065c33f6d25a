//! Byte-wise indenting and unindenting, single lines and ranges.

use toggle_comment::toggle_comment_indent_module::{
    indent_line_bytewise, indent_range_bytewise, unindent_line_bytewise, unindent_range_bytewise,
};

#[test]
fn test_indent_bytewise_basic() {
    let out = indent_line_bytewise(b"code\n", 0).unwrap();
    assert_eq!(out, b"    code\n");
}

#[test]
fn test_indent_bytewise_already_indented() {
    let out = indent_line_bytewise(b"  code\n", 0).unwrap();
    assert_eq!(out, b"      code\n");
}

#[test]
fn test_indent_bytewise_empty_line() {
    let out = indent_line_bytewise(b"\n", 0).unwrap();
    assert_eq!(out, b"    \n");
}

#[test]
fn test_unindent_bytewise_four_spaces() {
    let out = unindent_line_bytewise(b"    code\n", 0).unwrap();
    assert_eq!(out, b"code\n");
}

#[test]
fn test_unindent_bytewise_two_spaces() {
    let out = unindent_line_bytewise(b"  code\n", 0).unwrap();
    assert_eq!(out, b"code\n");
}

#[test]
fn test_unindent_bytewise_no_spaces() {
    let out = unindent_line_bytewise(b"code\n", 0).unwrap();
    assert_eq!(out, b"code\n"); // No-op success
}

#[test]
fn test_unindent_bytewise_six_spaces() {
    let out = unindent_line_bytewise(b"      code\n", 0).unwrap();
    assert_eq!(out, b"  code\n"); // Only four removed
}

#[test]
fn test_indent_range_bytewise_basic() {
    let out = indent_range_bytewise(b"line 0\nline 1\nline 2\n", 0, 2).unwrap();
    assert_eq!(out, b"    line 0\n    line 1\n    line 2\n");
}

#[test]
fn test_unindent_range_bytewise_basic() {
    let out = unindent_range_bytewise(b"    line 0\n    line 1\n    line 2\n", 0, 2).unwrap();
    assert_eq!(out, b"line 0\nline 1\nline 2\n");
}

#[test]
fn toggle_comment_indent_module_test_indent_unindent_roundtrip() {
    let original = b"code\n";
    let indented = indent_line_bytewise(original, 0);
    assert!(indented.is_ok());
    let indented = indented.unwrap();
    assert_eq!(indented, b"    code\n");
    let back = unindent_line_bytewise(indented.as_slice(), 0);
    assert!(back.is_ok());
    assert_eq!(back.unwrap(), original);
}
