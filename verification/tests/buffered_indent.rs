//! Line-buffered indenting and unindenting of single lines.

use toggle_comment::toggle_comment_module::{indent_line, unindent_line, IndentError};

#[test]
fn test_indent_line_basic() {
    let out = indent_line(b"code\n", 0).unwrap();
    assert_eq!(out, b"    code\n");
}

#[test]
fn test_indent_line_already_indented() {
    let out = indent_line(b"  code\n", 0).unwrap();
    assert_eq!(out, b"      code\n");
}

#[test]
fn test_indent_line_empty() {
    let out = indent_line(b"\n", 0).unwrap();
    assert_eq!(out, b"    \n");
}

#[test]
fn test_indent_line_no_newline() {
    let out = indent_line(b"code", 0).unwrap();
    assert_eq!(out, b"    code");
}

#[test]
fn test_indent_line_crlf() {
    let out = indent_line(b"code\r\n", 0).unwrap();
    assert_eq!(out, b"    code\r\n");
}

#[test]
fn test_indent_line_middle_of_file() {
    let out = indent_line(b"line 0\nline 1\nline 2\n", 1).unwrap();
    assert_eq!(out, b"line 0\n    line 1\nline 2\n");
}

#[test]
fn test_indent_line_not_found() {
    let result = indent_line(b"code\n", 10);
    assert!(matches!(result, Err(IndentError::LineNotFound { .. })));
}

#[test]
fn test_unindent_line_four_spaces() {
    let out = unindent_line(b"    code\n", 0).unwrap();
    assert_eq!(out, b"code\n");
}

#[test]
fn test_unindent_line_two_spaces() {
    let out = unindent_line(b"  code\n", 0).unwrap();
    assert_eq!(out, b"code\n");
}

#[test]
fn test_unindent_line_no_spaces() {
    let out = unindent_line(b"code\n", 0).unwrap();
    assert_eq!(out, b"code\n"); // No-op success
}

#[test]
fn test_unindent_line_six_spaces() {
    let out = unindent_line(b"      code\n", 0).unwrap();
    assert_eq!(out, b"  code\n");
}

#[test]
fn test_unindent_line_tab() {
    let out = unindent_line(b"\tcode\n", 0).unwrap();
    assert_eq!(out, b"\tcode\n"); // Tabs are never removed
}

#[test]
fn test_unindent_line_spaces_and_tab() {
    let out = unindent_line(b"  \tcode\n", 0).unwrap();
    assert_eq!(out, b"\tcode\n"); // Spaces before the tab removed
}

#[test]
fn test_unindent_line_middle_of_file() {
    let out = unindent_line(b"line 0\n    line 1\nline 2\n", 1).unwrap();
    assert_eq!(out, b"line 0\nline 1\nline 2\n");
}

#[test]
fn test_unindent_line_empty() {
    let out = unindent_line(b"    \n", 0).unwrap();
    assert_eq!(out, b"\n"); // All spaces removed
}

#[test]
fn toggle_comment_module_test_indent_unindent_roundtrip() {
    let original = b"code\n";
    let indented = indent_line(original, 0);
    assert!(indented.is_ok());
    let indented = indented.unwrap();
    assert_eq!(indented, b"    code\n");
    let back = unindent_line(indented.as_slice(), 0);
    assert!(back.is_ok());
    assert_eq!(back.unwrap(), original);
}

#[test]
fn test_unindent_idempotent() {
    // Unindenting a line with no leading spaces is a no-op, twice over
    let original = b"code\n";
    let once = unindent_line(original, 0);
    assert!(once.is_ok());
    let twice = unindent_line(once.unwrap().as_slice(), 0);
    assert!(twice.is_ok());
    assert_eq!(twice.unwrap(), original);
}
