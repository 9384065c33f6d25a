//! Line-buffered single-line toggling, marker classification, and the
//! extension tables.

use toggle_comment::toggle_comment_module::{
    determine_block_markers, determine_comment_flag, should_remove_comment,
    toggle_basic_singleline_comment, toggle_rust_docstring_singleline_comment, CommentFlag,
    ToggleError,
};

#[test]
fn test_determine_comment_flag() {
    // Double-slash languages
    assert_eq!(determine_comment_flag("rs"), Some(CommentFlag::DoubleSlash));
    assert_eq!(
        determine_comment_flag("cpp"),
        Some(CommentFlag::DoubleSlash)
    );
    assert_eq!(determine_comment_flag("js"), Some(CommentFlag::DoubleSlash));

    // Hash languages
    assert_eq!(determine_comment_flag("py"), Some(CommentFlag::Hash));
    assert_eq!(determine_comment_flag("toml"), Some(CommentFlag::Hash));
    assert_eq!(determine_comment_flag("sh"), Some(CommentFlag::Hash));

    // Unknown
    assert_eq!(determine_comment_flag("txt"), None);
    assert_eq!(determine_comment_flag("unknown"), None);
}

#[test]
fn test_should_remove_comment_rust() {
    let flag = CommentFlag::DoubleSlash;

    // Should remove: "// code"
    assert_eq!(should_remove_comment(b"// code", flag), Some(3));

    // Should remove: "  // code"
    assert_eq!(should_remove_comment(b"  // code", flag), Some(3));

    // Should NOT remove: "//code" (no space after flag)
    assert_eq!(should_remove_comment(b"//code", flag), None);

    // Should NOT remove: "code // comment"
    assert_eq!(should_remove_comment(b"code // comment", flag), None);

    // Should NOT remove: empty line
    assert_eq!(should_remove_comment(b"", flag), None);

    // Should NOT remove: only spaces
    assert_eq!(should_remove_comment(b"    ", flag), None);
}

#[test]
fn test_should_remove_comment_python() {
    let flag = CommentFlag::Hash;

    // Should remove: "# code"
    assert_eq!(should_remove_comment(b"# code", flag), Some(2));

    // Should remove: "  # code"
    assert_eq!(should_remove_comment(b"  # code", flag), Some(2));

    // Should NOT remove: "#code" (no space after flag)
    assert_eq!(should_remove_comment(b"#code", flag), None);

    // Should NOT remove: "code # comment"
    assert_eq!(should_remove_comment(b"code # comment", flag), None);
}

#[test]
fn test_determine_block_markers() {
    assert!(determine_block_markers("rs").is_some());
    assert!(determine_block_markers("py").is_some());
    assert!(determine_block_markers("sh").is_none()); // No block comments
}

#[test]
fn test_toggle_comment_add_rust() {
    let out = toggle_basic_singleline_comment(b"fn main() {}\n", Some("rs"), 0).unwrap();
    assert_eq!(out, b"// fn main() {}\n");
}

#[test]
fn test_toggle_comment_remove_rust() {
    let out = toggle_basic_singleline_comment(b"// fn main() {}\n", Some("rs"), 0).unwrap();
    assert_eq!(out, b"fn main() {}\n");
}

#[test]
fn test_toggle_comment_add_python() {
    let out = toggle_basic_singleline_comment(b"print('hello')\n", Some("py"), 0).unwrap();
    assert_eq!(out, b"# print('hello')\n");
}

#[test]
fn test_toggle_comment_remove_python() {
    let out = toggle_basic_singleline_comment(b"# print('hello')\n", Some("py"), 0).unwrap();
    assert_eq!(out, b"print('hello')\n");
}

#[test]
fn test_toggle_comment_line_not_found() {
    let result = toggle_basic_singleline_comment(b"fn main() {}\n", Some("rs"), 10);
    assert!(matches!(result, Err(ToggleError::LineNotFound { .. })));
}

#[test]
fn test_toggle_comment_no_extension() {
    let result = toggle_basic_singleline_comment(b"some content\n", None, 0);
    assert!(matches!(result, Err(ToggleError::NoExtension)));
}

#[test]
fn test_toggle_comment_unsupported_extension() {
    let result = toggle_basic_singleline_comment(b"some content\n", Some("txt"), 0);
    assert!(matches!(result, Err(ToggleError::UnsupportedExtension)));
}

#[test]
fn test_toggle_preserves_other_lines() {
    let out = toggle_basic_singleline_comment(b"line 0\nline 1\nline 2\n", Some("rs"), 1).unwrap();
    assert_eq!(out, b"line 0\n// line 1\nline 2\n");
}

#[test]
fn test_toggle_rust_docstring_add() {
    let out = toggle_rust_docstring_singleline_comment(b"/// Some docs\n", 0).unwrap();
    assert_eq!(out, b"Some docs\n");
}

#[test]
fn test_toggle_rust_docstring_remove() {
    let out = toggle_rust_docstring_singleline_comment(b"Some docs\n", 0).unwrap();
    assert_eq!(out, b"/// Some docs\n");
}

#[test]
fn test_toggle_comment_no_newline_at_eof() {
    let out = toggle_basic_singleline_comment(b"fn main() {}", Some("rs"), 0).unwrap();
    assert_eq!(out, b"// fn main() {}");
}

#[test]
fn test_toggle_comment_crlf_line_ending() {
    let out = toggle_basic_singleline_comment(b"fn main() {}\r\n", Some("rs"), 0).unwrap();
    assert_eq!(out, b"// fn main() {}\r\n");
}

#[test]
fn test_toggle_comment_with_tabs() {
    let out = toggle_basic_singleline_comment(b"\t\tfn main() {}\n", Some("rs"), 0).unwrap();
    assert_eq!(out, b"// \t\tfn main() {}\n");
}

#[test]
fn test_toggle_comment_only_whitespace_line() {
    let out = toggle_basic_singleline_comment(b"    \n", Some("rs"), 0).unwrap();
    assert_eq!(out, b"//     \n");
}

#[test]
fn test_toggle_comment_empty_line() {
    let out = toggle_basic_singleline_comment(b"\n", Some("rs"), 0).unwrap();
    assert_eq!(out, b"// \n");
}

#[test]
fn test_toggle_comment_idempotent() {
    // Toggle on, then off - should return to original
    let original = b"fn main() {}\n";
    let result1 = toggle_basic_singleline_comment(original, Some("rs"), 0);
    assert!(result1.is_ok());
    let result2 = toggle_basic_singleline_comment(result1.unwrap().as_slice(), Some("rs"), 0);
    assert!(result2.is_ok());
    assert_eq!(result2.unwrap(), original);
}

#[test]
fn test_toggle_comment_double_comment() {
    let out = toggle_basic_singleline_comment(b"// // code\n", Some("rs"), 0).unwrap();
    assert_eq!(out, b"// code\n");
}

#[test]
fn test_toggle_comment_just_flag_and_space() {
    // Line with only "// "
    let out = toggle_basic_singleline_comment(b"// \n", Some("rs"), 0).unwrap();
    assert_eq!(out, b"\n"); // Just whitespace removed
}

#[test]
fn test_toggle_comment_last_line() {
    let out = toggle_basic_singleline_comment(b"line 0\nline 1\nline 2\n", Some("rs"), 2).unwrap();
    assert_eq!(out, b"line 0\nline 1\n// line 2\n");
}

#[test]
fn test_toggle_comment_single_line_file() {
    let out = toggle_basic_singleline_comment(b"code\n", Some("rs"), 0).unwrap();
    assert_eq!(out, b"// code\n");
}

#[test]
fn test_extension_case_insensitive() {
    let result = toggle_basic_singleline_comment(b"code\n", Some("RS"), 0);
    assert!(result.is_ok());
}

#[test]
fn test_toggle_preserves_trailing_whitespace() {
    let result = toggle_basic_singleline_comment(b"code   \n", Some("rs"), 0);
    assert!(result.is_ok());
    assert_eq!(result.unwrap(), b"// code   \n"); // Trailing spaces preserved
}
