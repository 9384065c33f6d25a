//! Line-buffered block delimiters and batch toggling, and the range sorter.

use toggle_comment::toggle_comment_module::{
    sort_range, toggle_block_comment, toggle_multiple_basic_comments,
    toggle_multiple_singline_docstrings, ToggleError,
};

#[test]
fn test_sort_range_already_sorted() {
    let (start, end) = sort_range(5, 10);
    assert_eq!(start, 5);
    assert_eq!(end, 10);
}

#[test]
fn test_sort_range_reversed() {
    let (start, end) = sort_range(10, 5);
    assert_eq!(start, 5);
    assert_eq!(end, 10);
}

#[test]
fn test_sort_range_same_value() {
    let (start, end) = sort_range(7, 7);
    assert_eq!(start, 7);
    assert_eq!(end, 7);
}

#[test]
fn test_sort_range_zero() {
    let (start, end) = sort_range(5, 0);
    assert_eq!(start, 0);
    assert_eq!(end, 5);
}

#[test]
fn test_block_comment_add_rust() {
    let content = b"fn main() {\n    println!(\"hello\");\n}\n";
    // Comment lines 0-2 (entire file)
    let out = toggle_block_comment(content, Some("rs"), 0, 2).unwrap();
    assert_eq!(out, b"/*\nfn main() {\n    println!(\"hello\");\n}\n*/\n");
}

#[test]
fn test_block_comment_remove_rust() {
    let content = b"/*\nfn main() {\n    println!(\"hello\");\n}\n*/\n";
    // Remove markers at lines 0 and 4
    let out = toggle_block_comment(content, Some("rs"), 0, 4).unwrap();
    assert_eq!(out, b"fn main() {\n    println!(\"hello\");\n}\n");
}

#[test]
fn test_block_comment_inconsistent() {
    // Only start marker present
    let content = b"/*\nfn main() {}\n";
    let result = toggle_block_comment(content, Some("rs"), 0, 1);
    assert!(matches!(result, Err(ToggleError::InconsistentBlockMarkers)));
}

#[test]
fn test_block_comment_python() {
    let content = b"def hello():\n    print('world')\n";
    let out = toggle_block_comment(content, Some("py"), 0, 1).unwrap();
    assert_eq!(out, b"\"\"\"\ndef hello():\n    print('world')\n\"\"\"\n");
}

#[test]
fn test_batch_toggle_multiple_lines() {
    let content = b"line 0\nline 1\nline 2\nline 3\nline 4\n";
    let lines = [1, 3]; // Toggle lines 1 and 3
    let out = toggle_multiple_basic_comments(content, Some("rs"), &lines).unwrap();
    assert_eq!(out, b"line 0\n// line 1\nline 2\n// line 3\nline 4\n");
}

#[test]
fn test_batch_toggle_unsorted_input() {
    let content = b"line 0\nline 1\nline 2\nline 3\n";
    let lines = [3, 1, 2]; // Unsorted input
    let out = toggle_multiple_basic_comments(content, Some("rs"), &lines).unwrap();
    assert_eq!(out, b"line 0\n// line 1\n// line 2\n// line 3\n");
}

#[test]
fn test_batch_toggle_duplicates() {
    let content = b"line 0\nline 1\nline 2\n";
    let lines = [1, 1, 1]; // Duplicates count once
    let out = toggle_multiple_basic_comments(content, Some("rs"), &lines).unwrap();
    assert_eq!(out, b"line 0\n// line 1\nline 2\n");
}

#[test]
fn test_batch_empty_array() {
    let lines: [usize; 0] = [];
    let result = toggle_multiple_basic_comments(b"line 0\n", Some("rs"), &lines);
    assert!(result.is_ok()); // Should succeed (no-op)
}

#[test]
fn test_batch_out_of_range() {
    let lines = [100]; // Way beyond file
    let result = toggle_multiple_basic_comments(b"line 0\n", Some("rs"), &lines);
    assert!(matches!(result, Err(ToggleError::LineNotFound { .. })));
}

#[test]
fn test_batch_exceeds_max() {
    let content = "line\n".repeat(150);
    let lines: Vec<usize> = (0..130).collect(); // Beyond the batch ceiling
    let result = toggle_multiple_basic_comments(content.as_bytes(), Some("rs"), &lines);
    assert!(result.is_err()); // Should reject
}

#[test]
fn test_batch_docstrings() {
    let content = b"line 0\nline 1\nline 2\n";
    let lines = [0, 2];
    let out = toggle_multiple_singline_docstrings(content, &lines).unwrap();
    assert_eq!(out, b"/// line 0\nline 1\n/// line 2\n");
}
