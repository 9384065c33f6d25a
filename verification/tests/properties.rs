//! End-to-end scenarios and edge cases: round trips, terminator styles,
//! exact-match detection, error variants, and exit-code mapping.

use toggle_comment::toggle_comment_indent_module as bytewise;
use toggle_comment::toggle_comment_module as buffered;
use toggle_comment::toggle_comment_module::{CommentFlag, IndentError, IoOperation, ToggleError};

#[test]
fn scenario_basic_roundtrip() {
    // fn main() {} toggled on, then off
    let original = b"fn main() {}\n";
    let on = buffered::toggle_basic_singleline_comment(original, Some("rs"), 0).unwrap();
    assert_eq!(on, b"// fn main() {}\n");
    let off = buffered::toggle_basic_singleline_comment(on.as_slice(), Some("rs"), 0).unwrap();
    assert_eq!(off, original);
}

#[test]
fn scenario_python_toggle() {
    let out = buffered::toggle_basic_singleline_comment(b"print('hi')\n", Some("py"), 0).unwrap();
    assert_eq!(out, b"# print('hi')\n");
}

#[test]
fn scenario_block_roundtrip() {
    let original = b"a\nb\nc\n";
    let wrapped = buffered::toggle_block_comment(original, Some("rs"), 0, 2).unwrap();
    assert_eq!(wrapped, b"/*\na\nb\nc\n*/\n");
    let back = buffered::toggle_block_comment(wrapped.as_slice(), Some("rs"), 0, 4).unwrap();
    assert_eq!(back, original);
}

#[test]
fn scenario_indent_ratchet() {
    let step0 = b"  code\n";
    let step1 = buffered::indent_line(step0, 0).unwrap();
    assert_eq!(step1, b"      code\n");
    let step2 = buffered::unindent_line(step1.as_slice(), 0).unwrap();
    assert_eq!(step2, b"  code\n");
    let step3 = buffered::unindent_line(step2.as_slice(), 0).unwrap();
    assert_eq!(step3, b"code\n");
    let step4 = buffered::unindent_line(step3.as_slice(), 0).unwrap();
    assert_eq!(step4, b"code\n"); // No-op success
}

#[test]
fn scenario_line_not_found_reports_count() {
    let result = buffered::toggle_basic_singleline_comment(b"x\ny\n", Some("rs"), 5);
    assert_eq!(
        result,
        Err(ToggleError::LineNotFound {
            requested: 5,
            file_lines: 2
        })
    );
}

#[test]
fn scenario_inconsistent_markers() {
    // Start delimiter present, ordinary content at the end position
    let result = buffered::toggle_block_comment(b"/*\ncode\nmore\n", Some("rs"), 0, 2);
    assert_eq!(result, Err(ToggleError::InconsistentBlockMarkers));
}

#[test]
fn terminator_styles_preserved() {
    // LF
    let lf = buffered::toggle_basic_singleline_comment(b"a\nb\n", Some("rs"), 0).unwrap();
    assert_eq!(lf, b"// a\nb\n");
    // CRLF
    let crlf = buffered::toggle_basic_singleline_comment(b"a\r\nb\r\n", Some("rs"), 1).unwrap();
    assert_eq!(crlf, b"a\r\n// b\r\n");
    // No terminator on the final line
    let bare = buffered::toggle_basic_singleline_comment(b"a\nb", Some("rs"), 1).unwrap();
    assert_eq!(bare, b"a\n// b");
}

#[test]
fn exact_match_detection_rejects_extras() {
    // Delimiter bytes plus a trailing space: never a match
    assert!(!bytewise::detect_line_pattern(b"/* \n", 0, b"/*\n"));
    // Delimiter bytes plus inline content: never a match
    assert!(!bytewise::detect_line_pattern(b"/* comment\n", 0, b"/*\n"));
    // Only byte-exact full-line equality counts
    assert!(bytewise::detect_line_pattern(b"/*\n", 0, b"/*\n"));
    // A final line without its terminator does not equal a terminated pattern
    assert!(!bytewise::detect_line_pattern(b"/*", 0, b"/*\n"));
}

#[test]
fn line_positions_by_newline_count() {
    let content = b"line 0\nline 1\nline 2\n";
    assert_eq!(bytewise::find_line_start_position(content, 0), Some(0));
    assert_eq!(bytewise::find_line_start_position(content, 1), Some(7));
    assert_eq!(bytewise::find_line_start_position(content, 2), Some(14));
    // One past the final newline is addressable; beyond it is not
    assert_eq!(bytewise::find_line_start_position(content, 3), Some(21));
    assert_eq!(bytewise::find_line_start_position(content, 10), None);
    // Line 0 of an empty file begins at offset 0
    assert_eq!(bytewise::find_line_start_position(b"", 0), Some(0));
}

#[test]
fn toggle_past_final_newline_appends() {
    // The byte-wise engine can address the empty position after the final
    // newline; toggling there appends a fresh tag line
    let out = bytewise::toggle_basic_singleline_comment_bytewise(b"a\n", Some("rs"), 1).unwrap();
    assert_eq!(out, b"a\n// ");
}

#[test]
fn bytewise_unsupported_extension_is_noop() {
    let out = bytewise::toggle_basic_singleline_comment_bytewise(b"a\n", Some("txt"), 0).unwrap();
    assert_eq!(out, b"a\n");
    let out2 = bytewise::toggle_block_comment_bytewise(b"a\nb\n", Some("txt"), 0, 1).unwrap();
    assert_eq!(out2, b"a\nb\n");
}

#[test]
fn bytewise_missing_extension_is_error() {
    let result = bytewise::toggle_basic_singleline_comment_bytewise(b"a\n", None, 0);
    assert_eq!(result, Err(bytewise::ToggleCommentError::NoExtension));
}

#[test]
fn write_indented_at_offset() {
    let out = bytewise::write_indented_file_bytewise(b"ab\ncd\n", 3).unwrap();
    assert_eq!(out, b"ab\n    cd\n");
    // A position past the end is a read-stage failure
    let result = bytewise::write_indented_file_bytewise(b"ab\n", 9);
    assert_eq!(
        result,
        Err(bytewise::ToggleIndentError::IoError(
            bytewise::IoOperation::Read
        ))
    );
}

#[test]
fn write_unindented_at_offset() {
    let out = bytewise::write_unindented_file_bytewise(b"ab\n      cd\n", 3).unwrap();
    assert_eq!(out, b"ab\n  cd\n"); // At most four spaces removed
    let result = bytewise::write_unindented_file_bytewise(b"ab\n", 9);
    assert_eq!(
        result,
        Err(bytewise::ToggleIndentError::IoError(
            bytewise::IoOperation::Read
        ))
    );
}

#[test]
fn insert_after_unterminated_line_gains_newline() {
    let out = bytewise::insert_line_after_bytewise(b"a\nb", 1, b"NEW\n").unwrap();
    assert_eq!(out, b"a\nb\nNEW\n");
}

#[test]
fn delete_last_line_without_terminator() {
    let out = bytewise::delete_line_bytewise(b"a\nb", 1).unwrap();
    assert_eq!(out, b"a\n");
}

#[test]
fn overlong_line_is_rejected() {
    // One line longer than the engine's ceiling, terminator included
    let mut content = vec![b'a'; 1_000_001];
    content.push(b'\n');
    let result = buffered::toggle_basic_singleline_comment(content.as_slice(), Some("rs"), 0);
    assert_eq!(
        result,
        Err(ToggleError::LineTooLong {
            line_number: 0,
            length: 1_000_002
        })
    );
    let indent_result = buffered::indent_line(content.as_slice(), 0);
    assert_eq!(
        indent_result,
        Err(IndentError::LineTooLong {
            line_number: 0,
            length: 1_000_002
        })
    );
}

#[test]
fn batch_over_ceiling_reports_read_stage() {
    let content = "line\n".repeat(150);
    let lines: Vec<usize> = (0..130).collect();
    let result =
        buffered::toggle_multiple_basic_comments(content.as_bytes(), Some("rs"), &lines);
    assert_eq!(result, Err(ToggleError::IoError(IoOperation::Read)));
}

#[test]
fn marker_accessors() {
    assert_eq!(CommentFlag::DoubleSlash.as_bytes(), b"//");
    assert_eq!(CommentFlag::TripppleSlash.as_bytes(), b"///");
    assert_eq!(CommentFlag::Hash.as_bytes(), b"#");
    assert_eq!(CommentFlag::DoubleSlash.as_str(), "//");
    assert_eq!(CommentFlag::TripppleSlash.as_str(), "///");
    assert_eq!(CommentFlag::Hash.as_str(), "#");
}

#[test]
fn block_marker_contents() {
    let c_style = buffered::determine_block_markers("rs").unwrap();
    assert_eq!(c_style.start, b"/*\n");
    assert_eq!(c_style.end, b"*/\n");
    let py_style = buffered::determine_block_markers("py").unwrap();
    assert_eq!(py_style.start, b"\"\"\"\n");
    assert_eq!(py_style.end, b"\"\"\"\n");
}

#[test]
fn exit_codes_cover_every_failure() {
    assert_eq!(buffered::error_to_exit_code(ToggleError::FileNotFound), 2);
    assert_eq!(buffered::error_to_exit_code(ToggleError::NoExtension), 3);
    assert_eq!(
        buffered::error_to_exit_code(ToggleError::UnsupportedExtension),
        4
    );
    assert_eq!(
        buffered::error_to_exit_code(ToggleError::LineNotFound {
            requested: 1,
            file_lines: 0
        }),
        5
    );
    assert_eq!(
        buffered::error_to_exit_code(ToggleError::IoError(IoOperation::Write)),
        6
    );
    assert_eq!(buffered::error_to_exit_code(ToggleError::PathError), 7);
    assert_eq!(
        buffered::error_to_exit_code(ToggleError::LineTooLong {
            line_number: 0,
            length: 0
        }),
        8
    );
    assert_eq!(
        buffered::error_to_exit_code(ToggleError::InconsistentBlockMarkers),
        9
    );
    assert_eq!(
        buffered::error_to_exit_code(ToggleError::RangeTooLarge {
            requested: 129,
            max: 128
        }),
        10
    );
    assert_eq!(
        buffered::indent_error_to_exit_code(IndentError::FileNotFound),
        2
    );
    assert_eq!(
        buffered::indent_error_to_exit_code(IndentError::LineNotFound {
            requested: 1,
            file_lines: 0
        }),
        5
    );
    assert_eq!(
        bytewise::error_to_exit_code(bytewise::ToggleCommentError::NoExtension),
        3
    );
    assert_eq!(
        bytewise::indent_error_to_exit_code(bytewise::ToggleIndentError::PathError),
        7
    );
}

#[test]
fn leading_space_detection_keeps_spaces() {
    // The buffered classifier tolerates leading spaces; removal keeps them
    let out = buffered::toggle_basic_singleline_comment(b"  // code\n", Some("rs"), 0).unwrap();
    assert_eq!(out, b"  code\n");
}

#[test]
fn scan_window_bounds_detection() {
    // A marker past the 64-byte scan window is not detected, so a marker is
    // added at column 0 instead
    let mut line = vec![b' '; 70];
    line.extend_from_slice(b"// code\n");
    let out = buffered::toggle_basic_singleline_comment(line.as_slice(), Some("rs"), 0).unwrap();
    let mut expected = Vec::from(&b"// "[..]);
    expected.extend_from_slice(&line);
    assert_eq!(out, expected);
}
