//! Line-addressed, byte-wise editing of source-code text.
//!
//! The crate edits a file held in memory as plain bytes, at the granularity of
//! a single line or an inclusive line range: toggling a leading comment marker
//! on or off, inserting or removing block-comment delimiter lines, and adding
//! or removing a fixed unit of leading indentation.  Everything outside the
//! edited region is preserved byte for byte, including each line's terminator
//! style (`\n`, `\r\n`, or none on the final line).
//!
//! Two engines are provided: a line-buffered engine
//! ([`toggle_comment_module`]) that tolerates leading spaces before a comment
//! marker and enforces a per-line length ceiling, and a byte-wise engine
//! ([`toggle_comment_indent_module`]) that works strictly at column 0 and can
//! also address the empty position just after a final newline.
//!
//! All file input and output, backups, and atomic replacement live with the
//! caller; the functions here map old content to new content and say exactly,
//! in their contracts, what the new content is.

pub mod lines;
pub mod toggle_comment_indent_module;
pub mod toggle_comment_module;
