//! Byte-wise editing engine.
//!
//! This engine locates a line by counting newline bytes, then rewrites the
//! file as a strict three-part copy: the bytes before the line, the modified
//! line region, the bytes after.  Marker detection works at column 0 only,
//! with no tolerance for leading spaces.  One position past the final newline
//! is addressable too: toggling or indenting there appends a fresh final
//! line.  Unlike the line-buffered engine, an unsupported extension is a
//! silent no-op here, and a missing line is reported without a line count.

use crate::lines::{
    addressable_line, append_range, append_slice, bytes_eq, ends_at_line_boundary, first_line_len,
    is_line, is_terminated_line, join, lemma_first_line_len, lemma_first_line_len_concat,
    lemma_join_concat, lemma_join_lines_of, lemma_join_push, lemma_join_singleton,
    lemma_lines_of_join, lemma_lines_of_wf, line_count, line_start_offset, lines_of, res_view,
    split_lines, wf_lines, NEWLINE, SPACE,
};
use crate::toggle_comment_module::{
    block_markers_for_extension, determine_block_markers, determine_comment_flag, ext_view,
    flag_for_extension, leading_spaces, lemma_leading_spaces, marker_bytes, range_hi, range_lo,
    sort_range, unindent_amount, CommentFlag, INDENT_SPACES,
};
use vstd::prelude::*;

verus! {

/// Specific I/O operations that can fail.
///
/// The engine itself works on in-memory bytes and never performs I/O; the
/// caller that streams files maps its failures onto these stages.
#[derive(Debug, Clone, Copy, PartialEq, Eq, Structural)]
pub enum IoOperation {
    /// Creating backup file
    Backup,
    /// Opening source file for reading
    Open,
    /// Creating temporary/destination file
    Create,
    /// Reading line from file
    Read,
    /// Writing line to file
    Write,
    /// Flushing write buffer
    Flush,
    /// Replacing original file with modified version
    Replace,
}

/// Errors that can occur during byte-wise comment toggling.
#[derive(Debug, Clone, Copy, PartialEq, Eq, Structural)]
pub enum ToggleCommentError {
    /// The specified file was not found
    FileNotFound,
    /// File has no extension
    NoExtension,
    /// The requested line index exceeds the file's line count.
    /// The byte-wise scan does not count lines, so `file_lines` is 0.
    LineNotFound { requested: usize, file_lines: usize },
    /// I/O operation failed
    IoError(IoOperation),
    /// Path conversion or manipulation error
    PathError,
}

/// Errors that can occur during byte-wise indent/unindent operations.
#[derive(Debug, Clone, Copy, PartialEq, Eq, Structural)]
pub enum ToggleIndentError {
    /// The specified file was not found
    FileNotFound,
    /// The requested line index exceeds the file's line count.
    /// The byte-wise scan does not count lines, so `file_lines` is 0.
    LineNotFound { requested: usize, file_lines: usize },
    /// I/O operation failed
    IoError(IoOperation),
    /// Path conversion or manipulation error
    PathError,
}

/// Exit code for each byte-wise toggle failure.
pub open spec fn spec_toggle_exit_code(error: ToggleCommentError) -> int {
    match error {
        ToggleCommentError::FileNotFound => 2,
        ToggleCommentError::NoExtension => 3,
        ToggleCommentError::LineNotFound { .. } => 5,
        ToggleCommentError::IoError(_) => 6,
        ToggleCommentError::PathError => 7,
    }
}

/// Convert a [`ToggleCommentError`] to its process exit code.
pub fn error_to_exit_code(error: ToggleCommentError) -> (r: i32)
    ensures
        r == spec_toggle_exit_code(error),
{
    match error {
        ToggleCommentError::FileNotFound => 2,
        ToggleCommentError::NoExtension => 3,
        ToggleCommentError::LineNotFound { .. } => 5,
        ToggleCommentError::IoError(_) => 6,
        ToggleCommentError::PathError => 7,
    }
}

/// Exit code for each byte-wise indent failure.
pub open spec fn spec_indent_exit_code(error: ToggleIndentError) -> int {
    match error {
        ToggleIndentError::FileNotFound => 2,
        ToggleIndentError::LineNotFound { .. } => 5,
        ToggleIndentError::IoError(_) => 6,
        ToggleIndentError::PathError => 7,
    }
}

/// Convert a [`ToggleIndentError`] to its process exit code.
pub fn indent_error_to_exit_code(error: ToggleIndentError) -> (r: i32)
    ensures
        r == spec_indent_exit_code(error),
{
    match error {
        ToggleIndentError::FileNotFound => 2,
        ToggleIndentError::LineNotFound { .. } => 5,
        ToggleIndentError::IoError(_) => 6,
        ToggleIndentError::PathError => 7,
    }
}

/// A line's start offset never runs past the end of the content.
pub proof fn lemma_offset_in_bounds(s: Seq<u8>, k: int)
    requires
        0 <= k <= line_count(s),
    ensures
        0 <= line_start_offset(s, k) <= s.len(),
        k == line_count(s) ==> line_start_offset(s, k) == s.len(),
{
    let ls = lines_of(s);
    lemma_join_lines_of(s);
    lemma_join_concat(ls.take(k), ls.skip(k));
    assert(ls.take(k) + ls.skip(k) =~= ls);
    if k == ls.len() {
        assert(ls.take(k) =~= ls);
    }
}

/// The bytes from a line's start are that line followed by the rest.
pub proof fn lemma_suffix_at_line(s: Seq<u8>, k: int)
    requires
        0 <= k < line_count(s),
    ensures
        s.skip(line_start_offset(s, k)) == join(lines_of(s).skip(k)),
        s.skip(line_start_offset(s, k)) == lines_of(s)[k] + join(lines_of(s).skip(k + 1)),
        first_line_len(s.skip(line_start_offset(s, k))) == lines_of(s)[k].len(),
        line_start_offset(s, k) + lines_of(s)[k].len() <= s.len(),
        s.subrange(
            line_start_offset(s, k),
            line_start_offset(s, k) + lines_of(s)[k].len(),
        ) == lines_of(s)[k],
        line_start_offset(s, k + 1) == line_start_offset(s, k) + lines_of(s)[k].len(),
{
    let ls = lines_of(s);
    let off = line_start_offset(s, k);
    lemma_join_lines_of(s);
    lemma_lines_of_wf(s);
    lemma_join_concat(ls.take(k), ls.skip(k));
    assert(ls.take(k) + ls.skip(k) =~= ls);
    assert(s =~= join(ls.take(k)) + join(ls.skip(k)));
    assert(s.skip(off) =~= join(ls.skip(k)));
    assert(ls.skip(k)[0] == ls[k]);
    assert(ls.skip(k).skip(1) =~= ls.skip(k + 1));
    assert(join(ls.skip(k)) == ls[k] + join(ls.skip(k + 1)));
    if k < ls.len() - 1 {
        assert(is_terminated_line(ls[k]));
        lemma_first_line_len_concat(ls[k], join(ls.skip(k + 1)));
    } else {
        assert(ls.skip(k + 1).len() == 0);
        assert(join(ls.skip(k + 1)).len() == 0);
        assert(is_line(ls[k]));
        lemma_first_line_len_concat(ls[k], join(ls.skip(k + 1)));
    }
    assert(s.subrange(off, off + ls[k].len()) =~= ls[k]);
    lemma_join_push(ls.take(k), ls[k]);
    assert(ls.take(k + 1) =~= ls.take(k).push(ls[k]));
}

/// Count newline bytes to find where line `target_line` begins.  Line 0
/// begins at offset 0 (even in an empty file); line `k` begins just after the
/// `k`-th newline.  `None` when the content has too few lines.
pub fn find_line_start_position(content: &[u8], target_line: usize) -> (r: Option<usize>)
    ensures
        match r {
            Some(p) => addressable_line(content@, target_line as int) && p == line_start_offset(
                content@,
                target_line as int,
            ),
            None => !addressable_line(content@, target_line as int),
        },
{
    let ls = split_lines(content);
    let ghost lsv = ls.deep_view();
    let n = ls.len();
    proof {
        lemma_join_lines_of(content@);
    }
    if target_line > n {
        return None;
    }
    if target_line == n {
        if content.len() == 0 || content[content.len() - 1] == NEWLINE {
            proof {
                assert(lsv.take(n as int) =~= lsv);
                assert(ends_at_line_boundary(content@));
            }
            return Some(content.len());
        } else {
            proof {
                assert(!ends_at_line_boundary(content@));
            }
            return None;
        }
    }
    let total = content.len();
    let mut off: usize = 0;
    let mut i: usize = 0;
    proof {
        assert(lsv.take(0) =~= Seq::<Seq<u8>>::empty());
        assert(join(lsv.take(0)).len() == 0);
        assert(lsv.skip(0) =~= lsv);
    }
    while i < target_line
        invariant
            i <= target_line < n,
            n == ls@.len(),
            lsv == ls.deep_view(),
            lsv.len() == ls@.len(),
            lsv == lines_of(content@),
            off == join(lsv.take(i as int)).len(),
            join(lsv.take(i as int)).len() + join(lsv.skip(i as int)).len() == content@.len(),
            total == content@.len(),
        decreases target_line - i,
    {
        proof {
            assert(lsv[i as int] =~= ls@[i as int]@);
            lemma_join_push(lsv.take(i as int), lsv[i as int]);
            assert(lsv.take(i + 1) =~= lsv.take(i as int).push(lsv[i as int]));
            assert(lsv.skip(i as int)[0] == lsv[i as int]);
            assert(lsv.skip(i as int).skip(1) =~= lsv.skip(i + 1));
            assert(join(lsv.skip(i as int)) == lsv[i as int] + join(lsv.skip(i + 1)));
        }
        off = off + ls[i].len();
        i += 1;
    }
    Some(off)
}

/// Copy a slice into a fresh vector.
fn copy_bytes(content: &[u8]) -> (r: Vec<u8>)
    ensures
        r@ == content@,
{
    let mut out: Vec<u8> = Vec::new();
    append_slice(&mut out, content);
    proof {
        assert(out@ =~= content@);
    }
    out
}

/// The three-part copy at the heart of every byte-wise rewrite: the bytes
/// before `from`, then `ins`, then the bytes from `to` on.
fn splice(content: &[u8], from: usize, to: usize, ins: &[u8]) -> (r: Vec<u8>)
    requires
        from <= to <= content@.len(),
    ensures
        r@ == content@.take(from as int) + ins@ + content@.skip(to as int),
{
    let mut out: Vec<u8> = Vec::new();
    append_range(&mut out, content, 0, from);
    append_slice(&mut out, ins);
    append_range(&mut out, content, to, content.len());
    proof {
        assert(content@.subrange(0, from as int) =~= content@.take(from as int));
        assert(content@.subrange(to as int, content@.len() as int) =~= content@.skip(to as int));
        assert(out@ =~= content@.take(from as int) + ins@ + content@.skip(to as int));
    }
    out
}

/// The four indent spaces.
pub open spec fn indent_seq() -> Seq<u8> {
    seq![SPACE, SPACE, SPACE, SPACE]
}

/// Whether the bytes at `off` carry the marker plus one space, entirely
/// within the content.
pub open spec fn bw_tagged_at(s: Seq<u8>, off: int, flag: CommentFlag) -> bool {
    let mk = marker_bytes(flag);
    let m = mk.len() as int;
    &&& off + m + 1 <= s.len()
    &&& s.subrange(off, off + m) == mk
    &&& s[off + m] == SPACE
}

/// One line toggled byte-wise: at the line's start, a detected
/// `marker + space` is removed, otherwise `marker + space` is inserted.
/// Addressing the empty position after a final newline appends a fresh tag.
pub open spec fn spec_toggle_line_bw(s: Seq<u8>, k: int, flag: CommentFlag) -> Result<
    Seq<u8>,
    ToggleCommentError,
> {
    if addressable_line(s, k) {
        let off = line_start_offset(s, k);
        let mk = marker_bytes(flag);
        let m = mk.len() as int;
        if bw_tagged_at(s, off, flag) {
            Ok(s.take(off) + s.skip(off + m + 1))
        } else {
            Ok(s.take(off) + mk + seq![SPACE] + s.skip(off))
        }
    } else {
        Err(ToggleCommentError::LineNotFound { requested: k as usize, file_lines: 0 })
    }
}

/// Marker length in bytes.
fn bw_marker_len(flag: CommentFlag) -> (r: usize)
    ensures
        r == marker_bytes(flag).len(),
{
    match flag {
        CommentFlag::TripppleSlash => 3,
        CommentFlag::DoubleSlash => 2,
        CommentFlag::Hash => 1,
    }
}

/// The byte-wise single-line toggle engine.
fn toggle_at_bytewise(content: &[u8], k: usize, flag: CommentFlag) -> (r: Result<
    Vec<u8>,
    ToggleCommentError,
>)
    ensures
        res_view(r) == spec_toggle_line_bw(content@, k as int, flag),
{
    let off = match find_line_start_position(content, k) {
        None => {
            return Err(ToggleCommentError::LineNotFound { requested: k, file_lines: 0 });
        },
        Some(o) => o,
    };
    proof {
        lemma_offset_in_bounds(content@, k as int);
    }
    let m = bw_marker_len(flag);
    let mk = flag.as_bytes();
    let n = content.len();
    let tagged = if n - off >= m + 1 {
        bytes_eq(&content[off..off + m], mk.as_slice()) && content[off + m] == SPACE
    } else {
        false
    };
    proof {
        assert(tagged == bw_tagged_at(content@, off as int, flag));
    }
    if tagged {
        let empty: Vec<u8> = Vec::new();
        let out = splice(content, off, off + m + 1, empty.as_slice());
        proof {
            assert(out@ =~= content@.take(off as int) + content@.skip(off + m + 1));
        }
        Ok(out)
    } else {
        let mut ins = flag.as_bytes();
        ins.push(SPACE);
        let out = splice(content, off, off, ins.as_slice());
        proof {
            assert(out@ =~= content@.take(off as int) + marker_bytes(flag) + seq![SPACE]
                + content@.skip(off as int));
        }
        Ok(out)
    }
}

/// Toggle a comment on one line, byte-wise, the marker chosen by the file
/// extension.  An unsupported extension is a no-op success; a missing
/// extension is an error.
pub fn toggle_basic_singleline_comment_bytewise(
    content: &[u8],
    extension: Option<&str>,
    row_line_zeroindex: usize,
) -> (r: Result<Vec<u8>, ToggleCommentError>)
    ensures
        res_view(r) == (match ext_view(extension) {
            None => Err(ToggleCommentError::NoExtension),
            Some(e) => match flag_for_extension(e) {
                None => Ok(content@),
                Some(flag) => spec_toggle_line_bw(content@, row_line_zeroindex as int, flag),
            },
        }),
{
    let flag = match extension {
        None => {
            return Err(ToggleCommentError::NoExtension);
        },
        Some(e) => match determine_comment_flag(e) {
            None => {
                return Ok(copy_bytes(content));
            },
            Some(f) => f,
        },
    };
    toggle_at_bytewise(content, row_line_zeroindex, flag)
}

/// Toggle a Rust doc comment (`///`) on one line, byte-wise; no extension is
/// consulted.
pub fn toggle_rust_docstring_singleline_comment_bytewise(
    content: &[u8],
    row_line_zeroindex: usize,
) -> (r: Result<Vec<u8>, ToggleCommentError>)
    ensures
        res_view(r) == spec_toggle_line_bw(
            content@,
            row_line_zeroindex as int,
            CommentFlag::TripppleSlash,
        ),
{
    toggle_at_bytewise(content, row_line_zeroindex, CommentFlag::TripppleSlash)
}

/// Content with four spaces inserted at `line_start_pos`, or a read failure
/// when the position lies past the end.
pub open spec fn spec_write_indented(s: Seq<u8>, pos: int) -> Result<Seq<u8>, ToggleIndentError> {
    if 0 <= pos <= s.len() {
        Ok(s.take(pos) + indent_seq() + s.skip(pos))
    } else {
        Err(ToggleIndentError::IoError(IoOperation::Read))
    }
}

/// Write the content with four spaces added at the given line-start offset;
/// a strict three-part copy.
pub fn write_indented_file_bytewise(content: &[u8], line_start_pos: usize) -> (r: Result<
    Vec<u8>,
    ToggleIndentError,
>)
    ensures
        res_view(r) == spec_write_indented(content@, line_start_pos as int),
{
    if line_start_pos > content.len() {
        return Err(ToggleIndentError::IoError(IoOperation::Read));
    }
    let mut ins: Vec<u8> = Vec::new();
    ins.push(SPACE);
    ins.push(SPACE);
    ins.push(SPACE);
    ins.push(SPACE);
    proof {
        assert(ins@ =~= indent_seq());
    }
    Ok(splice(content, line_start_pos, line_start_pos, ins.as_slice()))
}

/// Content with up to four spaces removed at `line_start_pos`, or a read
/// failure when the position lies past the end.
pub open spec fn spec_write_unindented(s: Seq<u8>, pos: int) -> Result<Seq<u8>, ToggleIndentError> {
    if 0 <= pos <= s.len() {
        Ok(s.take(pos) + s.skip(pos + unindent_amount(s.skip(pos))))
    } else {
        Err(ToggleIndentError::IoError(IoOperation::Read))
    }
}

/// Count up to four spaces at `off`.
fn count_unindent(content: &[u8], off: usize) -> (d: usize)
    requires
        off <= content@.len(),
    ensures
        d == unindent_amount(content@.skip(off as int)),
{
    let ghost u = content@.skip(off as int);
    proof {
        lemma_leading_spaces(u);
    }
    let n = content.len();
    let mut d: usize = 0;
    while d < INDENT_SPACES && off + d < n && content[off + d] == SPACE
        invariant
            d <= INDENT_SPACES,
            off + d <= n == content@.len(),
            u == content@.skip(off as int),
            forall|i: int| 0 <= i < d ==> u[i] == SPACE,
            d <= leading_spaces(u),
        decreases n - off - d,
    {
        proof {
            lemma_leading_spaces(u);
            if leading_spaces(u) <= d {
                assert(u[leading_spaces(u) as int] == SPACE);
                assert(false);
            }
        }
        d += 1;
    }
    proof {
        lemma_leading_spaces(u);
        if d < INDENT_SPACES && off + d < n {
            assert(u[d as int] != SPACE);
            assert(leading_spaces(u) <= d);
        }
        if off + d == n {
            assert(leading_spaces(u) <= u.len());
        }
        assert(d == unindent_amount(u));
    }
    d
}

/// Write the content with up to four spaces removed at the given line-start
/// offset; a strict three-part copy.
pub fn write_unindented_file_bytewise(content: &[u8], line_start_pos: usize) -> (r: Result<
    Vec<u8>,
    ToggleIndentError,
>)
    ensures
        res_view(r) == spec_write_unindented(content@, line_start_pos as int),
{
    if line_start_pos > content.len() {
        return Err(ToggleIndentError::IoError(IoOperation::Read));
    }
    let d = count_unindent(content, line_start_pos);
    let empty: Vec<u8> = Vec::new();
    proof {
        lemma_leading_spaces(content@.skip(line_start_pos as int));
    }
    let out = splice(content, line_start_pos, line_start_pos + d, empty.as_slice());
    proof {
        assert(out@ =~= content@.take(line_start_pos as int) + content@.skip(
            line_start_pos + d,
        ));
    }
    Ok(out)
}

/// One line indented byte-wise: four spaces at the line's start.  The empty
/// position after a final newline may be addressed and gains four spaces.
pub open spec fn spec_indent_at_bw(s: Seq<u8>, k: int) -> Result<Seq<u8>, ToggleIndentError> {
    if addressable_line(s, k) {
        let off = line_start_offset(s, k);
        Ok(s.take(off) + indent_seq() + s.skip(off))
    } else {
        Err(ToggleIndentError::LineNotFound { requested: k as usize, file_lines: 0 })
    }
}

/// One line unindented byte-wise: up to four spaces removed at the line's
/// start, never tabs; removing none is still a success.
pub open spec fn spec_unindent_at_bw(s: Seq<u8>, k: int) -> Result<Seq<u8>, ToggleIndentError> {
    if addressable_line(s, k) {
        let off = line_start_offset(s, k);
        Ok(s.take(off) + s.skip(off + unindent_amount(s.skip(off))))
    } else {
        Err(ToggleIndentError::LineNotFound { requested: k as usize, file_lines: 0 })
    }
}

/// Add four spaces at the start of one line, byte-wise.
pub fn indent_line_bytewise(content: &[u8], line_number: usize) -> (r: Result<
    Vec<u8>,
    ToggleIndentError,
>)
    ensures
        res_view(r) == spec_indent_at_bw(content@, line_number as int),
{
    let off = match find_line_start_position(content, line_number) {
        None => {
            return Err(ToggleIndentError::LineNotFound { requested: line_number, file_lines: 0 });
        },
        Some(o) => o,
    };
    proof {
        lemma_offset_in_bounds(content@, line_number as int);
    }
    write_indented_file_bytewise(content, off)
}

/// Remove up to four spaces from the start of one line, byte-wise.
pub fn unindent_line_bytewise(content: &[u8], line_number: usize) -> (r: Result<
    Vec<u8>,
    ToggleIndentError,
>)
    ensures
        res_view(r) == spec_unindent_at_bw(content@, line_number as int),
{
    let off = match find_line_start_position(content, line_number) {
        None => {
            return Err(ToggleIndentError::LineNotFound { requested: line_number, file_lines: 0 });
        },
        Some(o) => o,
    };
    proof {
        lemma_offset_in_bounds(content@, line_number as int);
    }
    write_unindented_file_bytewise(content, off)
}

/// An indent applied to each line of `[i, hi]` in turn, each step on the
/// previous step's output, stopping at the first failure.
pub open spec fn spec_indent_range_bw(s: Seq<u8>, i: int, hi: int) -> Result<
    Seq<u8>,
    ToggleIndentError,
>
    decreases hi + 1 - i,
{
    if i > hi {
        Ok(s)
    } else {
        match spec_indent_at_bw(s, i) {
            Err(e) => Err(e),
            Ok(t) => spec_indent_range_bw(t, i + 1, hi),
        }
    }
}

/// An unindent applied to each line of `[i, hi]` in turn.
pub open spec fn spec_unindent_range_bw(s: Seq<u8>, i: int, hi: int) -> Result<
    Seq<u8>,
    ToggleIndentError,
>
    decreases hi + 1 - i,
{
    if i > hi {
        Ok(s)
    } else {
        match spec_unindent_at_bw(s, i) {
            Err(e) => Err(e),
            Ok(t) => spec_unindent_range_bw(t, i + 1, hi),
        }
    }
}

/// A toggle applied to each line of `[i, hi]` in turn.
pub open spec fn spec_toggle_range_bw(s: Seq<u8>, flag: CommentFlag, i: int, hi: int) -> Result<
    Seq<u8>,
    ToggleCommentError,
>
    decreases hi + 1 - i,
{
    if i > hi {
        Ok(s)
    } else {
        match spec_toggle_line_bw(s, i, flag) {
            Err(e) => Err(e),
            Ok(t) => spec_toggle_range_bw(t, flag, i + 1, hi),
        }
    }
}

/// Indent every line of an inclusive range, byte-wise, line by line.  The
/// range is normalized, so argument order does not matter.
pub fn indent_range_bytewise(content: &[u8], start_line: usize, end_line: usize) -> (r: Result<
    Vec<u8>,
    ToggleIndentError,
>)
    ensures
        res_view(r) == spec_indent_range_bw(
            content@,
            range_lo(start_line as int, end_line as int),
            range_hi(start_line as int, end_line as int),
        ),
{
    let (lo, hi) = sort_range(start_line, end_line);
    let mut cur = copy_bytes(content);
    let mut i = lo;
    while i < hi
        invariant
            lo <= i <= hi,
            lo as int == range_lo(start_line as int, end_line as int),
            hi as int == range_hi(start_line as int, end_line as int),
            spec_indent_range_bw(content@, lo as int, hi as int) == spec_indent_range_bw(
                cur@,
                i as int,
                hi as int,
            ),
        decreases hi - i,
    {
        match indent_line_bytewise(cur.as_slice(), i) {
            Err(e) => {
                proof {
                    assert(spec_indent_range_bw(cur@, i as int, hi as int) == Err::<
                        Seq<u8>,
                        ToggleIndentError,
                    >(e));
                }
                return Err(e);
            },
            Ok(t) => {
                cur = t;
            },
        }
        i += 1;
    }
    match indent_line_bytewise(cur.as_slice(), hi) {
        Err(e) => {
            proof {
                assert(spec_indent_range_bw(cur@, hi as int, hi as int) == Err::<
                    Seq<u8>,
                    ToggleIndentError,
                >(e));
            }
            Err(e)
        },
        Ok(t) => {
            proof {
                assert(spec_indent_range_bw(t@, hi + 1, hi as int) == Ok::<
                    Seq<u8>,
                    ToggleIndentError,
                >(t@));
            }
            Ok(t)
        },
    }
}

/// Unindent every line of an inclusive range, byte-wise, line by line.  The
/// range is normalized, so argument order does not matter.
pub fn unindent_range_bytewise(content: &[u8], start_line: usize, end_line: usize) -> (r: Result<
    Vec<u8>,
    ToggleIndentError,
>)
    ensures
        res_view(r) == spec_unindent_range_bw(
            content@,
            range_lo(start_line as int, end_line as int),
            range_hi(start_line as int, end_line as int),
        ),
{
    let (lo, hi) = sort_range(start_line, end_line);
    let mut cur = copy_bytes(content);
    let mut i = lo;
    while i < hi
        invariant
            lo <= i <= hi,
            lo as int == range_lo(start_line as int, end_line as int),
            hi as int == range_hi(start_line as int, end_line as int),
            spec_unindent_range_bw(content@, lo as int, hi as int) == spec_unindent_range_bw(
                cur@,
                i as int,
                hi as int,
            ),
        decreases hi - i,
    {
        match unindent_line_bytewise(cur.as_slice(), i) {
            Err(e) => {
                proof {
                    assert(spec_unindent_range_bw(cur@, i as int, hi as int) == Err::<
                        Seq<u8>,
                        ToggleIndentError,
                    >(e));
                }
                return Err(e);
            },
            Ok(t) => {
                cur = t;
            },
        }
        i += 1;
    }
    match unindent_line_bytewise(cur.as_slice(), hi) {
        Err(e) => {
            proof {
                assert(spec_unindent_range_bw(cur@, hi as int, hi as int) == Err::<
                    Seq<u8>,
                    ToggleIndentError,
                >(e));
            }
            Err(e)
        },
        Ok(t) => {
            proof {
                assert(spec_unindent_range_bw(t@, hi + 1, hi as int) == Ok::<
                    Seq<u8>,
                    ToggleIndentError,
                >(t@));
            }
            Ok(t)
        },
    }
}

/// Toggle basic comments on every line of an inclusive range, byte-wise,
/// line by line on the running result.  The range is normalized; an
/// unsupported extension is a no-op success.
pub fn toggle_range_basic_comments_bytewise(
    content: &[u8],
    extension: Option<&str>,
    start_line: usize,
    end_line: usize,
) -> (r: Result<Vec<u8>, ToggleCommentError>)
    ensures
        res_view(r) == (match ext_view(extension) {
            None => Err(ToggleCommentError::NoExtension),
            Some(e) => match flag_for_extension(e) {
                None => Ok(content@),
                Some(flag) => spec_toggle_range_bw(
                    content@,
                    flag,
                    range_lo(start_line as int, end_line as int),
                    range_hi(start_line as int, end_line as int),
                ),
            },
        }),
{
    let flag = match extension {
        None => {
            return Err(ToggleCommentError::NoExtension);
        },
        Some(e) => match determine_comment_flag(e) {
            None => {
                return Ok(copy_bytes(content));
            },
            Some(f) => f,
        },
    };
    let (lo, hi) = sort_range(start_line, end_line);
    let mut cur = copy_bytes(content);
    let mut i = lo;
    while i < hi
        invariant
            lo <= i <= hi,
            lo as int == range_lo(start_line as int, end_line as int),
            hi as int == range_hi(start_line as int, end_line as int),
            match ext_view(extension) {
                Some(eb) => flag_for_extension(eb) == Some(flag),
                None => false,
            },
            spec_toggle_range_bw(content@, flag, lo as int, hi as int) == spec_toggle_range_bw(
                cur@,
                flag,
                i as int,
                hi as int,
            ),
        decreases hi - i,
    {
        match toggle_at_bytewise(cur.as_slice(), i, flag) {
            Err(e) => {
                proof {
                    assert(spec_toggle_range_bw(cur@, flag, i as int, hi as int) == Err::<
                        Seq<u8>,
                        ToggleCommentError,
                    >(e));
                }
                return Err(e);
            },
            Ok(t) => {
                cur = t;
            },
        }
        i += 1;
    }
    match toggle_at_bytewise(cur.as_slice(), hi, flag) {
        Err(e) => {
            proof {
                assert(spec_toggle_range_bw(cur@, flag, hi as int, hi as int) == Err::<
                    Seq<u8>,
                    ToggleCommentError,
                >(e));
            }
            Err(e)
        },
        Ok(t) => {
            proof {
                assert(spec_toggle_range_bw(t@, flag, hi + 1, hi as int) == Ok::<
                    Seq<u8>,
                    ToggleCommentError,
                >(t@));
            }
            Ok(t)
        },
    }
}

/// Toggle Rust doc comments (`///`) on every line of an inclusive range,
/// byte-wise, line by line on the running result.  The range is normalized;
/// no extension is consulted.
pub fn toggle_range_rust_docstring_bytewise(
    content: &[u8],
    start_line: usize,
    end_line: usize,
) -> (r: Result<Vec<u8>, ToggleCommentError>)
    ensures
        res_view(r) == spec_toggle_range_bw(
            content@,
            CommentFlag::TripppleSlash,
            range_lo(start_line as int, end_line as int),
            range_hi(start_line as int, end_line as int),
        ),
{
    let (lo, hi) = sort_range(start_line, end_line);
    let mut cur = copy_bytes(content);
    let mut i = lo;
    while i < hi
        invariant
            lo <= i <= hi,
            lo as int == range_lo(start_line as int, end_line as int),
            hi as int == range_hi(start_line as int, end_line as int),
            spec_toggle_range_bw(content@, CommentFlag::TripppleSlash, lo as int, hi as int)
                == spec_toggle_range_bw(cur@, CommentFlag::TripppleSlash, i as int, hi as int),
        decreases hi - i,
    {
        match toggle_at_bytewise(cur.as_slice(), i, CommentFlag::TripppleSlash) {
            Err(e) => {
                proof {
                    assert(spec_toggle_range_bw(
                        cur@,
                        CommentFlag::TripppleSlash,
                        i as int,
                        hi as int,
                    ) == Err::<Seq<u8>, ToggleCommentError>(e));
                }
                return Err(e);
            },
            Ok(t) => {
                cur = t;
            },
        }
        i += 1;
    }
    match toggle_at_bytewise(cur.as_slice(), hi, CommentFlag::TripppleSlash) {
        Err(e) => {
            proof {
                assert(spec_toggle_range_bw(cur@, CommentFlag::TripppleSlash, hi as int, hi as int)
                    == Err::<Seq<u8>, ToggleCommentError>(e));
            }
            Err(e)
        },
        Ok(t) => {
            proof {
                assert(spec_toggle_range_bw(t@, CommentFlag::TripppleSlash, hi + 1, hi as int)
                    == Ok::<Seq<u8>, ToggleCommentError>(t@));
            }
            Ok(t)
        },
    }
}

/// Whether the bytes at line `k`'s start equal `pattern` exactly.
pub open spec fn spec_detect(s: Seq<u8>, k: int, pattern: Seq<u8>) -> bool {
    &&& addressable_line(s, k)
    &&& line_start_offset(s, k) + pattern.len() <= s.len()
    &&& s.subrange(line_start_offset(s, k), line_start_offset(s, k) + pattern.len()) == pattern
}

/// Whether line `k` starts with the exact byte pattern at column 0.  A
/// pattern ending in `\n` therefore matches only a line that is, byte for
/// byte, that whole pattern; any extra character defeats the match.  A
/// missing line simply does not match.
pub fn detect_line_pattern(content: &[u8], line_number: usize, pattern: &[u8]) -> (r: bool)
    ensures
        r == spec_detect(content@, line_number as int, pattern@),
{
    let off = match find_line_start_position(content, line_number) {
        None => {
            return false;
        },
        Some(o) => o,
    };
    proof {
        lemma_offset_in_bounds(content@, line_number as int);
    }
    if pattern.len() > content.len() - off {
        return false;
    }
    bytes_eq(&content[off..off + pattern.len()], pattern)
}

/// The whole of line `k` (terminator included) deleted; deleting the empty
/// position after a final newline changes nothing.
pub open spec fn spec_delete_line(s: Seq<u8>, k: int) -> Result<Seq<u8>, ToggleCommentError> {
    if addressable_line(s, k) {
        let off = line_start_offset(s, k);
        Ok(s.take(off) + s.skip(off + first_line_len(s.skip(off))))
    } else {
        Err(ToggleCommentError::LineNotFound { requested: k as usize, file_lines: 0 })
    }
}

/// Delete one whole line, terminator included; a strict three-part copy that
/// skips the line.
pub fn delete_line_bytewise(content: &[u8], line_number: usize) -> (r: Result<
    Vec<u8>,
    ToggleCommentError,
>)
    ensures
        res_view(r) == spec_delete_line(content@, line_number as int),
{
    let off = match find_line_start_position(content, line_number) {
        None => {
            return Err(ToggleCommentError::LineNotFound { requested: line_number, file_lines: 0 });
        },
        Some(o) => o,
    };
    proof {
        lemma_offset_in_bounds(content@, line_number as int);
    }
    let n = content.len();
    let ghost u = content@.skip(off as int);
    let mut e: usize = off;
    while e < n && content[e] != NEWLINE
        invariant
            off <= e <= n == content@.len(),
            u == content@.skip(off as int),
            forall|j: int| off <= j < e ==> content@[j] != NEWLINE,
        decreases n - e,
    {
        e += 1;
    }
    let end = if e < n {
        e + 1
    } else {
        n
    };
    proof {
        if u.len() > 0 {
            lemma_first_line_len(u);
            let f = first_line_len(u) as int;
            assert(forall|j: int| 0 <= j < u.len() ==> u[j] == content@[off + j]);
            if e < n {
                assert(u[e - off] == NEWLINE);
                if f < e + 1 - off {
                    assert(u[f - 1] == NEWLINE || f == u.len());
                    assert(false);
                }
                if f > e + 1 - off {
                    assert(u[e - off] != NEWLINE);
                    assert(false);
                }
                assert(f == end - off);
            } else {
                assert(forall|j: int| 0 <= j < u.len() ==> u[j] != NEWLINE);
                if f < u.len() {
                    assert(u[f - 1] == NEWLINE || f == u.len());
                    assert(false);
                }
                assert(f == end - off);
            }
        } else {
            assert(first_line_len(u) == 0);
            assert(end == off);
        }
    }
    let empty: Vec<u8> = Vec::new();
    let out = splice(content, off, end, empty.as_slice());
    proof {
        assert(out@ =~= content@.take(off as int) + content@.skip(
            off + first_line_len(content@.skip(off as int)),
        ));
    }
    Ok(out)
}

/// `ins` inserted immediately before line `k`; inserting before the empty
/// position after a final newline appends at the end.
pub open spec fn spec_insert_before(s: Seq<u8>, k: int, ins: Seq<u8>) -> Result<
    Seq<u8>,
    ToggleCommentError,
> {
    if addressable_line(s, k) {
        let off = line_start_offset(s, k);
        Ok(s.take(off) + ins + s.skip(off))
    } else {
        Err(ToggleCommentError::LineNotFound { requested: k as usize, file_lines: 0 })
    }
}

/// Insert new line content immediately before the given line; the content
/// should include its own terminator.
pub fn insert_line_before_bytewise(content: &[u8], line_number: usize, new_content: &[u8]) -> (r:
    Result<Vec<u8>, ToggleCommentError>)
    ensures
        res_view(r) == spec_insert_before(content@, line_number as int, new_content@),
{
    let off = match find_line_start_position(content, line_number) {
        None => {
            return Err(ToggleCommentError::LineNotFound { requested: line_number, file_lines: 0 });
        },
        Some(o) => o,
    };
    proof {
        lemma_offset_in_bounds(content@, line_number as int);
    }
    Ok(splice(content, off, off, new_content))
}

/// `ins` inserted immediately after line `k`'s newline.  When the line has
/// no newline (the last line of an unterminated file, or the empty position
/// at the very end), a newline is added first and `ins` follows it.
pub open spec fn spec_insert_after(s: Seq<u8>, k: int, ins: Seq<u8>) -> Result<
    Seq<u8>,
    ToggleCommentError,
> {
    if addressable_line(s, k) {
        let off = line_start_offset(s, k);
        let f = first_line_len(s.skip(off));
        if f > 0 && s[off + f - 1] == NEWLINE {
            Ok(s.take(off + f) + ins + s.skip(off + f))
        } else {
            Ok(s + seq![NEWLINE] + ins)
        }
    } else {
        Err(ToggleCommentError::LineNotFound { requested: k as usize, file_lines: 0 })
    }
}

/// Insert new line content immediately after the given line; the content
/// should include its own terminator.
pub fn insert_line_after_bytewise(content: &[u8], line_number: usize, new_content: &[u8]) -> (r:
    Result<Vec<u8>, ToggleCommentError>)
    ensures
        res_view(r) == spec_insert_after(content@, line_number as int, new_content@),
{
    let off = match find_line_start_position(content, line_number) {
        None => {
            return Err(ToggleCommentError::LineNotFound { requested: line_number, file_lines: 0 });
        },
        Some(o) => o,
    };
    proof {
        lemma_offset_in_bounds(content@, line_number as int);
    }
    let n = content.len();
    let ghost u = content@.skip(off as int);
    let mut e: usize = off;
    while e < n && content[e] != NEWLINE
        invariant
            off <= e <= n == content@.len(),
            u == content@.skip(off as int),
            forall|j: int| off <= j < e ==> content@[j] != NEWLINE,
        decreases n - e,
    {
        e += 1;
    }
    proof {
        if u.len() > 0 {
            lemma_first_line_len(u);
            let f = first_line_len(u) as int;
            assert(forall|j: int| 0 <= j < u.len() ==> u[j] == content@[off + j]);
            if e < n {
                assert(u[e - off] == NEWLINE);
                if f < e + 1 - off {
                    assert(u[f - 1] == NEWLINE || f == u.len());
                    assert(false);
                }
                if f > e + 1 - off {
                    assert(u[e - off] != NEWLINE);
                    assert(false);
                }
                assert(f == e + 1 - off);
            } else {
                assert(forall|j: int| 0 <= j < u.len() ==> u[j] != NEWLINE);
                if f < u.len() {
                    assert(u[f - 1] == NEWLINE || f == u.len());
                    assert(false);
                }
                assert(f == n - off);
            }
        } else {
            assert(first_line_len(u) == 0);
        }
    }
    if e < n {
        let out = splice(content, e + 1, e + 1, new_content);
        proof {
            let f = first_line_len(u) as int;
            assert(off + f == e + 1);
            assert(content@[off + f - 1] == NEWLINE);
            assert(out@ =~= content@.take(off + f) + new_content@ + content@.skip(off + f));
        }
        Ok(out)
    } else {
        let mut ins: Vec<u8> = Vec::new();
        ins.push(NEWLINE);
        append_slice(&mut ins, new_content);
        let out = splice(content, n, n, ins.as_slice());
        proof {
            let f = first_line_len(u) as int;
            if f > 0 {
                assert(content@[off + f - 1] != NEWLINE);
            }
            assert(out@ =~= content@ + seq![NEWLINE] + new_content@);
        }
        Ok(out)
    }
}

/// A byte-wise block toggle.  A single-line range is always an add.  For a
/// wider range, both boundary lines must start with their delimiters for a
/// remove; anything else is an add.  The later edit happens first, so the
/// earlier line's position stays valid: the end delimiter is inserted (or
/// deleted) before the start delimiter.
pub open spec fn spec_toggle_block_bw(s: Seq<u8>, ext: Option<Seq<u8>>, a: int, b: int) -> Result<
    Seq<u8>,
    ToggleCommentError,
> {
    match ext {
        None => Err(ToggleCommentError::NoExtension),
        Some(e) => match block_markers_for_extension(e) {
            None => Ok(s),
            Some(markers) => {
                let ms = markers.0;
                let me = markers.1;
                let lo = range_lo(a, b);
                let hi = range_hi(a, b);
                if lo == hi {
                    match spec_insert_after(s, lo, me) {
                        Err(err) => Err(err),
                        Ok(t) => spec_insert_before(t, lo, ms),
                    }
                } else if spec_detect(s, lo, ms) && spec_detect(s, hi, me) {
                    match spec_delete_line(s, hi) {
                        Err(err) => Err(err),
                        Ok(t) => spec_delete_line(t, lo),
                    }
                } else {
                    match spec_insert_after(s, hi, me) {
                        Err(err) => Err(err),
                        Ok(t) => spec_insert_before(t, lo, ms),
                    }
                }
            },
        },
    }
}

/// Toggle block delimiters around an inclusive line range, byte-wise, the
/// delimiters chosen by the file extension.  An unsupported extension is a
/// no-op success; a single-line range always adds.
pub fn toggle_block_comment_bytewise(
    content: &[u8],
    extension: Option<&str>,
    start_line: usize,
    end_line: usize,
) -> (r: Result<Vec<u8>, ToggleCommentError>)
    ensures
        res_view(r) == spec_toggle_block_bw(
            content@,
            ext_view(extension),
            start_line as int,
            end_line as int,
        ),
{
    let markers = match extension {
        None => {
            return Err(ToggleCommentError::NoExtension);
        },
        Some(e) => match determine_block_markers(e) {
            None => {
                return Ok(copy_bytes(content));
            },
            Some(m) => m,
        },
    };
    let (lo, hi) = sort_range(start_line, end_line);
    if lo == hi {
        let t = match insert_line_after_bytewise(content, lo, markers.end.as_slice()) {
            Err(e) => {
                return Err(e);
            },
            Ok(t) => t,
        };
        return insert_line_before_bytewise(t.as_slice(), lo, markers.start.as_slice());
    }
    let sm = detect_line_pattern(content, lo, markers.start.as_slice());
    let em = detect_line_pattern(content, hi, markers.end.as_slice());
    if sm && em {
        let t = match delete_line_bytewise(content, hi) {
            Err(e) => {
                return Err(e);
            },
            Ok(t) => t,
        };
        delete_line_bytewise(t.as_slice(), lo)
    } else {
        let t = match insert_line_after_bytewise(content, hi, markers.end.as_slice()) {
            Err(e) => {
                return Err(e);
            },
            Ok(t) => t,
        };
        insert_line_before_bytewise(t.as_slice(), lo, markers.start.as_slice())
    }
}

/// The line-level reading of the column-0 tag test: the line starts with the
/// marker and one space.
pub open spec fn bw_tagged_line(l: Seq<u8>, flag: CommentFlag) -> bool {
    let mk = marker_bytes(flag);
    let m = mk.len() as int;
    &&& l.len() >= m + 1
    &&& l.take(m) == mk
    &&& l[m] == SPACE
}

/// No marker byte is a line feed or a space.
proof fn lemma_marker_bytes_plain(flag: CommentFlag)
    ensures
        forall|j: int|
            0 <= j < marker_bytes(flag).len() ==> marker_bytes(flag)[j] != NEWLINE && marker_bytes(
                flag,
            )[j] != SPACE,
{
}

/// The byte-offset tag test at a real line's start is exactly the line-level
/// tag test: the marker-plus-space pattern cannot straddle a line boundary,
/// because none of its bytes is a line feed.
pub proof fn lemma_tagged_at_line(s: Seq<u8>, k: int, flag: CommentFlag)
    requires
        0 <= k < line_count(s),
    ensures
        bw_tagged_at(s, line_start_offset(s, k), flag) <==> bw_tagged_line(lines_of(s)[k], flag),
{
    let ls = lines_of(s);
    let l = ls[k];
    let off = line_start_offset(s, k);
    let mk = marker_bytes(flag);
    let m = mk.len() as int;
    lemma_suffix_at_line(s, k);
    lemma_lines_of_wf(s);
    lemma_marker_bytes_plain(flag);
    assert(forall|j: int| 0 <= j < l.len() ==> s[off + j] == l[j]);
    if bw_tagged_line(l, flag) {
        assert(off + m + 1 <= off + l.len() <= s.len());
        assert(s.subrange(off, off + m) =~= mk);
        assert(s[off + m] == l[m]);
    }
    if bw_tagged_at(s, off, flag) {
        if l.len() < m + 1 {
            if is_terminated_line(l) {
                assert(s[off + l.len() - 1] == l.last());
                assert(l.last() == NEWLINE);
                if l.len() - 1 < m {
                    assert(s.subrange(off, off + m)[l.len() - 1] == s[off + l.len() - 1]);
                    assert(mk[l.len() - 1] != NEWLINE);
                    assert(false);
                } else {
                    assert(l.len() - 1 == m);
                    assert(false);
                }
            } else {
                assert(k == ls.len() - 1);
                assert(join(ls.skip(k + 1)).len() == 0);
                assert(s.len() == off + l.len());
                assert(false);
            }
        }
        assert(l.take(m) =~= s.subrange(off, off + m));
        assert(l[m] == s[off + m]);
    }
}

/// The bytes before a line's start are the join of the lines before it.
pub proof fn lemma_take_at_line(s: Seq<u8>, k: int)
    requires
        0 <= k <= line_count(s),
    ensures
        s.take(line_start_offset(s, k)) == join(lines_of(s).take(k)),
{
    let ls = lines_of(s);
    lemma_join_lines_of(s);
    lemma_join_concat(ls.take(k), ls.skip(k));
    assert(ls.take(k) + ls.skip(k) =~= ls);
    assert(s.take(line_start_offset(s, k)) =~= join(ls.take(k)));
}

/// Splicing a new line in place of line `k` replaces exactly that line in
/// the decomposition.
pub proof fn lemma_replace_line(s: Seq<u8>, k: int, nl: Seq<u8>)
    requires
        0 <= k < line_count(s),
        is_line(nl),
        k < line_count(s) - 1 ==> is_terminated_line(nl),
    ensures
        ({
            let off = line_start_offset(s, k);
            let t = s.take(off) + nl + s.skip(off + lines_of(s)[k].len());
            &&& lines_of(t) == lines_of(s).update(k, nl)
            &&& line_start_offset(t, k) == off
            &&& t.take(off) == s.take(off)
            &&& t.skip(off) == nl + join(lines_of(s).skip(k + 1))
        }),
{
    let ls = lines_of(s);
    let off = line_start_offset(s, k);
    let t = s.take(off) + nl + s.skip(off + ls[k].len());
    lemma_suffix_at_line(s, k);
    lemma_take_at_line(s, k);
    lemma_lines_of_wf(s);
    assert(s.skip(off + ls[k].len()) =~= join(ls.skip(k + 1))) by {
        assert(s.skip(off) == ls[k] + join(ls.skip(k + 1)));
        assert(s.skip(off + ls[k].len()) =~= s.skip(off).skip(ls[k].len() as int));
        assert(s.skip(off).skip(ls[k].len() as int) =~= join(ls.skip(k + 1)));
    }
    let target = ls.update(k, nl);
    assert(target =~= ls.take(k) + seq![nl] + ls.skip(k + 1));
    lemma_join_concat(ls.take(k) + seq![nl], ls.skip(k + 1));
    lemma_join_concat(ls.take(k), seq![nl]);
    lemma_join_singleton(nl);
    assert(t =~= join(target));
    assert(wf_lines(target)) by {
        assert(forall|i: int| 0 <= i < target.len() && i != k ==> target[i] == ls[i]);
    }
    lemma_lines_of_join(target);
    assert(lines_of(t) == target);
    assert(target.take(k) =~= ls.take(k));
    lemma_take_at_line(t, k);
    assert(line_start_offset(t, k) == off);
    assert(t.take(off) =~= s.take(off));
    assert(t.skip(off) =~= nl + join(ls.skip(k + 1)));
}

/// Appending a fresh line at a line boundary appends it to the
/// decomposition.
pub proof fn lemma_append_line(s: Seq<u8>, nl: Seq<u8>)
    requires
        ends_at_line_boundary(s),
        is_line(nl),
    ensures
        lines_of(s + nl) == lines_of(s).push(nl),
        line_start_offset(s + nl, line_count(s) as int) == s.len(),
{
    let ls = lines_of(s);
    let t = s + nl;
    lemma_join_lines_of(s);
    lemma_lines_of_wf(s);
    lemma_join_push(ls, nl);
    assert(t =~= join(ls.push(nl)));
    assert(wf_lines(ls.push(nl))) by {
        assert(forall|i: int| 0 <= i < ls.len() ==> ls.push(nl)[i] == ls[i]);
        if ls.len() > 0 {
            assert(s.len() > 0);
            assert(s.last() == NEWLINE);
            let last = ls[ls.len() - 1];
            lemma_suffix_at_line(s, ls.len() - 1);
            assert(ls.skip(ls.len() as int).len() == 0);
            assert(join(ls.skip(ls.len() as int)) =~= Seq::<u8>::empty());
            assert(s.skip(line_start_offset(s, ls.len() - 1)) =~= last);
            assert(last.len() > 0);
            assert(last.last() == s.last());
            assert(is_terminated_line(last));
        }
    }
    lemma_lines_of_join(ls.push(nl));
    assert(lines_of(t) == ls.push(nl));
    lemma_take_at_line(t, ls.len() as int);
    assert(ls.push(nl).take(ls.len() as int) =~= ls);
}

/// Inserting a terminated line at a line's start inserts exactly that line
/// into the decomposition.
pub proof fn lemma_insert_line(s: Seq<u8>, k: int, nl: Seq<u8>)
    requires
        0 <= k <= line_count(s),
        is_terminated_line(nl),
        k == line_count(s) ==> ends_at_line_boundary(s),
    ensures
        lines_of(s.take(line_start_offset(s, k)) + nl + s.skip(line_start_offset(s, k)))
            == lines_of(s).insert(k, nl),
{
    let ls = lines_of(s);
    let off = line_start_offset(s, k);
    lemma_take_at_line(s, k);
    lemma_offset_in_bounds(s, k);
    lemma_join_lines_of(s);
    lemma_lines_of_wf(s);
    let t = s.take(off) + nl + s.skip(off);
    assert(s.skip(off) =~= join(ls.skip(k))) by {
        lemma_join_concat(ls.take(k), ls.skip(k));
        assert(ls.take(k) + ls.skip(k) =~= ls);
    }
    let target = ls.insert(k, nl);
    assert(target =~= ls.take(k) + seq![nl] + ls.skip(k));
    lemma_join_concat(ls.take(k) + seq![nl], ls.skip(k));
    lemma_join_concat(ls.take(k), seq![nl]);
    lemma_join_singleton(nl);
    assert(t =~= join(target));
    assert(wf_lines(target)) by {
        assert(forall|i: int| 0 <= i < k ==> target[i] == ls[i]);
        assert(forall|i: int| k < i < target.len() ==> target[i] == ls[i - 1]);
        if k == ls.len() && ls.len() > 0 {
            let last = ls[ls.len() - 1];
            lemma_suffix_at_line(s, ls.len() - 1);
            assert(ls.skip(ls.len() as int).len() == 0);
            assert(join(ls.skip(ls.len() as int)) =~= Seq::<u8>::empty());
            assert(s.skip(line_start_offset(s, ls.len() - 1)) =~= last);
            assert(last.len() > 0);
            assert(s.len() > 0 && s.last() == NEWLINE);
            assert(last.last() == s.last());
            assert(is_terminated_line(last));
        }
    }
    lemma_lines_of_join(target);
}

/// Toggling the same line twice, byte-wise, gives the file back, provided a
/// removed marker does not leave a line that is empty or itself still
/// tagged.  This also covers the position just past a final newline: the
/// first toggle appends a tag line, the second removes it.
#[verifier::rlimit(100)]
pub proof fn lemma_toggle_bw_roundtrip(s: Seq<u8>, k: int, flag: CommentFlag)
    requires
        addressable_line(s, k),
        k < line_count(s) && bw_tagged_line(lines_of(s)[k], flag) ==> ({
            let nl = lines_of(s)[k].skip(marker_bytes(flag).len() as int + 1);
            nl.len() > 0 && !bw_tagged_line(nl, flag)
        }),
    ensures
        spec_toggle_line_bw(s, k, flag) is Ok,
        spec_toggle_line_bw(spec_toggle_line_bw(s, k, flag)->Ok_0, k, flag) == Ok::<
            Seq<u8>,
            ToggleCommentError,
        >(s),
{
    let ls = lines_of(s);
    let off = line_start_offset(s, k);
    let mk = marker_bytes(flag);
    let m = mk.len() as int;
    let t = spec_toggle_line_bw(s, k, flag)->Ok_0;
    lemma_marker_bytes_plain(flag);
    lemma_lines_of_wf(s);
    assert(mk[0] != SPACE && mk[0] != NEWLINE);
    if k < ls.len() {
        let l = ls[k];
        lemma_tagged_at_line(s, k, flag);
        lemma_suffix_at_line(s, k);
        if bw_tagged_at(s, off, flag) {
            // remove, then add back
            let nl = l.skip(m + 1);
            assert(nl.len() > 0 && !bw_tagged_line(nl, flag));
            assert(is_line(nl)) by {
                assert(forall|i: int| 0 <= i < nl.len() ==> nl[i] == l[i + m + 1]);
                if is_terminated_line(l) {
                    assert(nl.last() == l.last());
                    assert(is_terminated_line(nl));
                } else {
                    assert(forall|i: int| 0 <= i < l.len() ==> l[i] != NEWLINE);
                }
            }
            assert(t =~= s.take(off) + nl + s.skip(off + l.len())) by {
                assert(s.skip(off + m + 1) =~= s.skip(off).skip(m + 1));
                assert((l + join(ls.skip(k + 1))).skip(m + 1) =~= nl + join(ls.skip(k + 1)));
                assert(s.skip(off + l.len()) =~= s.skip(off).skip(l.len() as int));
                assert((l + join(ls.skip(k + 1))).skip(l.len() as int) =~= join(ls.skip(k + 1)));
            }
            lemma_replace_line(s, k, nl);
            assert(lines_of(t) == ls.update(k, nl));
            assert(lines_of(t)[k] == nl);
            assert(line_start_offset(t, k) == off);
            assert(addressable_line(t, k));
            lemma_tagged_at_line(t, k, flag);
            assert(!bw_tagged_at(t, off, flag));
            // the second toggle inserts the marker back at off
            assert(spec_toggle_line_bw(t, k, flag) == Ok::<Seq<u8>, ToggleCommentError>(
                t.take(off) + mk + seq![SPACE] + t.skip(off),
            ));
            assert(t.take(off) == s.take(off));
            assert(t.skip(off) == nl + join(ls.skip(k + 1)));
            assert(l =~= mk + seq![SPACE] + nl) by {
                assert(l.take(m) == mk);
                assert(l[m] == SPACE);
            }
            assert(t.take(off) + mk + seq![SPACE] + t.skip(off) =~= s.take(off) + l + join(
                ls.skip(k + 1),
            ));
            assert(s.take(off) + l + join(ls.skip(k + 1)) =~= s) by {
                assert(s.skip(off) == l + join(ls.skip(k + 1)));
                assert(s.take(off) + s.skip(off) =~= s);
            }
        } else {
            // add, then remove
            let nl = mk + seq![SPACE] + l;
            assert(is_line(nl)) by {
                assert(forall|i: int| 0 <= i < l.len() ==> nl[i + m + 1] == l[i]);
                if is_terminated_line(l) {
                    assert(nl.last() == l.last());
                    assert(forall|i: int| 0 <= i < nl.len() - 1 ==> nl[i] != NEWLINE);
                    assert(is_terminated_line(nl));
                } else {
                    assert(forall|i: int| 0 <= i < nl.len() ==> nl[i] != NEWLINE);
                }
            }
            assert(t =~= s.take(off) + nl + s.skip(off + l.len())) by {
                assert(s.skip(off) =~= l + join(ls.skip(k + 1)));
            }
            lemma_replace_line(s, k, nl);
            assert(lines_of(t) == ls.update(k, nl));
            assert(line_start_offset(t, k) == off);
            assert(addressable_line(t, k));
            lemma_tagged_at_line(t, k, flag);
            assert(bw_tagged_line(nl, flag)) by {
                assert(nl.take(m) =~= mk);
                assert(nl[m] == SPACE);
            }
            assert(bw_tagged_at(t, off, flag));
            assert(spec_toggle_line_bw(t, k, flag) == Ok::<Seq<u8>, ToggleCommentError>(
                t.take(off) + t.skip(off + m + 1),
            ));
            assert(t.take(off) == s.take(off));
            assert(t.skip(off) == nl + join(ls.skip(k + 1)));
            assert(t.skip(off + m + 1) =~= l + join(ls.skip(k + 1)));
            assert(t.take(off) + t.skip(off + m + 1) =~= s) by {
                assert(s.skip(off) == l + join(ls.skip(k + 1)));
                assert(s.take(off) + s.skip(off) =~= s);
            }
        }
    } else {
        // the empty position after the final newline: add a fresh tag line,
        // then remove it
        lemma_offset_in_bounds(s, k);
        assert(off == s.len());
        assert(!bw_tagged_at(s, off, flag));
        let nl = mk + seq![SPACE];
        assert(t =~= s + nl) by {
            assert(s.take(off) =~= s);
            assert(s.skip(off).len() == 0);
        }
        assert(is_line(nl)) by {
            assert(forall|i: int| 0 <= i < nl.len() ==> nl[i] != NEWLINE);
        }
        lemma_append_line(s, nl);
        assert(lines_of(t) == ls.push(nl));
        assert(lines_of(t)[k] == nl);
        assert(k < line_count(t));
        assert(line_start_offset(t, k) == off);
        lemma_tagged_at_line(t, k, flag);
        assert(bw_tagged_line(nl, flag)) by {
            assert(nl.take(m) =~= mk);
            assert(nl[m] == SPACE);
        }
        assert(bw_tagged_at(t, off, flag));
        assert(spec_toggle_line_bw(t, k, flag) == Ok::<Seq<u8>, ToggleCommentError>(
            t.take(off) + t.skip(off + m + 1),
        ));
        assert(t.take(off) =~= s);
        assert(t.skip(off + m + 1).len() == 0);
        assert(t.take(off) + t.skip(off + m + 1) =~= s);
    }
}

/// One line toggled byte-wise, at the line level.
pub open spec fn bw_toggle_line(l: Seq<u8>, flag: CommentFlag) -> Seq<u8> {
    let mk = marker_bytes(flag);
    if bw_tagged_line(l, flag) {
        l.skip(mk.len() as int + 1)
    } else {
        mk + seq![SPACE] + l
    }
}

/// A byte-wise toggle keeps the line a line and keeps its terminator,
/// whenever it leaves the line nonempty.
pub proof fn lemma_bw_toggle_line_shape(l: Seq<u8>, flag: CommentFlag)
    requires
        is_line(l),
        bw_toggle_line(l, flag).len() > 0,
    ensures
        is_line(bw_toggle_line(l, flag)),
        is_terminated_line(l) ==> is_terminated_line(bw_toggle_line(l, flag)),
{
    let mk = marker_bytes(flag);
    let m = mk.len() as int;
    let r = bw_toggle_line(l, flag);
    lemma_marker_bytes_plain(flag);
    if bw_tagged_line(l, flag) {
        assert(forall|i: int| 0 <= i < r.len() ==> r[i] == l[i + m + 1]);
        if is_terminated_line(l) {
            assert(r.last() == l.last());
            assert(is_terminated_line(r));
        } else {
            assert(forall|i: int| 0 <= i < l.len() ==> l[i] != NEWLINE);
        }
    } else {
        assert(forall|i: int| 0 <= i < l.len() ==> r[i + m + 1] == l[i]);
        if is_terminated_line(l) {
            assert(r.last() == l.last());
            assert(forall|i: int| 0 <= i < r.len() - 1 ==> r[i] != NEWLINE);
            assert(is_terminated_line(r));
        } else {
            assert(forall|i: int| 0 <= i < r.len() ==> r[i] != NEWLINE);
        }
    }
}

/// A byte-wise toggle of one line twice gives the line back, provided a
/// removed marker leaves a line that is nonempty and not itself tagged.
pub proof fn lemma_bw_toggle_line_roundtrip(l: Seq<u8>, flag: CommentFlag)
    requires
        is_line(l),
        bw_tagged_line(l, flag) ==> ({
            let nl = l.skip(marker_bytes(flag).len() as int + 1);
            nl.len() > 0 && !bw_tagged_line(nl, flag)
        }),
    ensures
        bw_toggle_line(bw_toggle_line(l, flag), flag) == l,
{
    let mk = marker_bytes(flag);
    let m = mk.len() as int;
    lemma_marker_bytes_plain(flag);
    if bw_tagged_line(l, flag) {
        let nl = l.skip(m + 1);
        assert(!bw_tagged_line(nl, flag));
        assert(bw_toggle_line(nl, flag) == mk + seq![SPACE] + nl);
        assert(mk + seq![SPACE] + nl =~= l) by {
            assert(l.take(m) == mk);
            assert(l[m] == SPACE);
        }
    } else {
        let nl = mk + seq![SPACE] + l;
        assert(bw_tagged_line(nl, flag)) by {
            assert(nl.take(m) =~= mk);
            assert(nl[m] == SPACE);
        }
        assert(bw_toggle_line(nl, flag) == nl.skip(m + 1));
        assert(nl.skip(m + 1) =~= l);
    }
}

/// The byte-wise single-line toggle, seen at the line level: it replaces
/// exactly line `k` with its toggled form.
pub proof fn lemma_toggle_line_bw_lines_view(s: Seq<u8>, k: int, flag: CommentFlag)
    requires
        0 <= k < line_count(s),
        bw_toggle_line(lines_of(s)[k], flag).len() > 0,
    ensures
        spec_toggle_line_bw(s, k, flag) == Ok::<Seq<u8>, ToggleCommentError>(
            join(lines_of(s).update(k, bw_toggle_line(lines_of(s)[k], flag))),
        ),
        lines_of(spec_toggle_line_bw(s, k, flag)->Ok_0) == lines_of(s).update(
            k,
            bw_toggle_line(lines_of(s)[k], flag),
        ),
{
    let ls = lines_of(s);
    let l = ls[k];
    let off = line_start_offset(s, k);
    let mk = marker_bytes(flag);
    let m = mk.len() as int;
    let nl = bw_toggle_line(l, flag);
    lemma_lines_of_wf(s);
    lemma_tagged_at_line(s, k, flag);
    lemma_suffix_at_line(s, k);
    lemma_bw_toggle_line_shape(l, flag);
    let t = spec_toggle_line_bw(s, k, flag)->Ok_0;
    if bw_tagged_at(s, off, flag) {
        assert(t =~= s.take(off) + nl + s.skip(off + l.len())) by {
            assert(s.skip(off + m + 1) =~= s.skip(off).skip(m + 1));
            assert((l + join(ls.skip(k + 1))).skip(m + 1) =~= nl + join(ls.skip(k + 1)));
            assert(s.skip(off + l.len()) =~= s.skip(off).skip(l.len() as int));
            assert((l + join(ls.skip(k + 1))).skip(l.len() as int) =~= join(ls.skip(k + 1)));
        }
    } else {
        assert(t =~= s.take(off) + nl + s.skip(off + l.len())) by {
            assert(s.skip(off) =~= l + join(ls.skip(k + 1)));
        }
    }
    lemma_replace_line(s, k, nl);
    assert(lines_of(t) == ls.update(k, nl));
    lemma_join_lines_of(t);
    assert(t == join(ls.update(k, nl)));
}

/// A byte-wise range toggle over real lines is a pointwise map: each line in
/// the range toggled once, each line outside carried over.
pub proof fn lemma_toggle_range_bw_pointwise(s: Seq<u8>, flag: CommentFlag, i: int, hi: int)
    requires
        0 <= i,
        hi < line_count(s),
        forall|j: int|
            i <= j <= hi ==> bw_toggle_line(#[trigger] lines_of(s)[j], flag).len() > 0,
    ensures
        spec_toggle_range_bw(s, flag, i, hi) == Ok::<Seq<u8>, ToggleCommentError>(
            join(
                Seq::new(
                    line_count(s),
                    |j: int|
                        if i <= j <= hi {
                            bw_toggle_line(lines_of(s)[j], flag)
                        } else {
                            lines_of(s)[j]
                        },
                ),
            ),
        ),
    decreases hi + 1 - i,
{
    let ls = lines_of(s);
    let target = Seq::new(
        line_count(s),
        |j: int|
            if i <= j <= hi {
                bw_toggle_line(ls[j], flag)
            } else {
                ls[j]
            },
    );
    if i > hi {
        assert(target =~= ls);
        lemma_join_lines_of(s);
        assert(spec_toggle_range_bw(s, flag, i, hi) == Ok::<Seq<u8>, ToggleCommentError>(s));
    } else {
        lemma_toggle_line_bw_lines_view(s, i, flag);
        let t = spec_toggle_line_bw(s, i, flag)->Ok_0;
        let ls1 = ls.update(i, bw_toggle_line(ls[i], flag));
        assert(lines_of(t) == ls1);
        assert(forall|j: int| i + 1 <= j <= hi ==> #[trigger] lines_of(t)[j] == ls[j]);
        lemma_toggle_range_bw_pointwise(t, flag, i + 1, hi);
        let target1 = Seq::new(
            line_count(t),
            |j: int|
                if i + 1 <= j <= hi {
                    bw_toggle_line(lines_of(t)[j], flag)
                } else {
                    lines_of(t)[j]
                },
        );
        assert(target1 =~= target);
        assert(spec_toggle_range_bw(s, flag, i, hi) == spec_toggle_range_bw(t, flag, i + 1, hi));
    }
}

/// A byte-wise range toggle, done twice, gives the file back, under the
/// line-level round-trip condition on every line of the range.
pub proof fn lemma_toggle_range_bw_roundtrip(s: Seq<u8>, flag: CommentFlag, lo: int, hi: int)
    requires
        0 <= lo,
        hi < line_count(s),
        forall|j: int|
            lo <= j <= hi ==> (bw_tagged_line(#[trigger] lines_of(s)[j], flag) ==> ({
                let nl = lines_of(s)[j].skip(marker_bytes(flag).len() as int + 1);
                nl.len() > 0 && !bw_tagged_line(nl, flag)
            })),
    ensures
        spec_toggle_range_bw(s, flag, lo, hi) is Ok,
        spec_toggle_range_bw(spec_toggle_range_bw(s, flag, lo, hi)->Ok_0, flag, lo, hi) == Ok::<
            Seq<u8>,
            ToggleCommentError,
        >(s),
{
    let ls = lines_of(s);
    let mk = marker_bytes(flag);
    let m = mk.len() as int;
    lemma_lines_of_wf(s);
    lemma_marker_bytes_plain(flag);
    assert forall|j: int| lo <= j <= hi implies bw_toggle_line(#[trigger] ls[j], flag).len()
        > 0 by {
        if !bw_tagged_line(ls[j], flag) {
            assert(bw_toggle_line(ls[j], flag).len() == m + 1 + ls[j].len());
        }
    }
    lemma_toggle_range_bw_pointwise(s, flag, lo, hi);
    let target = Seq::new(
        line_count(s),
        |j: int|
            if lo <= j <= hi {
                bw_toggle_line(ls[j], flag)
            } else {
                ls[j]
            },
    );
    let t = spec_toggle_range_bw(s, flag, lo, hi)->Ok_0;
    assert(t == join(target));
    assert(wf_lines(target)) by {
        assert forall|j: int| 0 <= j < target.len() implies is_line(#[trigger] target[j]) && (j
            < target.len() - 1 ==> is_terminated_line(target[j])) by {
            if lo <= j <= hi {
                lemma_bw_toggle_line_shape(ls[j], flag);
            }
        }
    }
    lemma_lines_of_join(target);
    assert(lines_of(t) == target);
    assert forall|j: int| lo <= j <= hi implies bw_toggle_line(
        #[trigger] lines_of(t)[j],
        flag,
    ).len() > 0 && bw_toggle_line(bw_toggle_line(ls[j], flag), flag) == ls[j] by {
        lemma_bw_toggle_line_roundtrip(ls[j], flag);
        if bw_toggle_line(bw_toggle_line(ls[j], flag), flag).len() == 0 {
            assert(ls[j].len() == 0);
        }
    }
    lemma_toggle_range_bw_pointwise(t, flag, lo, hi);
    let target2 = Seq::new(
        line_count(t),
        |j: int|
            if lo <= j <= hi {
                bw_toggle_line(lines_of(t)[j], flag)
            } else {
                lines_of(t)[j]
            },
    );
    assert(target2 =~= ls);
    lemma_join_lines_of(s);
}

/// Exact-match block detection: a full-line pattern (ending in `\n`) matches
/// a real line exactly when the line is, byte for byte, that pattern.  A
/// line carrying the delimiter bytes plus anything else never matches.
pub proof fn lemma_detect_exact_match(s: Seq<u8>, k: int, pattern: Seq<u8>)
    requires
        0 <= k < line_count(s),
        is_terminated_line(pattern),
    ensures
        spec_detect(s, k, pattern) <==> lines_of(s)[k] == pattern,
{
    let ls = lines_of(s);
    let l = ls[k];
    let off = line_start_offset(s, k);
    let plen = pattern.len() as int;
    lemma_suffix_at_line(s, k);
    lemma_lines_of_wf(s);
    assert(forall|i: int| 0 <= i < l.len() ==> s[off + i] == l[i]);
    if l == pattern {
        assert(s.subrange(off, off + plen) =~= pattern);
    }
    if spec_detect(s, k, pattern) {
        assert(s[off + plen - 1] == pattern.last());
        if plen < l.len() {
            assert(l[plen - 1] == NEWLINE);
            assert(is_line(l));
            assert(false);
        }
        if plen > l.len() {
            if is_terminated_line(l) {
                assert(s[off + l.len() - 1] == l.last());
                assert(pattern[l.len() - 1] == NEWLINE);
                assert(l.len() - 1 < plen - 1);
                assert(false);
            } else {
                assert(k == ls.len() - 1);
                assert(join(ls.skip(k + 1)).len() == 0);
                assert(s.len() == off + l.len());
                assert(false);
            }
        }
        assert(l =~= s.subrange(off, off + plen));
    }
}

/// Boundary-order safety for a block add: inserting the end delimiter after
/// line `hi` first and the start delimiter before line `lo` second yields
/// the three-part layout — the untouched prefix, the start delimiter, the
/// range's lines, the end delimiter, the untouched suffix.
pub proof fn lemma_block_add_layout(s: Seq<u8>, lo: int, hi: int, ms: Seq<u8>, me: Seq<u8>)
    requires
        0 <= lo < hi < line_count(s),
        is_terminated_line(ms),
        is_terminated_line(me),
        is_terminated_line(lines_of(s)[hi]),
    ensures
        spec_insert_after(s, hi, me) is Ok,
        spec_insert_before(spec_insert_after(s, hi, me)->Ok_0, lo, ms) == Ok::<
            Seq<u8>,
            ToggleCommentError,
        >(
            join(
                lines_of(s).take(lo) + seq![ms] + lines_of(s).subrange(lo, hi + 1) + seq![me]
                    + lines_of(s).skip(hi + 1),
            ),
        ),
{
    let ls = lines_of(s);
    let off_hi = line_start_offset(s, hi);
    let e = off_hi + ls[hi].len();
    lemma_suffix_at_line(s, hi);
    lemma_lines_of_wf(s);
    assert(s[e - 1] == ls[hi].last()) by {
        assert(forall|i: int| 0 <= i < ls[hi].len() ==> s[off_hi + i] == ls[hi][i]);
    }
    assert(first_line_len(s.skip(off_hi)) == ls[hi].len());
    assert(spec_insert_after(s, hi, me) == Ok::<Seq<u8>, ToggleCommentError>(
        s.take(e) + me + s.skip(e),
    ));
    let t = s.take(e) + me + s.skip(e);
    assert(e == line_start_offset(s, hi + 1));
    lemma_insert_line(s, hi + 1, me);
    let ls2 = ls.insert(hi + 1, me);
    assert(lines_of(t) == ls2);
    assert(ls2.take(lo) =~= ls.take(lo));
    lemma_take_at_line(t, lo);
    lemma_take_at_line(s, lo);
    let off_lo = line_start_offset(s, lo);
    assert(line_start_offset(t, lo) == off_lo);
    assert(lo < line_count(t));
    assert(spec_insert_before(t, lo, ms) == Ok::<Seq<u8>, ToggleCommentError>(
        t.take(off_lo) + ms + t.skip(off_lo),
    ));
    assert(t.take(off_lo) == join(ls.take(lo)));
    assert(t.skip(off_lo) =~= join(ls2.skip(lo))) by {
        lemma_join_lines_of(t);
        lemma_join_concat(ls2.take(lo), ls2.skip(lo));
        assert(ls2.take(lo) + ls2.skip(lo) =~= ls2);
    }
    assert(ls2.skip(lo) =~= ls.subrange(lo, hi + 1) + seq![me] + ls.skip(hi + 1));
    let target = ls.take(lo) + seq![ms] + ls.subrange(lo, hi + 1) + seq![me] + ls.skip(hi + 1);
    lemma_join_concat(
        ls.take(lo) + seq![ms] + ls.subrange(lo, hi + 1) + seq![me],
        ls.skip(hi + 1),
    );
    lemma_join_concat(ls.take(lo) + seq![ms] + ls.subrange(lo, hi + 1), seq![me]);
    lemma_join_concat(ls.take(lo) + seq![ms], ls.subrange(lo, hi + 1));
    lemma_join_concat(ls.take(lo), seq![ms]);
    lemma_join_singleton(ms);
    lemma_join_singleton(me);
    lemma_join_concat(ls.subrange(lo, hi + 1) + seq![me], ls.skip(hi + 1));
    lemma_join_concat(ls.subrange(lo, hi + 1), seq![me]);
    assert(join(ls2.skip(lo)) =~= join(ls.subrange(lo, hi + 1)) + me + join(ls.skip(hi + 1)))
        by {
        lemma_join_concat(ls.subrange(lo, hi + 1) + seq![me], ls.skip(hi + 1));
    }
    assert(t.take(off_lo) + ms + t.skip(off_lo) =~= join(target));
}

/// Boundary-order safety for a block remove: deleting the end delimiter line
/// first and the start delimiter line second removes exactly those two
/// lines, leaving the three remaining parts in order.
pub proof fn lemma_block_remove_layout(s: Seq<u8>, lo: int, hi: int)
    requires
        0 <= lo < hi < line_count(s),
    ensures
        spec_delete_line(s, hi) is Ok,
        spec_delete_line(spec_delete_line(s, hi)->Ok_0, lo) == Ok::<Seq<u8>, ToggleCommentError>(
            join(lines_of(s).take(lo) + lines_of(s).subrange(lo + 1, hi) + lines_of(s).skip(hi + 1)),
        ),
{
    let ls = lines_of(s);
    let off_hi = line_start_offset(s, hi);
    lemma_suffix_at_line(s, hi);
    lemma_take_at_line(s, hi);
    lemma_lines_of_wf(s);
    assert(spec_delete_line(s, hi) == Ok::<Seq<u8>, ToggleCommentError>(
        s.take(off_hi) + s.skip(off_hi + ls[hi].len()),
    ));
    let t = s.take(off_hi) + s.skip(off_hi + ls[hi].len());
    let mid = ls.take(hi) + ls.skip(hi + 1);
    assert(s.skip(off_hi + ls[hi].len()) =~= join(ls.skip(hi + 1))) by {
        assert(s.skip(off_hi) == ls[hi] + join(ls.skip(hi + 1)));
        assert(s.skip(off_hi + ls[hi].len()) =~= s.skip(off_hi).skip(ls[hi].len() as int));
        assert(s.skip(off_hi).skip(ls[hi].len() as int) =~= join(ls.skip(hi + 1)));
    }
    lemma_join_concat(ls.take(hi), ls.skip(hi + 1));
    assert(t =~= join(mid));
    assert(wf_lines(mid)) by {
        assert(forall|i: int| 0 <= i < hi ==> mid[i] == ls[i]);
        assert(forall|i: int| hi <= i < mid.len() ==> mid[i] == ls[i + 1]);
    }
    lemma_lines_of_join(mid);
    assert(lines_of(t) == mid);
    assert(mid.take(lo) =~= ls.take(lo));
    lemma_take_at_line(t, lo);
    lemma_take_at_line(s, lo);
    let off_lo = line_start_offset(s, lo);
    assert(line_start_offset(t, lo) == off_lo);
    assert(lo < line_count(t));
    lemma_suffix_at_line(t, lo);
    assert(mid[lo] == ls[lo]);
    assert(spec_delete_line(t, lo) == Ok::<Seq<u8>, ToggleCommentError>(
        t.take(off_lo) + t.skip(off_lo + ls[lo].len()),
    ));
    assert(t.skip(off_lo + ls[lo].len()) =~= join(mid.skip(lo + 1))) by {
        assert(t.skip(off_lo) == mid[lo] + join(mid.skip(lo + 1)));
        assert(t.skip(off_lo + ls[lo].len()) =~= t.skip(off_lo).skip(ls[lo].len() as int));
        assert(t.skip(off_lo).skip(ls[lo].len() as int) =~= join(mid.skip(lo + 1)));
    }
    assert(mid.skip(lo + 1) =~= ls.subrange(lo + 1, hi) + ls.skip(hi + 1));
    let target = ls.take(lo) + ls.subrange(lo + 1, hi) + ls.skip(hi + 1);
    lemma_join_concat(ls.take(lo) + ls.subrange(lo + 1, hi), ls.skip(hi + 1));
    lemma_join_concat(ls.take(lo), ls.subrange(lo + 1, hi));
    lemma_join_concat(ls.subrange(lo + 1, hi), ls.skip(hi + 1));
    assert(t.take(off_lo) == join(ls.take(lo)));
    assert(t.take(off_lo) + t.skip(off_lo + ls[lo].len()) =~= join(target));
}

} // verus!
