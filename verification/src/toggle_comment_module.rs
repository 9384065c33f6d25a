//! Line-buffered editing engine.
//!
//! This engine reads a file as a sequence of whole lines and rewrites one
//! line, a range of lines, or a batch of listed lines.  Comment detection
//! tolerates leading spaces before the marker (the marker plus exactly one
//! space, within the first [`MAX_SCAN_BYTES`] bytes of the line); removal
//! takes out the marker and its space and keeps the leading spaces, while
//! adding always puts the marker at column 0.  Every line longer than
//! [`MAX_LINE_LENGTH`] bytes is rejected before any edit is reported.

use crate::lines::{
    append_range, append_slice, bytes_eq, has_no_newline, is_line, is_terminated_line, join,
    lemma_join_concat, lemma_join_lines_of, lemma_join_push, lemma_join_singleton,
    lemma_lines_of_join, lemma_lines_of_wf, lines_of, res_view, split_lines, wf_lines,
    CARRIAGE_RETURN, NEWLINE, SPACE,
};
use vstd::prelude::*;
use vstd::string::StringSliceAdditionalSpecFns;

verus! {

/// How many bytes at the start of a line are scanned for a comment marker.
pub const MAX_SCAN_BYTES: usize = 64;

/// Longest line this engine accepts, in bytes including the terminator.
pub const MAX_LINE_LENGTH: usize = 1_000_000;

/// Most lines one range or batch operation may touch.
pub const MAX_BATCH_LINES: usize = 128;

/// Spaces added or removed by one indent step.
pub const INDENT_SPACES: usize = 4;

/// Specific I/O operations that can fail.
///
/// The engine itself works on in-memory bytes and never performs I/O; the
/// caller that streams files maps its failures onto these stages.
#[derive(Debug, Clone, Copy, PartialEq, Eq, Structural)]
pub enum IoOperation {
    /// Creating backup file
    Backup,
    /// Opening source file for reading
    Open,
    /// Creating temporary/destination file
    Create,
    /// Reading line from file
    Read,
    /// Writing line to file
    Write,
    /// Flushing write buffer
    Flush,
    /// Replacing original file with modified version
    Replace,
}

/// Errors that can occur during comment toggling operations.
#[derive(Debug, Clone, Copy, PartialEq, Eq, Structural)]
pub enum ToggleError {
    /// The specified file was not found
    FileNotFound,
    /// File has no extension
    NoExtension,
    /// File extension not recognized/supported
    UnsupportedExtension,
    /// The requested line index exceeds the file's line count
    LineNotFound { requested: usize, file_lines: usize },
    /// I/O operation failed
    IoError(IoOperation),
    /// Path conversion or manipulation error
    PathError,
    /// Line exceeds maximum safe length
    LineTooLong { line_number: usize, length: usize },
    /// Block comment markers are inconsistent (only one present)
    InconsistentBlockMarkers,
    /// Range exceeds maximum allowed lines
    RangeTooLarge { requested: usize, max: usize },
}

/// Errors that can occur during indent/unindent operations.
#[derive(Debug, Clone, Copy, PartialEq, Eq, Structural)]
pub enum IndentError {
    /// The specified file was not found
    FileNotFound,
    /// The requested line index exceeds the file's line count
    LineNotFound { requested: usize, file_lines: usize },
    /// I/O operation failed
    IoError(IoOperation),
    /// Path conversion or manipulation error
    PathError,
    /// Line exceeds maximum safe length
    LineTooLong { line_number: usize, length: usize },
}

/// Exit code for each toggle failure.
pub open spec fn spec_toggle_exit_code(error: ToggleError) -> int {
    match error {
        ToggleError::FileNotFound => 2,
        ToggleError::NoExtension => 3,
        ToggleError::UnsupportedExtension => 4,
        ToggleError::LineNotFound { .. } => 5,
        ToggleError::IoError(_) => 6,
        ToggleError::PathError => 7,
        ToggleError::LineTooLong { .. } => 8,
        ToggleError::InconsistentBlockMarkers => 9,
        ToggleError::RangeTooLarge { .. } => 10,
    }
}

/// Convert a [`ToggleError`] to its process exit code.
pub fn error_to_exit_code(error: ToggleError) -> (r: i32)
    ensures
        r == spec_toggle_exit_code(error),
{
    match error {
        ToggleError::FileNotFound => 2,
        ToggleError::NoExtension => 3,
        ToggleError::UnsupportedExtension => 4,
        ToggleError::LineNotFound { .. } => 5,
        ToggleError::IoError(_) => 6,
        ToggleError::PathError => 7,
        ToggleError::LineTooLong { .. } => 8,
        ToggleError::InconsistentBlockMarkers => 9,
        ToggleError::RangeTooLarge { .. } => 10,
    }
}

/// Exit code for each indent failure; same mapping as the toggle codes.
pub open spec fn spec_indent_exit_code(error: IndentError) -> int {
    match error {
        IndentError::FileNotFound => 2,
        IndentError::LineNotFound { .. } => 5,
        IndentError::IoError(_) => 6,
        IndentError::PathError => 7,
        IndentError::LineTooLong { .. } => 8,
    }
}

/// Convert an [`IndentError`] to its process exit code.
pub fn indent_error_to_exit_code(error: IndentError) -> (r: i32)
    ensures
        r == spec_indent_exit_code(error),
{
    match error {
        IndentError::FileNotFound => 2,
        IndentError::LineNotFound { .. } => 5,
        IndentError::IoError(_) => 6,
        IndentError::PathError => 7,
        IndentError::LineTooLong { .. } => 8,
    }
}

/// Comment flag type for different language syntaxes.
#[derive(Debug, Clone, Copy, PartialEq, Eq, Structural)]
pub enum CommentFlag {
    /// Triple slash for Rust doc comments
    TripppleSlash,
    /// Double-slash comments (Rust, C, C++, JavaScript, ...)
    DoubleSlash,
    /// Hash comments (Python, Shell, TOML, ...)
    Hash,
}

/// The marker's bytes: `///`, `//`, or `#`.
pub open spec fn marker_bytes(flag: CommentFlag) -> Seq<u8> {
    match flag {
        CommentFlag::TripppleSlash => seq![47u8, 47u8, 47u8],
        CommentFlag::DoubleSlash => seq![47u8, 47u8],
        CommentFlag::Hash => seq![35u8],
    }
}

impl CommentFlag {
    /// The marker as bytes.
    pub fn as_bytes(&self) -> (r: Vec<u8>)
        ensures
            r@ == marker_bytes(*self),
    {
        let mut r: Vec<u8> = Vec::new();
        match self {
            CommentFlag::TripppleSlash => {
                r.push(47);
                r.push(47);
                r.push(47);
            },
            CommentFlag::DoubleSlash => {
                r.push(47);
                r.push(47);
            },
            CommentFlag::Hash => {
                r.push(35);
            },
        }
        proof {
            assert(r@ =~= marker_bytes(*self));
        }
        r
    }

    /// The marker as a string slice.
    pub fn as_str(&self) -> (r: &'static str)
        ensures
            r.spec_bytes() == marker_bytes(*self),
            r@.len() == marker_bytes(*self).len(),
    {
        match self {
            CommentFlag::TripppleSlash => {
                let r = "///";
                proof {
                    reveal_strlit("///");
                    assert(r@ =~= seq!['/', '/', '/']);
                    vstd::string::is_ascii_spec_bytes(r);
                    assert(r.spec_bytes() =~= marker_bytes(*self));
                }
                r
            },
            CommentFlag::DoubleSlash => {
                let r = "//";
                proof {
                    reveal_strlit("//");
                    assert(r@ =~= seq!['/', '/']);
                    vstd::string::is_ascii_spec_bytes(r);
                    assert(r.spec_bytes() =~= marker_bytes(*self));
                }
                r
            },
            CommentFlag::Hash => {
                let r = "#";
                proof {
                    reveal_strlit("#");
                    assert(r@ =~= seq!['#']);
                    vstd::string::is_ascii_spec_bytes(r);
                    assert(r.spec_bytes() =~= marker_bytes(*self));
                }
                r
            },
        }
    }
}

/// Length of the line's terminator: 2 for `\r\n`, 1 for `\n`, else 0.
pub open spec fn terminator_len(l: Seq<u8>) -> int {
    if l.len() >= 2 && l[l.len() - 2] == CARRIAGE_RETURN && l[l.len() - 1] == NEWLINE {
        2
    } else if l.len() >= 1 && l[l.len() - 1] == NEWLINE {
        1
    } else {
        0
    }
}

/// The line without its terminator.
pub open spec fn line_content(l: Seq<u8>) -> Seq<u8> {
    l.take(l.len() - terminator_len(l))
}

/// The line's terminator alone.
pub open spec fn line_terminator(l: Seq<u8>) -> Seq<u8> {
    l.skip(l.len() - terminator_len(l))
}

/// Content followed by terminator is the whole line again.
pub proof fn lemma_content_terminator(l: Seq<u8>)
    ensures
        line_content(l) + line_terminator(l) == l,
{
    assert(line_content(l) + line_terminator(l) =~= l);
}

/// Number of leading space bytes.
pub open spec fn leading_spaces(l: Seq<u8>) -> nat
    decreases l.len(),
{
    if l.len() > 0 && l[0] == SPACE {
        1 + leading_spaces(l.skip(1))
    } else {
        0
    }
}

/// The leading-space run: every byte before it is a space and the byte after
/// it, if any, is not.
pub proof fn lemma_leading_spaces(l: Seq<u8>)
    ensures
        leading_spaces(l) <= l.len(),
        forall|i: int| 0 <= i < leading_spaces(l) ==> l[i] == SPACE,
        leading_spaces(l) < l.len() ==> l[leading_spaces(l) as int] != SPACE,
    decreases l.len(),
{
    if l.len() > 0 && l[0] == SPACE {
        lemma_leading_spaces(l.skip(1));
        assert forall|i: int| 0 <= i < leading_spaces(l) implies l[i] == SPACE by {
            if i > 0 {
                assert(l.skip(1)[i - 1] == l[i]);
            }
        }
        if leading_spaces(l) < l.len() {
            assert(l.skip(1)[leading_spaces(l) - 1] == l[leading_spaces(l) as int]);
        }
    }
}

/// The scan window for marker detection within one line's content.
pub open spec fn scan_limit(c: Seq<u8>) -> int {
    if c.len() < MAX_SCAN_BYTES { c.len() as int } else { MAX_SCAN_BYTES as int }
}

/// Where the marker would sit: after the leading spaces, capped at the scan
/// window.
pub open spec fn removal_pos(c: Seq<u8>) -> int {
    if leading_spaces(c) < scan_limit(c) { leading_spaces(c) as int } else { scan_limit(c) }
}

/// Whether the line content carries a removable comment: optional leading
/// spaces, the marker, then exactly one space, all inside the scan window.
pub open spec fn removable(c: Seq<u8>, flag: CommentFlag) -> bool {
    let p = removal_pos(c);
    let m = marker_bytes(flag).len() as int;
    &&& p + m + 1 <= scan_limit(c)
    &&& c.subrange(p, p + m) == marker_bytes(flag)
    &&& c[p + m] == SPACE
}

/// What [`should_remove_comment`] reports: the number of bytes to drop
/// (marker plus one space), or nothing.
pub open spec fn spec_should_remove(c: Seq<u8>, flag: CommentFlag) -> Option<usize> {
    if removable(c, flag) {
        Some((marker_bytes(flag).len() + 1) as usize)
    } else {
        None
    }
}

/// One line toggled: a removable marker is taken out (keeping the leading
/// spaces), otherwise the marker and a space are put at column 0.  The
/// terminator is never touched.
pub open spec fn spec_toggle_line(l: Seq<u8>, flag: CommentFlag) -> Seq<u8> {
    let c = line_content(l);
    let t = line_terminator(l);
    if removable(c, flag) {
        let p = removal_pos(c);
        let m = marker_bytes(flag).len() as int;
        c.take(p) + c.skip(p + m + 1) + t
    } else {
        marker_bytes(flag) + seq![SPACE] + c + t
    }
}

/// One line indented: four spaces prepended, everything else untouched.
pub open spec fn spec_indent_line(l: Seq<u8>) -> Seq<u8> {
    seq![SPACE, SPACE, SPACE, SPACE] + l
}

/// How many spaces an unindent removes from this line.
pub open spec fn unindent_amount(l: Seq<u8>) -> int {
    if leading_spaces(l) < INDENT_SPACES { leading_spaces(l) as int } else { INDENT_SPACES as int }
}

/// One line unindented: up to four leading spaces removed, never tabs.
pub open spec fn spec_unindent_line(l: Seq<u8>) -> Seq<u8> {
    l.skip(unindent_amount(l))
}

/// Marker length in bytes.
fn marker_len(flag: CommentFlag) -> (r: usize)
    ensures
        r == marker_bytes(flag).len(),
{
    match flag {
        CommentFlag::TripppleSlash => 3,
        CommentFlag::DoubleSlash => 2,
        CommentFlag::Hash => 1,
    }
}

/// Scan a line's content for a removable marker; returns where the removal
/// starts (after the leading spaces) when the pattern is present.
fn removal_scan(c: &[u8], flag: CommentFlag) -> (r: Option<usize>)
    ensures
        r == if removable(c@, flag) { Some(removal_pos(c@) as usize) } else { None::<usize> },
{
    let m = marker_len(flag);
    let n = c.len();
    let limit = if n < MAX_SCAN_BYTES { n } else { MAX_SCAN_BYTES };
    proof {
        assert(limit == scan_limit(c@));
        lemma_leading_spaces(c@);
    }
    let mut pos: usize = 0;
    while pos < limit && c[pos] == SPACE
        invariant
            pos <= limit == scan_limit(c@) <= c@.len(),
            forall|i: int| 0 <= i < pos ==> c@[i] == SPACE,
            pos <= leading_spaces(c@),
        decreases limit - pos,
    {
        proof {
            lemma_leading_spaces(c@);
            if leading_spaces(c@) <= pos {
                assert(c@[leading_spaces(c@) as int] == SPACE);
                assert(false);
            }
        }
        pos += 1;
    }
    proof {
        lemma_leading_spaces(c@);
        if pos < limit {
            assert(c@[pos as int] != SPACE);
            assert(leading_spaces(c@) <= pos);
        }
        assert(pos == removal_pos(c@));
    }
    if pos + m + 1 > limit {
        return None;
    }
    let mk = flag.as_bytes();
    let mut j: usize = 0;
    while j < m
        invariant
            j <= m == marker_bytes(flag).len(),
            mk@ == marker_bytes(flag),
            pos + m + 1 <= scan_limit(c@) <= c@.len(),
            pos == removal_pos(c@),
            forall|i: int| 0 <= i < j ==> c@[pos + i] == marker_bytes(flag)[i],
        decreases m - j,
    {
        if c[pos + j] != mk[j] {
            proof {
                if removable(c@, flag) {
                    assert(c@.subrange(pos as int, pos + m) == marker_bytes(flag));
                    assert(c@.subrange(pos as int, pos + m)[j as int] == c@[pos + j]);
                    assert(false);
                }
            }
            return None;
        }
        j += 1;
    }
    if c[pos + m] != SPACE {
        proof {
            assert(!removable(c@, flag));
        }
        return None;
    }
    proof {
        assert(c@.subrange(pos as int, pos + m as int) =~= marker_bytes(flag));
        assert(removable(c@, flag));
    }
    Some(pos)
}

/// Analyze a line's content (without its terminator) for a comment marker
/// that should be removed: optional leading spaces, the marker, one space,
/// all within the first [`MAX_SCAN_BYTES`] bytes.  Reports how many bytes the
/// removal drops (marker length plus one).
pub fn should_remove_comment(line_bytes: &[u8], flag: CommentFlag) -> (r: Option<usize>)
    ensures
        r == spec_should_remove(line_bytes@, flag),
{
    let m = marker_len(flag);
    match removal_scan(line_bytes, flag) {
        Some(_) => Some(m + 1),
        None => None,
    }
}

/// Split one whole line into its content and terminator lengths.
fn content_len(line_buffer: &[u8]) -> (r: usize)
    ensures
        r == line_buffer@.len() - terminator_len(line_buffer@),
{
    let n = line_buffer.len();
    if n >= 2 && line_buffer[n - 2] == CARRIAGE_RETURN && line_buffer[n - 1] == NEWLINE {
        n - 2
    } else if n >= 1 && line_buffer[n - 1] == NEWLINE {
        n - 1
    } else {
        n
    }
}

/// Toggle the comment marker on one whole line (terminator included),
/// returning the new line.
pub fn toggle_line(line_buffer: &[u8], flag: CommentFlag) -> (r: Vec<u8>)
    ensures
        r@ == spec_toggle_line(line_buffer@, flag),
{
    let n = line_buffer.len();
    let clen = content_len(line_buffer);
    let ghost l = line_buffer@;
    let ghost c = line_content(l);
    proof {
        assert(c =~= l.subrange(0, clen as int));
    }
    let m = marker_len(flag);
    let mut out: Vec<u8> = Vec::new();
    match removal_scan(&line_buffer[0..clen], flag) {
        Some(pos) => {
            append_range(&mut out, line_buffer, 0, pos);
            append_range(&mut out, line_buffer, pos + m + 1, clen);
            append_range(&mut out, line_buffer, clen, n);
            proof {
                let p = removal_pos(c);
                assert(c.take(p) =~= l.subrange(0, p));
                assert(c.skip(p + m + 1) =~= l.subrange(p + m + 1, clen as int));
                assert(line_terminator(l) =~= l.subrange(clen as int, n as int));
                assert(out@ =~= spec_toggle_line(l, flag));
            }
        },
        None => {
            let mk = flag.as_bytes();
            append_slice(&mut out, mk.as_slice());
            out.push(SPACE);
            append_range(&mut out, line_buffer, 0, clen);
            append_range(&mut out, line_buffer, clen, n);
            proof {
                assert(line_terminator(l) =~= l.subrange(clen as int, n as int));
                assert(out@ =~= spec_toggle_line(l, flag));
            }
        },
    }
    out
}

/// Indent one whole line by four spaces at column 0.
pub fn indent_single_line(line_buffer: &[u8]) -> (r: Vec<u8>)
    ensures
        r@ == spec_indent_line(line_buffer@),
{
    let mut out: Vec<u8> = Vec::new();
    out.push(SPACE);
    out.push(SPACE);
    out.push(SPACE);
    out.push(SPACE);
    append_slice(&mut out, line_buffer);
    proof {
        assert(out@ =~= spec_indent_line(line_buffer@));
    }
    out
}

/// Remove up to four leading spaces from one whole line.
pub fn unindent_single_line(line_buffer: &[u8]) -> (r: Vec<u8>)
    ensures
        r@ == spec_unindent_line(line_buffer@),
{
    let n = line_buffer.len();
    proof {
        lemma_leading_spaces(line_buffer@);
    }
    let mut k: usize = 0;
    while k < INDENT_SPACES && k < n && line_buffer[k] == SPACE
        invariant
            k <= INDENT_SPACES,
            k <= n == line_buffer@.len(),
            forall|i: int| 0 <= i < k ==> line_buffer@[i] == SPACE,
            k <= leading_spaces(line_buffer@),
        decreases n - k,
    {
        proof {
            lemma_leading_spaces(line_buffer@);
            if leading_spaces(line_buffer@) <= k {
                assert(line_buffer@[leading_spaces(line_buffer@) as int] == SPACE);
                assert(false);
            }
        }
        k += 1;
    }
    proof {
        lemma_leading_spaces(line_buffer@);
        if k < INDENT_SPACES && k < n {
            assert(line_buffer@[k as int] != SPACE);
            assert(leading_spaces(line_buffer@) <= k);
        }
        assert(k == unindent_amount(line_buffer@));
    }
    let mut out: Vec<u8> = Vec::new();
    append_range(&mut out, line_buffer, k, n);
    proof {
        assert(out@ =~= spec_unindent_line(line_buffer@));
    }
    out
}

/// A byte with ASCII uppercase folded to lowercase.
pub open spec fn ascii_lower(b: u8) -> u8 {
    if 65 <= b <= 90 {
        (b + 32) as u8
    } else {
        b
    }
}

/// A byte sequence with ASCII uppercase folded to lowercase.
pub open spec fn lower_bytes(s: Seq<u8>) -> Seq<u8> {
    s.map_values(|b: u8| ascii_lower(b))
}

/// Lowercased extensions using `//` comments:
/// rs, c, cpp, cc, cxx, h, hpp, js, ts, java, go, swift.
pub open spec fn slash_extension(e: Seq<u8>) -> bool {
    ||| e == seq![114u8, 115u8]  // rs
    ||| e == seq![99u8]  // c
    ||| e == seq![99u8, 112u8, 112u8]  // cpp
    ||| e == seq![99u8, 99u8]  // cc
    ||| e == seq![99u8, 120u8, 120u8]  // cxx
    ||| e == seq![104u8]  // h
    ||| e == seq![104u8, 112u8, 112u8]  // hpp
    ||| e == seq![106u8, 115u8]  // js
    ||| e == seq![116u8, 115u8]  // ts
    ||| e == seq![106u8, 97u8, 118u8, 97u8]  // java
    ||| e == seq![103u8, 111u8]  // go
    ||| e == seq![115u8, 119u8, 105u8, 102u8, 116u8]  // swift
}

/// Lowercased extensions using `#` comments:
/// py, sh, bash, toml, yaml, yml, rb, pl, r.
pub open spec fn hash_extension(e: Seq<u8>) -> bool {
    ||| e == seq![112u8, 121u8]  // py
    ||| e == seq![115u8, 104u8]  // sh
    ||| e == seq![98u8, 97u8, 115u8, 104u8]  // bash
    ||| e == seq![116u8, 111u8, 109u8, 108u8]  // toml
    ||| e == seq![121u8, 97u8, 109u8, 108u8]  // yaml
    ||| e == seq![121u8, 109u8, 108u8]  // yml
    ||| e == seq![114u8, 98u8]  // rb
    ||| e == seq![112u8, 108u8]  // pl
    ||| e == seq![114u8]  // r
}

/// The comment marker family for an extension's bytes, case folded.
pub open spec fn flag_for_extension(e: Seq<u8>) -> Option<CommentFlag> {
    let le = lower_bytes(e);
    if slash_extension(le) {
        Some(CommentFlag::DoubleSlash)
    } else if hash_extension(le) {
        Some(CommentFlag::Hash)
    } else {
        None
    }
}

/// ASCII-lowercase a byte slice into a fresh vector.
fn to_lower(b: &[u8]) -> (r: Vec<u8>)
    ensures
        r@ == lower_bytes(b@),
{
    let mut r: Vec<u8> = Vec::new();
    let mut j: usize = 0;
    while j < b.len()
        invariant
            j <= b@.len(),
            r@ == lower_bytes(b@.subrange(0, j as int)),
        decreases b@.len() - j,
    {
        let x = b[j];
        if 65 <= x && x <= 90 {
            r.push(x + 32);
        } else {
            r.push(x);
        }
        j += 1;
        proof {
            assert(b@.subrange(0, j as int).map_values(|y: u8| ascii_lower(y)) =~= b@.subrange(
                0,
                j - 1,
            ).map_values(|y: u8| ascii_lower(y)).push(ascii_lower(b@[j - 1])));
            assert(r@ =~= lower_bytes(b@.subrange(0, j as int)));
        }
    }
    proof {
        assert(b@.subrange(0, b@.len() as int) =~= b@);
    }
    r
}

/// Whether a byte vector is exactly one given byte.
fn eq1(v: &Vec<u8>, a: u8) -> (r: bool)
    ensures
        r <==> v@ == seq![a],
{
    let r = v.len() == 1 && v[0] == a;
    proof {
        if r {
            assert(v@ =~= seq![a]);
        }
    }
    r
}

/// Whether a byte vector is exactly the two given bytes.
fn eq2(v: &Vec<u8>, a: u8, b: u8) -> (r: bool)
    ensures
        r <==> v@ == seq![a, b],
{
    let r = v.len() == 2 && v[0] == a && v[1] == b;
    proof {
        if r {
            assert(v@ =~= seq![a, b]);
        }
    }
    r
}

/// Whether a byte vector is exactly the three given bytes.
fn eq3(v: &Vec<u8>, a: u8, b: u8, c: u8) -> (r: bool)
    ensures
        r <==> v@ == seq![a, b, c],
{
    let r = v.len() == 3 && v[0] == a && v[1] == b && v[2] == c;
    proof {
        if r {
            assert(v@ =~= seq![a, b, c]);
        }
    }
    r
}

/// Whether a byte vector is exactly the four given bytes.
fn eq4(v: &Vec<u8>, a: u8, b: u8, c: u8, d: u8) -> (r: bool)
    ensures
        r <==> v@ == seq![a, b, c, d],
{
    let r = v.len() == 4 && v[0] == a && v[1] == b && v[2] == c && v[3] == d;
    proof {
        if r {
            assert(v@ =~= seq![a, b, c, d]);
        }
    }
    r
}

/// Whether a byte vector is exactly the five given bytes.
fn eq5(v: &Vec<u8>, a: u8, b: u8, c: u8, d: u8, e: u8) -> (r: bool)
    ensures
        r <==> v@ == seq![a, b, c, d, e],
{
    let r = v.len() == 5 && v[0] == a && v[1] == b && v[2] == c && v[3] == d && v[4] == e;
    proof {
        if r {
            assert(v@ =~= seq![a, b, c, d, e]);
        }
    }
    r
}

/// Determine the comment flag from a file extension (without the dot),
/// folding ASCII case.
pub fn determine_comment_flag(extension: &str) -> (r: Option<CommentFlag>)
    ensures
        r == flag_for_extension(extension.spec_bytes()),
{
    let low = to_lower(extension.as_bytes());
    if eq2(&low, 114, 115) || eq1(&low, 99) || eq3(&low, 99, 112, 112) || eq2(&low, 99, 99) || eq3(
        &low,
        99,
        120,
        120,
    ) || eq1(&low, 104) || eq3(&low, 104, 112, 112) || eq2(&low, 106, 115) || eq2(&low, 116, 115)
        || eq4(&low, 106, 97, 118, 97) || eq2(&low, 103, 111) || eq5(&low, 115, 119, 105, 102, 116) {
        Some(CommentFlag::DoubleSlash)
    } else if eq2(&low, 112, 121) || eq2(&low, 115, 104) || eq4(&low, 98, 97, 115, 104) || eq4(
        &low,
        116,
        111,
        109,
        108,
    ) || eq4(&low, 121, 97, 109, 108) || eq3(&low, 121, 109, 108) || eq2(&low, 114, 98) || eq2(
        &low,
        112,
        108,
    ) || eq1(&low, 114) {
        Some(CommentFlag::Hash)
    } else {
        None
    }
}

/// Block comment markers for different languages; each is one full line,
/// terminator included.
#[derive(Debug, PartialEq, Eq)]
pub struct BlockMarkers {
    pub start: Vec<u8>,
    pub end: Vec<u8>,
}

/// The C-style block opener line `/*\n`.
pub open spec fn c_block_start() -> Seq<u8> {
    seq![47u8, 42u8, 10u8]
}

/// The C-style block closer line `*/\n`.
pub open spec fn c_block_end() -> Seq<u8> {
    seq![42u8, 47u8, 10u8]
}

/// The Python block delimiter line `"""\n`, used on both sides.
pub open spec fn py_block_marker() -> Seq<u8> {
    seq![34u8, 34u8, 34u8, 10u8]
}

/// The block delimiter pair for an extension's bytes, case folded.
pub open spec fn block_markers_for_extension(e: Seq<u8>) -> Option<(Seq<u8>, Seq<u8>)> {
    let le = lower_bytes(e);
    if slash_extension(le) {
        Some((c_block_start(), c_block_end()))
    } else if le == seq![112u8, 121u8] {
        Some((py_block_marker(), py_block_marker()))
    } else {
        None
    }
}

/// Determine the block comment delimiters from a file extension (without the
/// dot), folding ASCII case.  Only the `//` languages and Python have them.
pub fn determine_block_markers(extension: &str) -> (r: Option<BlockMarkers>)
    ensures
        match r {
            Some(m) => block_markers_for_extension(extension.spec_bytes()) == Some(
                (m.start@, m.end@),
            ),
            None => block_markers_for_extension(extension.spec_bytes()) is None,
        },
{
    let low = to_lower(extension.as_bytes());
    if eq2(&low, 114, 115) || eq1(&low, 99) || eq3(&low, 99, 112, 112) || eq2(&low, 99, 99) || eq3(
        &low,
        99,
        120,
        120,
    ) || eq1(&low, 104) || eq3(&low, 104, 112, 112) || eq2(&low, 106, 115) || eq2(&low, 116, 115)
        || eq4(&low, 106, 97, 118, 97) || eq2(&low, 103, 111) || eq5(&low, 115, 119, 105, 102, 116) {
        let mut start: Vec<u8> = Vec::new();
        start.push(47);
        start.push(42);
        start.push(NEWLINE);
        let mut end: Vec<u8> = Vec::new();
        end.push(42);
        end.push(47);
        end.push(NEWLINE);
        proof {
            assert(start@ =~= c_block_start());
            assert(end@ =~= c_block_end());
        }
        Some(BlockMarkers { start, end })
    } else if eq2(&low, 112, 121) {
        let mut start: Vec<u8> = Vec::new();
        start.push(34);
        start.push(34);
        start.push(34);
        start.push(NEWLINE);
        let mut end: Vec<u8> = Vec::new();
        end.push(34);
        end.push(34);
        end.push(34);
        end.push(NEWLINE);
        proof {
            assert(start@ =~= py_block_marker());
            assert(end@ =~= py_block_marker());
        }
        Some(BlockMarkers { start, end })
    } else {
        None
    }
}

/// Sort a line range so the first component is the smaller.
pub fn sort_range(from: usize, to: usize) -> (r: (usize, usize))
    ensures
        r.0 == if from <= to { from as int } else { to as int },
        r.1 == if from <= to { to as int } else { from as int },
{
    if from <= to {
        (from, to)
    } else {
        (to, from)
    }
}

/// The one-line transform a rewrite applies to each line in its region.
#[derive(Debug, Clone, Copy, PartialEq, Eq, Structural)]
pub enum LineOp {
    /// Toggle the comment marker of this flag.
    Toggle(CommentFlag),
    /// Prepend four spaces.
    Indent,
    /// Remove up to four leading spaces.
    Unindent,
}

/// The transform's effect on one line.
pub open spec fn apply_op(op: LineOp, l: Seq<u8>) -> Seq<u8> {
    match op {
        LineOp::Toggle(flag) => spec_toggle_line(l, flag),
        LineOp::Indent => spec_indent_line(l),
        LineOp::Unindent => spec_unindent_line(l),
    }
}

/// Why a rewrite could not be carried out.
#[derive(Debug, Clone, Copy, PartialEq, Eq, Structural)]
pub enum RewriteIssue {
    /// A line exceeds [`MAX_LINE_LENGTH`].
    LineTooLong { line_number: usize, length: usize },
    /// The region's last line is beyond the end of the file.
    LineNotFound { requested: usize, file_lines: usize },
}

/// Index of the first line longer than [`MAX_LINE_LENGTH`] at or after `i`.
pub open spec fn first_long_line_from(ls: Seq<Seq<u8>>, i: int) -> Option<int>
    decreases ls.len() - i,
{
    if i < 0 || i >= ls.len() {
        None
    } else if ls[i].len() > MAX_LINE_LENGTH {
        Some(i)
    } else {
        first_long_line_from(ls, i + 1)
    }
}

/// Index of the first line longer than [`MAX_LINE_LENGTH`], if any.
pub open spec fn first_long_line(ls: Seq<Seq<u8>>) -> Option<int> {
    first_long_line_from(ls, 0)
}

/// The lines with `op` applied to every index in `[lo, hi]`.
pub open spec fn edited_lines(ls: Seq<Seq<u8>>, lo: int, hi: int, op: LineOp) -> Seq<Seq<u8>> {
    Seq::new(ls.len(), |i: int| if lo <= i <= hi { apply_op(op, ls[i]) } else { ls[i] })
}

/// The rewrite engine's outcome: the whole content with every line in
/// `[lo, hi]` transformed, or the first reason it refuses.  A line longer
/// than the ceiling is reported wherever it sits in the file; otherwise the
/// region's last line must exist.
pub open spec fn spec_rewrite(s: Seq<u8>, lo: int, hi: int, op: LineOp) -> Result<
    Seq<u8>,
    RewriteIssue,
> {
    let ls = lines_of(s);
    match first_long_line(ls) {
        Some(j) => Err(
            RewriteIssue::LineTooLong { line_number: j as usize, length: ls[j].len() as usize },
        ),
        None => if hi >= ls.len() {
            Err(
                RewriteIssue::LineNotFound {
                    requested: hi as usize,
                    file_lines: ls.len() as usize,
                },
            )
        } else {
            Ok(join(edited_lines(ls, lo, hi, op)))
        },
    }
}

/// Apply one transform to one whole line.
fn apply_line_op(l: &[u8], op: LineOp) -> (r: Vec<u8>)
    ensures
        r@ == apply_op(op, l@),
{
    match op {
        LineOp::Toggle(flag) => toggle_line(l, flag),
        LineOp::Indent => indent_single_line(l),
        LineOp::Unindent => unindent_single_line(l),
    }
}

/// Find the first overlong line, with its length.
fn find_long_line(ls: &Vec<Vec<u8>>) -> (r: Option<(usize, usize)>)
    ensures
        match r {
            Some(p) => first_long_line(ls.deep_view()) == Some(p.0 as int) && p.1
                == ls.deep_view()[p.0 as int].len(),
            None => first_long_line(ls.deep_view()) is None,
        },
{
    let ghost lsv = ls.deep_view();
    let mut i: usize = 0;
    while i < ls.len()
        invariant
            i <= ls@.len(),
            lsv == ls.deep_view(),
            lsv.len() == ls@.len(),
            first_long_line(lsv) == first_long_line_from(lsv, i as int),
        decreases ls@.len() - i,
    {
        proof {
            assert(lsv[i as int] =~= ls@[i as int]@);
        }
        if ls[i].len() > MAX_LINE_LENGTH {
            return Some((i, ls[i].len()));
        }
        i += 1;
    }
    None
}

/// The rewrite engine: split into lines, transform the region `[lo, hi]`
/// line by line, join.
fn rewrite_lines(content: &[u8], lo: usize, hi: usize, op: LineOp) -> (r: Result<
    Vec<u8>,
    RewriteIssue,
>)
    requires
        lo <= hi,
    ensures
        res_view(r) == spec_rewrite(content@, lo as int, hi as int, op),
{
    let ls = split_lines(content);
    let ghost lsv = ls.deep_view();
    match find_long_line(&ls) {
        Some(p) => {
            return Err(RewriteIssue::LineTooLong { line_number: p.0, length: p.1 });
        },
        None => {},
    }
    if hi >= ls.len() {
        return Err(RewriteIssue::LineNotFound { requested: hi, file_lines: ls.len() });
    }
    let ghost target = edited_lines(lsv, lo as int, hi as int, op);
    let mut out: Vec<u8> = Vec::new();
    let mut i: usize = 0;
    proof {
        assert(target.take(0) =~= Seq::<Seq<u8>>::empty());
        assert(out@ =~= join(target.take(0)));
    }
    while i < ls.len()
        invariant
            i <= ls@.len(),
            lo <= hi < ls@.len(),
            lsv == ls.deep_view(),
            lsv.len() == ls@.len(),
            target == edited_lines(lsv, lo as int, hi as int, op),
            target.len() == lsv.len(),
            out@ == join(target.take(i as int)),
        decreases ls@.len() - i,
    {
        proof {
            assert(lsv[i as int] =~= ls@[i as int]@);
        }
        if lo <= i && i <= hi {
            let t = apply_line_op(ls[i].as_slice(), op);
            append_slice(&mut out, t.as_slice());
        } else {
            append_slice(&mut out, ls[i].as_slice());
        }
        proof {
            lemma_join_push(target.take(i as int), target[i as int]);
            assert(target.take(i + 1) =~= target.take(i as int).push(target[i as int]));
        }
        i += 1;
    }
    proof {
        assert(target.take(ls@.len() as int) =~= target);
    }
    Ok(out)
}

/// A rewrite refusal as a [`ToggleError`].
pub open spec fn toggle_issue_error(issue: RewriteIssue) -> ToggleError {
    match issue {
        RewriteIssue::LineTooLong { line_number, length } => ToggleError::LineTooLong {
            line_number,
            length,
        },
        RewriteIssue::LineNotFound { requested, file_lines } => ToggleError::LineNotFound {
            requested,
            file_lines,
        },
    }
}

/// A rewrite refusal as an [`IndentError`].
pub open spec fn indent_issue_error(issue: RewriteIssue) -> IndentError {
    match issue {
        RewriteIssue::LineTooLong { line_number, length } => IndentError::LineTooLong {
            line_number,
            length,
        },
        RewriteIssue::LineNotFound { requested, file_lines } => IndentError::LineNotFound {
            requested,
            file_lines,
        },
    }
}

/// One line toggled in the whole content, or why not.
pub open spec fn spec_toggle_at(s: Seq<u8>, k: int, flag: CommentFlag) -> Result<
    Seq<u8>,
    ToggleError,
> {
    match spec_rewrite(s, k, k, LineOp::Toggle(flag)) {
        Ok(v) => Ok(v),
        Err(e) => Err(toggle_issue_error(e)),
    }
}

/// The extension argument's bytes, if one was given.
pub open spec fn ext_view(extension: Option<&str>) -> Option<Seq<u8>> {
    match extension {
        Some(e) => Some(e.spec_bytes()),
        None => None,
    }
}

/// Extension-based single-line toggle: no extension and unsupported
/// extensions are rejected, else the line is toggled with the extension's
/// marker.
pub open spec fn spec_toggle_basic(s: Seq<u8>, ext: Option<Seq<u8>>, k: int) -> Result<
    Seq<u8>,
    ToggleError,
> {
    match ext {
        None => Err(ToggleError::NoExtension),
        Some(e) => match flag_for_extension(e) {
            None => Err(ToggleError::UnsupportedExtension),
            Some(flag) => spec_toggle_at(s, k, flag),
        },
    }
}

/// Toggle a comment on one line, the marker chosen by the file extension.
///
/// The content is the whole file's bytes; the new content is returned.  The
/// caller is responsible for reading and writing files.
pub fn toggle_basic_singleline_comment(
    content: &[u8],
    extension: Option<&str>,
    row_line_zeroindex: usize,
) -> (r: Result<Vec<u8>, ToggleError>)
    ensures
        res_view(r) == spec_toggle_basic(content@, ext_view(extension), row_line_zeroindex as int),
{
    let flag = match extension {
        None => {
            return Err(ToggleError::NoExtension);
        },
        Some(e) => match determine_comment_flag(e) {
            None => {
                return Err(ToggleError::UnsupportedExtension);
            },
            Some(f) => f,
        },
    };
    match rewrite_lines(content, row_line_zeroindex, row_line_zeroindex, LineOp::Toggle(flag)) {
        Ok(v) => Ok(v),
        Err(e) => Err(match e {
            RewriteIssue::LineTooLong { line_number, length } => ToggleError::LineTooLong {
                line_number,
                length,
            },
            RewriteIssue::LineNotFound { requested, file_lines } => ToggleError::LineNotFound {
                requested,
                file_lines,
            },
        }),
    }
}

/// Toggle a Rust doc comment (`///`) on one line; no extension is consulted.
pub fn toggle_rust_docstring_singleline_comment(content: &[u8], row_line_zeroindex: usize) -> (r:
    Result<Vec<u8>, ToggleError>)
    ensures
        res_view(r) == spec_toggle_at(
            content@,
            row_line_zeroindex as int,
            CommentFlag::TripppleSlash,
        ),
{
    match rewrite_lines(
        content,
        row_line_zeroindex,
        row_line_zeroindex,
        LineOp::Toggle(CommentFlag::TripppleSlash),
    ) {
        Ok(v) => Ok(v),
        Err(e) => Err(match e {
            RewriteIssue::LineTooLong { line_number, length } => ToggleError::LineTooLong {
                line_number,
                length,
            },
            RewriteIssue::LineNotFound { requested, file_lines } => ToggleError::LineNotFound {
                requested,
                file_lines,
            },
        }),
    }
}

/// One line indented in the whole content, or why not.
pub open spec fn spec_indent_at(s: Seq<u8>, k: int) -> Result<Seq<u8>, IndentError> {
    match spec_rewrite(s, k, k, LineOp::Indent) {
        Ok(v) => Ok(v),
        Err(e) => Err(indent_issue_error(e)),
    }
}

/// One line unindented in the whole content, or why not.
pub open spec fn spec_unindent_at(s: Seq<u8>, k: int) -> Result<Seq<u8>, IndentError> {
    match spec_rewrite(s, k, k, LineOp::Unindent) {
        Ok(v) => Ok(v),
        Err(e) => Err(indent_issue_error(e)),
    }
}

/// Add four spaces at the start of one line, regardless of existing
/// indentation.
pub fn indent_line(content: &[u8], line_number: usize) -> (r: Result<Vec<u8>, IndentError>)
    ensures
        res_view(r) == spec_indent_at(content@, line_number as int),
{
    match rewrite_lines(content, line_number, line_number, LineOp::Indent) {
        Ok(v) => Ok(v),
        Err(e) => Err(match e {
            RewriteIssue::LineTooLong { line_number, length } => IndentError::LineTooLong {
                line_number,
                length,
            },
            RewriteIssue::LineNotFound { requested, file_lines } => IndentError::LineNotFound {
                requested,
                file_lines,
            },
        }),
    }
}

/// Remove up to four leading spaces from one line; removing none is still a
/// success.
pub fn unindent_line(content: &[u8], line_number: usize) -> (r: Result<Vec<u8>, IndentError>)
    ensures
        res_view(r) == spec_unindent_at(content@, line_number as int),
{
    match rewrite_lines(content, line_number, line_number, LineOp::Unindent) {
        Ok(v) => Ok(v),
        Err(e) => Err(match e {
            RewriteIssue::LineTooLong { line_number, length } => IndentError::LineTooLong {
                line_number,
                length,
            },
            RewriteIssue::LineNotFound { requested, file_lines } => IndentError::LineNotFound {
                requested,
                file_lines,
            },
        }),
    }
}

/// The smaller of two line numbers.
pub open spec fn range_lo(a: int, b: int) -> int {
    if a <= b {
        a
    } else {
        b
    }
}

/// The larger of two line numbers.
pub open spec fn range_hi(a: int, b: int) -> int {
    if a <= b {
        b
    } else {
        a
    }
}

/// The number of lines in `[lo, hi]`, saturated at the machine limit.
pub open spec fn range_size_sat(lo: int, hi: int) -> int {
    if hi - lo + 1 > usize::MAX as int {
        usize::MAX as int
    } else {
        hi - lo + 1
    }
}

/// A range toggle over the normalized range, after the size ceiling.
pub open spec fn spec_toggle_range(s: Seq<u8>, flag: CommentFlag, a: int, b: int) -> Result<
    Seq<u8>,
    ToggleError,
> {
    let lo = range_lo(a, b);
    let hi = range_hi(a, b);
    if range_size_sat(lo, hi) > MAX_BATCH_LINES {
        Err(
            ToggleError::RangeTooLarge {
                requested: range_size_sat(lo, hi) as usize,
                max: MAX_BATCH_LINES,
            },
        )
    } else {
        match spec_rewrite(s, lo, hi, LineOp::Toggle(flag)) {
            Ok(v) => Ok(v),
            Err(e) => Err(toggle_issue_error(e)),
        }
    }
}

/// Extension-based range toggle: the size ceiling is checked first, then the
/// extension, then the rewrite.
pub open spec fn spec_toggle_range_basic(s: Seq<u8>, ext: Option<Seq<u8>>, a: int, b: int) -> Result<
    Seq<u8>,
    ToggleError,
> {
    let lo = range_lo(a, b);
    let hi = range_hi(a, b);
    if range_size_sat(lo, hi) > MAX_BATCH_LINES {
        Err(
            ToggleError::RangeTooLarge {
                requested: range_size_sat(lo, hi) as usize,
                max: MAX_BATCH_LINES,
            },
        )
    } else {
        match ext {
            None => Err(ToggleError::NoExtension),
            Some(e) => match flag_for_extension(e) {
                None => Err(ToggleError::UnsupportedExtension),
                Some(flag) => match spec_rewrite(s, lo, hi, LineOp::Toggle(flag)) {
                    Ok(v) => Ok(v),
                    Err(issue) => Err(toggle_issue_error(issue)),
                },
            },
        }
    }
}

/// Toggle basic comments on every line of an inclusive range, each line
/// independently.  The range is normalized, so argument order does not
/// matter; at most [`MAX_BATCH_LINES`] lines may be touched.
pub fn toggle_range_basic_comments(
    content: &[u8],
    extension: Option<&str>,
    from_line: usize,
    to_line: usize,
) -> (r: Result<Vec<u8>, ToggleError>)
    ensures
        res_view(r) == spec_toggle_range_basic(
            content@,
            ext_view(extension),
            from_line as int,
            to_line as int,
        ),
{
    let (lo, hi) = sort_range(from_line, to_line);
    if hi - lo >= MAX_BATCH_LINES {
        let size = if hi - lo == usize::MAX {
            usize::MAX
        } else {
            hi - lo + 1
        };
        proof {
            assert(size == range_size_sat(lo as int, hi as int));
        }
        return Err(ToggleError::RangeTooLarge { requested: size, max: MAX_BATCH_LINES });
    }
    let flag = match extension {
        None => {
            return Err(ToggleError::NoExtension);
        },
        Some(e) => match determine_comment_flag(e) {
            None => {
                return Err(ToggleError::UnsupportedExtension);
            },
            Some(f) => f,
        },
    };
    match rewrite_lines(content, lo, hi, LineOp::Toggle(flag)) {
        Ok(v) => Ok(v),
        Err(e) => Err(match e {
            RewriteIssue::LineTooLong { line_number, length } => ToggleError::LineTooLong {
                line_number,
                length,
            },
            RewriteIssue::LineNotFound { requested, file_lines } => ToggleError::LineNotFound {
                requested,
                file_lines,
            },
        }),
    }
}

/// Toggle Rust doc comments (`///`) on every line of an inclusive range; no
/// extension is consulted.
pub fn toggle_range_rust_docstring(content: &[u8], from_line: usize, to_line: usize) -> (r: Result<
    Vec<u8>,
    ToggleError,
>)
    ensures
        res_view(r) == spec_toggle_range(
            content@,
            CommentFlag::TripppleSlash,
            from_line as int,
            to_line as int,
        ),
{
    let (lo, hi) = sort_range(from_line, to_line);
    if hi - lo >= MAX_BATCH_LINES {
        let size = if hi - lo == usize::MAX {
            usize::MAX
        } else {
            hi - lo + 1
        };
        proof {
            assert(size == range_size_sat(lo as int, hi as int));
        }
        return Err(ToggleError::RangeTooLarge { requested: size, max: MAX_BATCH_LINES });
    }
    match rewrite_lines(content, lo, hi, LineOp::Toggle(CommentFlag::TripppleSlash)) {
        Ok(v) => Ok(v),
        Err(e) => Err(match e {
            RewriteIssue::LineTooLong { line_number, length } => ToggleError::LineTooLong {
                line_number,
                length,
            },
            RewriteIssue::LineNotFound { requested, file_lines } => ToggleError::LineNotFound {
                requested,
                file_lines,
            },
        }),
    }
}

/// A range indent over the normalized range; no size ceiling applies.
pub open spec fn spec_indent_range(s: Seq<u8>, a: int, b: int) -> Result<Seq<u8>, IndentError> {
    match spec_rewrite(s, range_lo(a, b), range_hi(a, b), LineOp::Indent) {
        Ok(v) => Ok(v),
        Err(e) => Err(indent_issue_error(e)),
    }
}

/// A range unindent over the normalized range; no size ceiling applies.
pub open spec fn spec_unindent_range(s: Seq<u8>, a: int, b: int) -> Result<Seq<u8>, IndentError> {
    match spec_rewrite(s, range_lo(a, b), range_hi(a, b), LineOp::Unindent) {
        Ok(v) => Ok(v),
        Err(e) => Err(indent_issue_error(e)),
    }
}

/// Add four spaces at the start of every line of an inclusive range.  The
/// range is normalized, so argument order does not matter.
pub fn indent_range(content: &[u8], start_line: usize, end_line: usize) -> (r: Result<
    Vec<u8>,
    IndentError,
>)
    ensures
        res_view(r) == spec_indent_range(content@, start_line as int, end_line as int),
{
    let (lo, hi) = sort_range(start_line, end_line);
    match rewrite_lines(content, lo, hi, LineOp::Indent) {
        Ok(v) => Ok(v),
        Err(e) => Err(match e {
            RewriteIssue::LineTooLong { line_number, length } => IndentError::LineTooLong {
                line_number,
                length,
            },
            RewriteIssue::LineNotFound { requested, file_lines } => IndentError::LineNotFound {
                requested,
                file_lines,
            },
        }),
    }
}

/// Remove up to four leading spaces from every line of an inclusive range.
/// The range is normalized, so argument order does not matter.
pub fn unindent_range(content: &[u8], start_line: usize, end_line: usize) -> (r: Result<
    Vec<u8>,
    IndentError,
>)
    ensures
        res_view(r) == spec_unindent_range(content@, start_line as int, end_line as int),
{
    let (lo, hi) = sort_range(start_line, end_line);
    match rewrite_lines(content, lo, hi, LineOp::Unindent) {
        Ok(v) => Ok(v),
        Err(e) => Err(match e {
            RewriteIssue::LineTooLong { line_number, length } => IndentError::LineTooLong {
                line_number,
                length,
            },
            RewriteIssue::LineNotFound { requested, file_lines } => IndentError::LineNotFound {
                requested,
                file_lines,
            },
        }),
    }
}

/// Whether the listed line numbers include `v`.
pub open spec fn listed_line(nums: Seq<usize>, v: int) -> bool {
    exists|i: int| 0 <= i < nums.len() && nums[i] == v
}

/// The smallest listed line number that is at least `n`, if any: the first
/// line a sorted batch pass would fail to find.
pub open spec fn first_missing_target(nums: Seq<usize>, n: int) -> Option<int>
    decreases nums.len(),
{
    if nums.len() == 0 {
        None
    } else {
        let rest = first_missing_target(nums.skip(1), n);
        if nums[0] as int >= n {
            match rest {
                None => Some(nums[0] as int),
                Some(m) => if nums[0] as int <= m {
                    Some(nums[0] as int)
                } else {
                    Some(m)
                },
            }
        } else {
            rest
        }
    }
}

/// A batch toggle: every listed line toggled once, duplicates counted once.
/// An empty list is a no-op success; an over-long list is refused as a read
/// failure; listed lines beyond the end of the file report the smallest such.
pub open spec fn spec_toggle_multiple(s: Seq<u8>, nums: Seq<usize>, flag: CommentFlag) -> Result<
    Seq<u8>,
    ToggleError,
> {
    if nums.len() == 0 {
        Ok(s)
    } else if nums.len() > MAX_BATCH_LINES {
        Err(ToggleError::IoError(IoOperation::Read))
    } else {
        let ls = lines_of(s);
        match first_long_line(ls) {
            Some(j) => Err(
                ToggleError::LineTooLong { line_number: j as usize, length: ls[j].len() as usize },
            ),
            None => match first_missing_target(nums, ls.len() as int) {
                Some(m) => Err(
                    ToggleError::LineNotFound {
                        requested: m as usize,
                        file_lines: ls.len() as usize,
                    },
                ),
                None => Ok(
                    join(
                        Seq::new(
                            ls.len(),
                            |i: int| if listed_line(nums, i) {
                                spec_toggle_line(ls[i], flag)
                            } else {
                                ls[i]
                            },
                        ),
                    ),
                ),
            },
        }
    }
}

/// Extension-based batch toggle: the extension is resolved before anything
/// else.
pub open spec fn spec_toggle_multiple_basic(
    s: Seq<u8>,
    ext: Option<Seq<u8>>,
    nums: Seq<usize>,
) -> Result<Seq<u8>, ToggleError> {
    match ext {
        None => Err(ToggleError::NoExtension),
        Some(e) => match flag_for_extension(e) {
            None => Err(ToggleError::UnsupportedExtension),
            Some(flag) => spec_toggle_multiple(s, nums, flag),
        },
    }
}

/// Whether `nums` lists line `v`.
fn contains_line(nums: &[usize], v: usize) -> (r: bool)
    ensures
        r == listed_line(nums@, v as int),
{
    let mut i: usize = 0;
    while i < nums.len()
        invariant
            i <= nums@.len(),
            forall|j: int| 0 <= j < i ==> nums@[j] != v,
        decreases nums@.len() - i,
    {
        if nums[i] == v {
            return true;
        }
        i += 1;
    }
    false
}

/// The smallest listed line number at or past `n`.
fn find_first_missing(nums: &[usize], n: usize) -> (r: Option<usize>)
    ensures
        match r {
            Some(m) => first_missing_target(nums@, n as int) == Some(m as int),
            None => first_missing_target(nums@, n as int) is None,
        },
{
    let mut best: Option<usize> = None;
    let mut i: usize = nums.len();
    while i > 0
        invariant
            i <= nums@.len(),
            match best {
                Some(m) => first_missing_target(nums@.skip(i as int), n as int) == Some(m as int),
                None => first_missing_target(nums@.skip(i as int), n as int) is None,
            },
        decreases i,
    {
        i -= 1;
        proof {
            assert(nums@.skip(i as int)[0] == nums@[i as int]);
            assert(nums@.skip(i as int).skip(1) =~= nums@.skip(i + 1));
        }
        let v = nums[i];
        if v >= n {
            best = match best {
                None => Some(v),
                Some(m) => if v <= m {
                    Some(v)
                } else {
                    Some(m)
                },
            };
        }
    }
    proof {
        assert(nums@.skip(0) =~= nums@);
    }
    best
}

/// The batch engine: toggle every listed line once.
fn toggle_multiple_lines(content: &[u8], line_numbers: &[usize], flag: CommentFlag) -> (r: Result<
    Vec<u8>,
    ToggleError,
>)
    ensures
        res_view(r) == spec_toggle_multiple(content@, line_numbers@, flag),
{
    if line_numbers.len() == 0 {
        let mut out: Vec<u8> = Vec::new();
        append_slice(&mut out, content);
        proof {
            assert(out@ =~= content@);
        }
        return Ok(out);
    }
    if line_numbers.len() > MAX_BATCH_LINES {
        return Err(ToggleError::IoError(IoOperation::Read));
    }
    let ls = split_lines(content);
    let ghost lsv = ls.deep_view();
    match find_long_line(&ls) {
        Some(p) => {
            return Err(ToggleError::LineTooLong { line_number: p.0, length: p.1 });
        },
        None => {},
    }
    match find_first_missing(line_numbers, ls.len()) {
        Some(m) => {
            return Err(ToggleError::LineNotFound { requested: m, file_lines: ls.len() });
        },
        None => {},
    }
    let ghost target = Seq::new(
        lsv.len(),
        |i: int| if listed_line(line_numbers@, i) {
            spec_toggle_line(lsv[i], flag)
        } else {
            lsv[i]
        },
    );
    let mut out: Vec<u8> = Vec::new();
    let mut i: usize = 0;
    proof {
        assert(target.take(0) =~= Seq::<Seq<u8>>::empty());
        assert(out@ =~= join(target.take(0)));
    }
    while i < ls.len()
        invariant
            i <= ls@.len(),
            lsv == ls.deep_view(),
            lsv.len() == ls@.len(),
            target == Seq::new(
                lsv.len(),
                |j: int| if listed_line(line_numbers@, j) {
                    spec_toggle_line(lsv[j], flag)
                } else {
                    lsv[j]
                },
            ),
            target.len() == lsv.len(),
            out@ == join(target.take(i as int)),
        decreases ls@.len() - i,
    {
        proof {
            assert(lsv[i as int] =~= ls@[i as int]@);
        }
        if contains_line(line_numbers, i) {
            let t = toggle_line(ls[i].as_slice(), flag);
            append_slice(&mut out, t.as_slice());
        } else {
            append_slice(&mut out, ls[i].as_slice());
        }
        proof {
            lemma_join_push(target.take(i as int), target[i as int]);
            assert(target.take(i + 1) =~= target.take(i as int).push(target[i as int]));
        }
        i += 1;
    }
    proof {
        assert(target.take(ls@.len() as int) =~= target);
    }
    Ok(out)
}

/// The lines with the delimiter lines at `lo` and `hi` deleted outright.
pub open spec fn remove_block_lines(ls: Seq<Seq<u8>>, lo: int, hi: int) -> Seq<Seq<u8>> {
    if lo == hi {
        ls.take(lo) + ls.skip(lo + 1)
    } else {
        ls.take(lo) + ls.subrange(lo + 1, hi) + ls.skip(hi + 1)
    }
}

/// The lines with a start-delimiter line inserted before `lo` and an
/// end-delimiter line after `hi`.  For a single-line range only the start
/// delimiter is inserted.
pub open spec fn add_block_lines(
    ls: Seq<Seq<u8>>,
    lo: int,
    hi: int,
    ms: Seq<u8>,
    me: Seq<u8>,
) -> Seq<Seq<u8>> {
    if lo == hi {
        ls.take(lo) + seq![ms] + ls.skip(lo)
    } else {
        ls.take(lo) + seq![ms] + ls.subrange(lo, hi + 1) + seq![me] + ls.skip(hi + 1)
    }
}

/// A block toggle: if both boundary lines equal their delimiters byte for
/// byte (terminator included) the delimiter lines are deleted; if neither
/// does, delimiter lines are inserted around the range; one match without the
/// other is an inconsistency.  Overlong lines up to the range's end are
/// reported before the boundary check, later ones after it.
pub open spec fn spec_toggle_block(s: Seq<u8>, ext: Option<Seq<u8>>, a: int, b: int) -> Result<
    Seq<u8>,
    ToggleError,
> {
    match ext {
        None => Err(ToggleError::NoExtension),
        Some(e) => match block_markers_for_extension(e) {
            None => Err(ToggleError::UnsupportedExtension),
            Some(markers) => {
                let ms = markers.0;
                let me = markers.1;
                let lo = range_lo(a, b);
                let hi = range_hi(a, b);
                let ls = lines_of(s);
                let n = ls.len() as int;
                if hi >= n {
                    match first_long_line(ls) {
                        Some(j) => Err(
                            ToggleError::LineTooLong {
                                line_number: j as usize,
                                length: ls[j].len() as usize,
                            },
                        ),
                        None => if lo >= n {
                            Err(
                                ToggleError::LineNotFound {
                                    requested: lo as usize,
                                    file_lines: n as usize,
                                },
                            )
                        } else {
                            Err(
                                ToggleError::LineNotFound {
                                    requested: hi as usize,
                                    file_lines: n as usize,
                                },
                            )
                        },
                    }
                } else {
                    let sm = ls[lo] == ms;
                    let em = ls[hi] == me;
                    match first_long_line(ls) {
                        Some(j) => if j <= hi {
                            Err(
                                ToggleError::LineTooLong {
                                    line_number: j as usize,
                                    length: ls[j].len() as usize,
                                },
                            )
                        } else if sm != em {
                            Err(ToggleError::InconsistentBlockMarkers)
                        } else {
                            Err(
                                ToggleError::LineTooLong {
                                    line_number: j as usize,
                                    length: ls[j].len() as usize,
                                },
                            )
                        },
                        None => if sm != em {
                            Err(ToggleError::InconsistentBlockMarkers)
                        } else if sm {
                            Ok(join(remove_block_lines(ls, lo, hi)))
                        } else {
                            Ok(join(add_block_lines(ls, lo, hi, ms, me)))
                        },
                    }
                }
            },
        },
    }
}

/// Append the lines `ls[from..to]` to a byte vector.
fn emit_lines(out: &mut Vec<u8>, ls: &Vec<Vec<u8>>, from: usize, to: usize)
    requires
        from <= to <= ls@.len(),
    ensures
        final(out)@ == old(out)@ + join(ls.deep_view().subrange(from as int, to as int)),
{
    let ghost lsv = ls.deep_view();
    let mut i: usize = from;
    proof {
        assert(lsv.subrange(from as int, from as int) =~= Seq::<Seq<u8>>::empty());
        assert(out@ =~= old(out)@ + join(lsv.subrange(from as int, from as int)));
    }
    while i < to
        invariant
            from <= i <= to <= ls@.len(),
            lsv == ls.deep_view(),
            lsv.len() == ls@.len(),
            out@ == old(out)@ + join(lsv.subrange(from as int, i as int)),
        decreases to - i,
    {
        proof {
            assert(lsv[i as int] =~= ls@[i as int]@);
        }
        append_slice(out, ls[i].as_slice());
        proof {
            lemma_join_push(lsv.subrange(from as int, i as int), lsv[i as int]);
            assert(lsv.subrange(from as int, i + 1) =~= lsv.subrange(from as int, i as int).push(
                lsv[i as int],
            ));
        }
        i += 1;
    }
}

/// Toggle a block comment around an inclusive line range, the delimiters
/// chosen by the file extension.  Whether to add or remove is detected from
/// the two boundary lines.
pub fn toggle_block_comment(
    content: &[u8],
    extension: Option<&str>,
    start_line: usize,
    end_line: usize,
) -> (r: Result<Vec<u8>, ToggleError>)
    ensures
        res_view(r) == spec_toggle_block(
            content@,
            ext_view(extension),
            start_line as int,
            end_line as int,
        ),
{
    let markers = match extension {
        None => {
            return Err(ToggleError::NoExtension);
        },
        Some(e) => match determine_block_markers(e) {
            None => {
                return Err(ToggleError::UnsupportedExtension);
            },
            Some(m) => m,
        },
    };
    let (lo, hi) = sort_range(start_line, end_line);
    let ls = split_lines(content);
    let ghost lsv = ls.deep_view();
    let n = ls.len();
    let long = find_long_line(&ls);
    if hi >= n {
        match long {
            Some(p) => {
                return Err(ToggleError::LineTooLong { line_number: p.0, length: p.1 });
            },
            None => {
                if lo >= n {
                    return Err(ToggleError::LineNotFound { requested: lo, file_lines: n });
                } else {
                    return Err(ToggleError::LineNotFound { requested: hi, file_lines: n });
                }
            },
        }
    }
    proof {
        assert(lsv[lo as int] =~= ls@[lo as int]@);
        assert(lsv[hi as int] =~= ls@[hi as int]@);
    }
    let sm = bytes_eq(ls[lo].as_slice(), markers.start.as_slice());
    let em = bytes_eq(ls[hi].as_slice(), markers.end.as_slice());
    match long {
        Some(p) => {
            if p.0 <= hi {
                return Err(ToggleError::LineTooLong { line_number: p.0, length: p.1 });
            } else if sm != em {
                return Err(ToggleError::InconsistentBlockMarkers);
            } else {
                return Err(ToggleError::LineTooLong { line_number: p.0, length: p.1 });
            }
        },
        None => {},
    }
    if sm != em {
        return Err(ToggleError::InconsistentBlockMarkers);
    }
    let mut out: Vec<u8> = Vec::new();
    if sm {
        emit_lines(&mut out, &ls, 0, lo);
        if lo == hi {
            emit_lines(&mut out, &ls, lo + 1, n);
            proof {
                lemma_join_concat(lsv.take(lo as int), lsv.skip(lo + 1));
                assert(lsv.subrange(0, lo as int) =~= lsv.take(lo as int));
                assert(lsv.subrange(lo + 1, n as int) =~= lsv.skip(lo + 1));
                assert(out@ =~= join(remove_block_lines(lsv, lo as int, hi as int)));
            }
        } else {
            emit_lines(&mut out, &ls, lo + 1, hi);
            emit_lines(&mut out, &ls, hi + 1, n);
            proof {
                lemma_join_concat(
                    lsv.take(lo as int) + lsv.subrange(lo + 1, hi as int),
                    lsv.skip(hi + 1),
                );
                lemma_join_concat(lsv.take(lo as int), lsv.subrange(lo + 1, hi as int));
                assert(lsv.subrange(0, lo as int) =~= lsv.take(lo as int));
                assert(lsv.subrange(hi + 1, n as int) =~= lsv.skip(hi + 1));
                assert(out@ =~= join(remove_block_lines(lsv, lo as int, hi as int)));
            }
        }
    } else {
        emit_lines(&mut out, &ls, 0, lo);
        append_slice(&mut out, markers.start.as_slice());
        if lo == hi {
            emit_lines(&mut out, &ls, lo, n);
            proof {
                let ms = markers.start@;
                lemma_join_concat(lsv.take(lo as int) + seq![ms], lsv.skip(lo as int));
                lemma_join_concat(lsv.take(lo as int), seq![ms]);
                lemma_join_singleton(ms);
                assert(lsv.subrange(0, lo as int) =~= lsv.take(lo as int));
                assert(lsv.subrange(lo as int, n as int) =~= lsv.skip(lo as int));
                assert(out@ =~= join(
                    add_block_lines(lsv, lo as int, hi as int, ms, markers.end@),
                ));
            }
        } else {
            emit_lines(&mut out, &ls, lo, hi + 1);
            append_slice(&mut out, markers.end.as_slice());
            emit_lines(&mut out, &ls, hi + 1, n);
            proof {
                let ms = markers.start@;
                let me = markers.end@;
                lemma_join_concat(
                    lsv.take(lo as int) + seq![ms] + lsv.subrange(lo as int, hi + 1) + seq![me],
                    lsv.skip(hi + 1),
                );
                lemma_join_concat(
                    lsv.take(lo as int) + seq![ms] + lsv.subrange(lo as int, hi + 1),
                    seq![me],
                );
                lemma_join_concat(lsv.take(lo as int) + seq![ms], lsv.subrange(lo as int, hi + 1));
                lemma_join_concat(lsv.take(lo as int), seq![ms]);
                lemma_join_singleton(ms);
                lemma_join_singleton(me);
                assert(lsv.subrange(0, lo as int) =~= lsv.take(lo as int));
                assert(lsv.subrange(hi + 1, n as int) =~= lsv.skip(hi + 1));
                assert(out@ =~= join(add_block_lines(lsv, lo as int, hi as int, ms, me)));
            }
        }
    }
    Ok(out)
}

/// Toggle basic comments on several listed lines in one pass, the marker
/// chosen by the file extension.  Duplicates in the list count once.
pub fn toggle_multiple_basic_comments(
    content: &[u8],
    extension: Option<&str>,
    line_numbers: &[usize],
) -> (r: Result<Vec<u8>, ToggleError>)
    ensures
        res_view(r) == spec_toggle_multiple_basic(content@, ext_view(extension), line_numbers@),
{
    let flag = match extension {
        None => {
            return Err(ToggleError::NoExtension);
        },
        Some(e) => match determine_comment_flag(e) {
            None => {
                return Err(ToggleError::UnsupportedExtension);
            },
            Some(f) => f,
        },
    };
    toggle_multiple_lines(content, line_numbers, flag)
}

/// Toggle Rust doc comments (`///`) on several listed lines in one pass.
pub fn toggle_multiple_singline_docstrings(content: &[u8], line_numbers_list: &[usize]) -> (r:
    Result<Vec<u8>, ToggleError>)
    ensures
        res_view(r) == spec_toggle_multiple(
            content@,
            line_numbers_list@,
            CommentFlag::TripppleSlash,
        ),
{
    toggle_multiple_lines(content, line_numbers_list, CommentFlag::TripppleSlash)
}

/// A content-like prefix (no line feed, and no stray carriage return before
/// a bare `\n` terminator) followed by a line's terminator has exactly that
/// terminator.
proof fn lemma_same_terminator(c2: Seq<u8>, l: Seq<u8>)
    requires
        forall|i: int| 0 <= i < c2.len() ==> c2[i] != NEWLINE,
        terminator_len(l) == 1 && c2.len() > 0 ==> c2.last() != CARRIAGE_RETURN,
    ensures
        terminator_len(c2 + line_terminator(l)) == terminator_len(l),
        line_terminator(c2 + line_terminator(l)) == line_terminator(l),
        line_content(c2 + line_terminator(l)) == c2,
{
    let t = line_terminator(l);
    let r = c2 + t;
    if terminator_len(l) == 2 {
        assert(t =~= seq![CARRIAGE_RETURN, NEWLINE]);
        assert(r[r.len() - 1] == NEWLINE);
        assert(r[r.len() - 2] == CARRIAGE_RETURN);
        assert(terminator_len(r) == 2);
    } else if terminator_len(l) == 1 {
        assert(t =~= seq![NEWLINE]);
        assert(r[r.len() - 1] == NEWLINE);
        if r.len() >= 2 {
            assert(r[r.len() - 2] == c2.last());
            assert(r[r.len() - 2] != CARRIAGE_RETURN);
        }
        assert(terminator_len(r) == 1);
    } else {
        assert(t.len() == 0);
        assert(r =~= c2);
        if r.len() >= 1 {
            assert(r[r.len() - 1] != NEWLINE);
        }
        assert(terminator_len(r) == 0);
    }
    assert(line_terminator(r) =~= t);
    assert(line_content(r) =~= c2);
}

/// A line's content holds no line feed, and before a bare `\n` terminator no
/// carriage return stands last.
proof fn lemma_line_content_shape(l: Seq<u8>)
    requires
        is_line(l),
    ensures
        forall|i: int| 0 <= i < line_content(l).len() ==> line_content(l)[i] != NEWLINE,
        terminator_len(l) == 1 && line_content(l).len() > 0 ==> line_content(l).last()
            != CARRIAGE_RETURN,
{
    let c = line_content(l);
    assert(forall|i: int| 0 <= i < c.len() ==> c[i] == l[i]);
    if terminator_len(l) == 1 && c.len() > 0 {
        assert(c.last() == l[l.len() - 2]);
    }
}

/// Toggling never changes a line's terminator: `\n`, `\r\n`, and a missing
/// final terminator all come through exactly.
pub proof fn lemma_toggle_line_preserves_terminator(l: Seq<u8>, flag: CommentFlag)
    requires
        is_line(l),
    ensures
        line_terminator(spec_toggle_line(l, flag)) == line_terminator(l),
        terminator_len(spec_toggle_line(l, flag)) == terminator_len(l),
        line_content(spec_toggle_line(l, flag)) == (if removable(line_content(l), flag) {
            line_content(l).take(removal_pos(line_content(l))) + line_content(l).skip(
                removal_pos(line_content(l)) + marker_bytes(flag).len() + 1,
            )
        } else {
            marker_bytes(flag) + seq![SPACE] + line_content(l)
        }),
        has_no_newline(line_content(spec_toggle_line(l, flag))),
{
    let c = line_content(l);
    let t = line_terminator(l);
    let mk = marker_bytes(flag);
    let m = mk.len() as int;
    lemma_line_content_shape(l);
    if removable(c, flag) {
        let p = removal_pos(c);
        let c2 = c.take(p) + c.skip(p + m + 1);
        assert(spec_toggle_line(l, flag) =~= c2 + t);
        assert(forall|i: int| 0 <= i < c2.len() ==> c2[i] != NEWLINE);
        if terminator_len(l) == 1 && c2.len() > 0 {
            if p + m + 1 < c.len() {
                assert(c2.last() == c.last());
            } else {
                assert(c2.last() == c[p - 1]);
                lemma_leading_spaces(c);
                assert(c[p - 1] == SPACE);
            }
        }
        lemma_same_terminator(c2, l);
    } else {
        let c2 = mk + seq![SPACE] + c;
        assert(spec_toggle_line(l, flag) =~= c2 + t);
        assert(forall|i: int| 0 <= i < mk.len() ==> mk[i] != NEWLINE);
        assert(forall|i: int| 0 <= i < c2.len() ==> c2[i] != NEWLINE);
        if terminator_len(l) == 1 && c2.len() > 0 {
            if c.len() > 0 {
                assert(c2.last() == c.last());
            } else {
                assert(c2.last() == SPACE);
            }
        }
        lemma_same_terminator(c2, l);
    }
}

/// Indenting never changes a line's terminator.
pub proof fn lemma_indent_line_preserves_terminator(l: Seq<u8>)
    requires
        is_line(l),
    ensures
        line_terminator(spec_indent_line(l)) == line_terminator(l),
        terminator_len(spec_indent_line(l)) == terminator_len(l),
        line_content(spec_indent_line(l)) == seq![SPACE, SPACE, SPACE, SPACE] + line_content(l),
        has_no_newline(line_content(spec_indent_line(l))),
{
    let c = line_content(l);
    lemma_line_content_shape(l);
    lemma_content_terminator(l);
    let c2 = seq![SPACE, SPACE, SPACE, SPACE] + c;
    assert(spec_indent_line(l) =~= c2 + line_terminator(l));
    assert(forall|i: int| 0 <= i < c2.len() ==> c2[i] != NEWLINE);
    if terminator_len(l) == 1 && c2.len() > 0 {
        if c.len() > 0 {
            assert(c2.last() == c.last());
        } else {
            assert(c2.last() == SPACE);
        }
    }
    lemma_same_terminator(c2, l);
}

/// The leading spaces of a line all sit inside its content.
proof fn lemma_leading_spaces_in_content(l: Seq<u8>)
    ensures
        leading_spaces(l) <= line_content(l).len(),
        leading_spaces(l) == leading_spaces(line_content(l)),
{
    lemma_leading_spaces(l);
    lemma_leading_spaces(line_content(l));
    let c = line_content(l);
    let tl = terminator_len(l);
    if leading_spaces(l) > c.len() {
        assert(l[c.len() as int] == SPACE);
        assert(tl >= 1);
        assert(l[c.len() as int] == line_terminator(l)[0]);
        if tl == 2 {
            assert(l[l.len() - 2] == CARRIAGE_RETURN);
        } else {
            assert(l[l.len() - 1] == NEWLINE);
        }
        assert(false);
    }
    // the two runs agree: each bounds the other
    assert(forall|i: int| 0 <= i < c.len() ==> c[i] == l[i]);
    if leading_spaces(l) < leading_spaces(c) {
        assert(c[leading_spaces(l) as int] == SPACE);
        assert(l[leading_spaces(l) as int] == SPACE);
        assert(leading_spaces(l) < l.len());
        assert(false);
    }
    if leading_spaces(c) < leading_spaces(l) {
        assert(l[leading_spaces(c) as int] == SPACE);
        assert(c[leading_spaces(c) as int] == SPACE);
        assert(false);
    }
}

/// Unindenting never changes a line's terminator.
pub proof fn lemma_unindent_line_preserves_terminator(l: Seq<u8>)
    requires
        is_line(l),
    ensures
        line_terminator(spec_unindent_line(l)) == line_terminator(l),
        terminator_len(spec_unindent_line(l)) == terminator_len(l),
        line_content(spec_unindent_line(l)) == line_content(l).skip(unindent_amount(l)),
        has_no_newline(line_content(spec_unindent_line(l))),
{
    let c = line_content(l);
    let d = unindent_amount(l);
    lemma_line_content_shape(l);
    lemma_leading_spaces_in_content(l);
    lemma_content_terminator(l);
    let c2 = c.skip(d);
    assert(spec_unindent_line(l) =~= c2 + line_terminator(l));
    assert(forall|i: int| 0 <= i < c2.len() ==> c2[i] != NEWLINE);
    if terminator_len(l) == 1 && c2.len() > 0 {
        assert(c2.last() == c.last());
    }
    lemma_same_terminator(c2, l);
}

/// Every transform keeps the terminator and never erases a line feed, so a
/// line stays a line whenever the transform leaves it nonempty.
pub proof fn lemma_apply_op_line_shape(op: LineOp, l: Seq<u8>)
    requires
        is_line(l),
        apply_op(op, l).len() > 0,
    ensures
        is_line(apply_op(op, l)),
        is_terminated_line(l) ==> is_terminated_line(apply_op(op, l)),
        terminator_len(apply_op(op, l)) == terminator_len(l),
    decreases 0int,
{
    let r = apply_op(op, l);
    match op {
        LineOp::Toggle(flag) => {
            lemma_toggle_line_preserves_terminator(l, flag);
        },
        LineOp::Indent => {
            lemma_indent_line_preserves_terminator(l);
        },
        LineOp::Unindent => {
            lemma_unindent_line_preserves_terminator(l);
        },
    }
    lemma_line_content_shape(l);
    let c2 = line_content(r);
    assert(r =~= c2 + line_terminator(l));
    assert(forall|i: int| 0 <= i < c2.len() ==> c2[i] != NEWLINE);
    if terminator_len(l) >= 1 {
        assert(line_terminator(l).last() == NEWLINE);
        assert(r.last() == NEWLINE);
        assert forall|i: int| 0 <= i < r.len() - 1 implies r[i] != NEWLINE by {
            if i < c2.len() {
            } else {
                assert(terminator_len(l) == 2 && i == r.len() - 2);
                assert(r[i] == CARRIAGE_RETURN);
            }
        }
        assert(is_terminated_line(r));
    } else {
        assert(line_terminator(l).len() == 0);
        assert(r =~= c2);
        assert(has_no_newline(r));
        assert(is_line(r));
    }
    if is_terminated_line(l) {
        assert(l.last() == NEWLINE);
        if terminator_len(l) == 0 {
            assert(l.len() >= 1 && l[l.len() - 1] == NEWLINE);
            assert(false);
        }
    }
}

/// The rewrite engine touches only the lines of the region: the result is
/// the original lines with the transform applied inside `[lo, hi]`, every
/// line outside carried over byte for byte.
pub proof fn lemma_rewrite_locality(s: Seq<u8>, lo: int, hi: int, op: LineOp, t: Seq<u8>)
    requires
        spec_rewrite(s, lo, hi, op) == Ok::<Seq<u8>, RewriteIssue>(t),
        0 <= lo <= hi,
    ensures
        t == join(edited_lines(lines_of(s), lo, hi, op)),
        edited_lines(lines_of(s), lo, hi, op).len() == lines_of(s).len(),
        forall|i: int|
            0 <= i < lines_of(s).len() && !(lo <= i <= hi) ==> edited_lines(
                lines_of(s),
                lo,
                hi,
                op,
            )[i] == lines_of(s)[i],
        join(edited_lines(lines_of(s), lo, hi, op).take(lo)) == join(lines_of(s).take(lo)),
        join(edited_lines(lines_of(s), lo, hi, op).skip(hi + 1)) == join(lines_of(s).skip(hi + 1)),
{
    let ls = lines_of(s);
    let els = edited_lines(ls, lo, hi, op);
    assert(els.take(lo) =~= ls.take(lo));
    assert(els.skip(hi + 1) =~= ls.skip(hi + 1));
}

/// No line is overlong exactly when the first-overlong scan finds nothing.
pub proof fn lemma_first_long_none(ls: Seq<Seq<u8>>, i: int)
    requires
        0 <= i <= ls.len(),
    ensures
        first_long_line_from(ls, i) is None <==> forall|j: int|
            i <= j < ls.len() ==> #[trigger] ls[j].len() <= MAX_LINE_LENGTH,
    decreases ls.len() - i,
{
    if i < ls.len() {
        lemma_first_long_none(ls, i + 1);
    }
}

/// After a successful rewrite whose transformed lines are all nonempty, the
/// result's line decomposition is exactly the edited lines.
pub proof fn lemma_rewrite_lines(s: Seq<u8>, lo: int, hi: int, op: LineOp, t: Seq<u8>)
    requires
        spec_rewrite(s, lo, hi, op) == Ok::<Seq<u8>, RewriteIssue>(t),
        0 <= lo <= hi,
        forall|i: int|
            lo <= i <= hi && i < lines_of(s).len() ==> apply_op(op, #[trigger] lines_of(s)[i]).len()
                > 0,
    ensures
        lines_of(t) == edited_lines(lines_of(s), lo, hi, op),
{
    let ls = lines_of(s);
    let els = edited_lines(ls, lo, hi, op);
    lemma_lines_of_wf(s);
    assert(t == join(els));
    assert forall|i: int| 0 <= i < els.len() implies is_line(#[trigger] els[i]) && (i < els.len()
        - 1 ==> is_terminated_line(els[i])) by {
        if lo <= i <= hi {
            lemma_apply_op_line_shape(op, ls[i]);
        }
    }
    assert(wf_lines(els));
    lemma_lines_of_join(els);
}

/// Toggling one line twice gives the file back, provided the line's marker
/// sits at column 0 when one is removed, removal does not leave a line that
/// is itself still tagged, and the line does not vanish entirely.
#[verifier::rlimit(60)]
pub proof fn lemma_toggle_line_roundtrip(l: Seq<u8>, flag: CommentFlag)
    requires
        is_line(l),
        removable(line_content(l), flag) ==> leading_spaces(line_content(l)) == 0 && !removable(
            line_content(spec_toggle_line(l, flag)),
            flag,
        ),
    ensures
        spec_toggle_line(spec_toggle_line(l, flag), flag) == l,
{
    let c = line_content(l);
    let t = line_terminator(l);
    let mk = marker_bytes(flag);
    let m = mk.len() as int;
    lemma_content_terminator(l);
    lemma_toggle_line_preserves_terminator(l, flag);
    let r = spec_toggle_line(l, flag);
    let cr = line_content(r);
    assert(line_terminator(r) == t);
    if removable(c, flag) {
        let p = removal_pos(c);
        assert(p == 0);
        assert(cr == c.take(0) + c.skip(m + 1));
        assert(cr =~= c.skip(m + 1));
        assert(!removable(cr, flag));
        assert(spec_toggle_line(r, flag) =~= mk + seq![SPACE] + cr + t);
        assert(c.subrange(0, m) == mk);
        assert(c[m] == SPACE);
        assert(mk + seq![SPACE] + c.skip(m + 1) =~= c);
        assert(spec_toggle_line(r, flag) =~= c + t);
        assert(c + t =~= l);
    } else {
        assert(cr == mk + seq![SPACE] + c);
        // the fresh marker is removable at column 0
        assert(cr.len() >= m + 1);
        assert(cr[0] == mk[0]);
        assert(mk[0] != SPACE);
        assert(leading_spaces(cr) == 0);
        assert(scan_limit(cr) >= m + 1) by {
            assert(cr.len() >= m + 1);
            assert(m + 1 <= 4);
        }
        assert(removal_pos(cr) == 0);
        assert(cr.subrange(0, m) =~= mk);
        assert(cr[m] == SPACE);
        assert(removable(cr, flag));
        assert(spec_toggle_line(r, flag) =~= cr.take(0) + cr.skip(m + 1) + t);
        assert(cr.skip(m + 1) =~= c);
        assert(spec_toggle_line(r, flag) =~= c + t);
        assert(c + t =~= l);
    }
}

/// Toggling the same line twice in a file gives the file back byte for byte,
/// under the line-level round-trip conditions on that line.
pub proof fn lemma_toggle_at_roundtrip(s: Seq<u8>, k: int, flag: CommentFlag)
    requires
        0 <= k,
        spec_toggle_at(s, k, flag) is Ok,
        ({
            let l = lines_of(s)[k];
            &&& removable(line_content(l), flag) ==> leading_spaces(line_content(l)) == 0
                && !removable(line_content(spec_toggle_line(l, flag)), flag)
            &&& spec_toggle_line(l, flag).len() > 0
            &&& spec_toggle_line(l, flag).len() <= MAX_LINE_LENGTH
        }),
    ensures
        spec_toggle_at(spec_toggle_at(s, k, flag)->Ok_0, k, flag) == Ok::<Seq<u8>, ToggleError>(s),
{
    let ls = lines_of(s);
    let l = ls[k];
    let rl = spec_toggle_line(l, flag);
    let t = spec_toggle_at(s, k, flag)->Ok_0;
    lemma_lines_of_wf(s);
    assert(k < ls.len());
    assert(edited_lines(ls, k, k, LineOp::Toggle(flag)) =~= ls.update(k, rl));
    lemma_rewrite_lines(s, k, k, LineOp::Toggle(flag), t);
    assert(lines_of(t) == ls.update(k, rl));
    // no line of t is overlong
    lemma_first_long_none(ls, 0);
    lemma_first_long_none(ls.update(k, rl), 0);
    assert(forall|j: int|
        0 <= j < ls.update(k, rl).len() ==> #[trigger] ls.update(k, rl)[j].len()
            <= MAX_LINE_LENGTH);
    assert(first_long_line(lines_of(t)) is None);
    // the second toggle restores line k and leaves the rest alone
    lemma_toggle_line_roundtrip(l, flag);
    assert(edited_lines(lines_of(t), k, k, LineOp::Toggle(flag)) =~= ls);
    lemma_join_lines_of(s);
}

/// A range toggle, done twice, gives the file back, under the line-level
/// round-trip conditions on every line of the range.
pub proof fn lemma_toggle_range_roundtrip(s: Seq<u8>, flag: CommentFlag, a: int, b: int)
    requires
        0 <= range_lo(a, b),
        spec_toggle_range(s, flag, a, b) is Ok,
        forall|i: int|
            range_lo(a, b) <= i <= range_hi(a, b) ==> ({
                let l = #[trigger] lines_of(s)[i];
                &&& (removable(line_content(l), flag) ==> leading_spaces(line_content(l)) == 0
                    && !removable(line_content(spec_toggle_line(l, flag)), flag))
                &&& spec_toggle_line(l, flag).len() > 0
                &&& spec_toggle_line(l, flag).len() <= MAX_LINE_LENGTH
            }),
    ensures
        spec_toggle_range(spec_toggle_range(s, flag, a, b)->Ok_0, flag, a, b) == Ok::<
            Seq<u8>,
            ToggleError,
        >(s),
{
    let lo = range_lo(a, b);
    let hi = range_hi(a, b);
    let ls = lines_of(s);
    let t = spec_toggle_range(s, flag, a, b)->Ok_0;
    lemma_lines_of_wf(s);
    assert(hi < ls.len());
    assert(spec_rewrite(s, lo, hi, LineOp::Toggle(flag)) == Ok::<Seq<u8>, RewriteIssue>(t));
    lemma_rewrite_lines(s, lo, hi, LineOp::Toggle(flag), t);
    let els = edited_lines(ls, lo, hi, LineOp::Toggle(flag));
    assert(lines_of(t) == els);
    lemma_first_long_none(ls, 0);
    lemma_first_long_none(els, 0);
    assert(forall|j: int| 0 <= j < els.len() ==> #[trigger] els[j].len() <= MAX_LINE_LENGTH);
    assert(first_long_line(lines_of(t)) is None);
    assert forall|i: int| lo <= i <= hi implies #[trigger] spec_toggle_line(
        spec_toggle_line(ls[i], flag),
        flag,
    ) == ls[i] by {
        lemma_toggle_line_roundtrip(ls[i], flag);
    }
    assert(edited_lines(lines_of(t), lo, hi, LineOp::Toggle(flag)) =~= ls);
    lemma_join_lines_of(s);
}

/// Indent then unindent on the same line gives the file back, provided the
/// line did not already start with a space (so the four added spaces are
/// exactly what the unindent removes).
pub proof fn lemma_indent_unindent_roundtrip(s: Seq<u8>, k: int)
    requires
        0 <= k,
        spec_indent_at(s, k) is Ok,
        lines_of(s)[k].len() > 0 && lines_of(s)[k][0] != SPACE,
        lines_of(s)[k].len() + 4 <= MAX_LINE_LENGTH,
    ensures
        spec_unindent_at(spec_indent_at(s, k)->Ok_0, k) == Ok::<Seq<u8>, IndentError>(s),
{
    let ls = lines_of(s);
    let l = ls[k];
    let rl = spec_indent_line(l);
    let t = spec_indent_at(s, k)->Ok_0;
    lemma_lines_of_wf(s);
    assert(k < ls.len());
    assert(rl.len() == l.len() + 4);
    lemma_rewrite_lines(s, k, k, LineOp::Indent, t);
    assert(lines_of(t) == edited_lines(ls, k, k, LineOp::Indent));
    assert(lines_of(t) =~= ls.update(k, rl));
    lemma_first_long_none(ls, 0);
    lemma_first_long_none(ls.update(k, rl), 0);
    assert(forall|j: int|
        0 <= j < ls.update(k, rl).len() ==> #[trigger] ls.update(k, rl)[j].len()
            <= MAX_LINE_LENGTH);
    // unindent removes exactly the four fresh spaces
    assert(rl[0] == SPACE && rl[1] == SPACE && rl[2] == SPACE && rl[3] == SPACE);
    assert(rl[4] == l[0]);
    lemma_leading_spaces(rl);
    assert(leading_spaces(rl) >= 4) by {
        if leading_spaces(rl) < 4 {
            assert(rl[leading_spaces(rl) as int] != SPACE);
        }
    }
    assert(leading_spaces(rl) <= 4) by {
        if leading_spaces(rl) > 4 {
            assert(rl[4] == SPACE);
        }
    }
    assert(unindent_amount(rl) == 4);
    assert(spec_unindent_line(rl) =~= l);
    assert(edited_lines(lines_of(t), k, k, LineOp::Unindent) =~= ls);
    lemma_join_lines_of(s);
}

/// Normalization: a range toggle sees only the sorted range, so swapping the
/// two line arguments changes nothing.
pub proof fn lemma_toggle_range_basic_normalized(s: Seq<u8>, ext: Option<Seq<u8>>, a: int, b: int)
    ensures
        spec_toggle_range_basic(s, ext, a, b) == spec_toggle_range_basic(s, ext, b, a),
{
}

/// Normalization for the doc-comment range toggle.
pub proof fn lemma_toggle_range_docstring_normalized(s: Seq<u8>, flag: CommentFlag, a: int, b: int)
    ensures
        spec_toggle_range(s, flag, a, b) == spec_toggle_range(s, flag, b, a),
{
}

/// Normalization for the range indent.
pub proof fn lemma_indent_range_normalized(s: Seq<u8>, a: int, b: int)
    ensures
        spec_indent_range(s, a, b) == spec_indent_range(s, b, a),
{
}

/// Normalization for the range unindent.
pub proof fn lemma_unindent_range_normalized(s: Seq<u8>, a: int, b: int)
    ensures
        spec_unindent_range(s, a, b) == spec_unindent_range(s, b, a),
{
}

/// Normalization for the block toggle.
pub proof fn lemma_toggle_block_normalized(s: Seq<u8>, ext: Option<Seq<u8>>, a: int, b: int)
    ensures
        spec_toggle_block(s, ext, a, b) == spec_toggle_block(s, ext, b, a),
{
}

} // verus!
