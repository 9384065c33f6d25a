//! The line model that both editing engines share.
//!
//! A file's content is a sequence of bytes.  It decomposes into lines, each
//! carrying its own terminator: every line but the last ends with a line-feed
//! byte, and the last line either ends with one too or runs to the end of the
//! content without one.  An empty content has no lines.
//!
//! `lines_of` gives that decomposition, `join` reassembles it, and the lemmas
//! here prove the two are inverses on well-formed line sequences.  The editing
//! engines state their contracts as: split, transform some lines, join.

use vstd::prelude::*;

verus! {

/// The line-feed byte that terminates a line.
pub const NEWLINE: u8 = 10;

/// The carriage-return byte; `\r\n` endings keep the `\r` with the content side.
pub const CARRIAGE_RETURN: u8 = 13;

/// The space byte used by markers and indentation.
pub const SPACE: u8 = 32;

/// Length of the first line of `s`, terminator included; 0 for empty content.
pub open spec fn first_line_len(s: Seq<u8>) -> nat
    decreases s.len(),
{
    if s.len() == 0 {
        0
    } else if s[0] == NEWLINE {
        1
    } else {
        1 + first_line_len(s.skip(1))
    }
}

/// The first line's length is between 1 and `s.len()`, its interior holds no
/// line feed, and it either ends with a line feed or uses up all of `s`.
pub proof fn lemma_first_line_len(s: Seq<u8>)
    requires
        s.len() > 0,
    ensures
        1 <= first_line_len(s) <= s.len(),
        forall|i: int| 0 <= i < first_line_len(s) - 1 ==> s[i] != NEWLINE,
        s[first_line_len(s) - 1] == NEWLINE || first_line_len(s) == s.len(),
    decreases s.len(),
{
    if s[0] != NEWLINE {
        if s.len() > 1 {
            lemma_first_line_len(s.skip(1));
            assert forall|i: int| 0 <= i < first_line_len(s) - 1 implies s[i] != NEWLINE by {
                if i > 0 {
                    assert(s.skip(1)[i - 1] == s[i]);
                }
            }
        } else {
            assert(s.skip(1).len() == 0);
        }
    }
}

/// The lines of `s`, in order, each including its terminator if it has one.
pub open spec fn lines_of(s: Seq<u8>) -> Seq<Seq<u8>>
    decreases s.len(),
    via lines_of_dec
{
    if s.len() == 0 {
        Seq::empty()
    } else {
        seq![s.take(first_line_len(s) as int)] + lines_of(s.skip(first_line_len(s) as int))
    }
}

#[via_fn]
proof fn lines_of_dec(s: Seq<u8>) {
    if s.len() > 0 {
        lemma_first_line_len(s);
    }
}

/// Concatenation of a sequence of lines back into one byte sequence.
pub open spec fn join(ls: Seq<Seq<u8>>) -> Seq<u8>
    decreases ls.len(),
{
    if ls.len() == 0 {
        Seq::empty()
    } else {
        ls[0] + join(ls.skip(1))
    }
}

/// No byte of `l` is a line feed.
pub open spec fn has_no_newline(l: Seq<u8>) -> bool {
    forall|i: int| 0 <= i < l.len() ==> l[i] != NEWLINE
}

/// `l` is a nonempty line ending with a line feed and holding no other.
pub open spec fn is_terminated_line(l: Seq<u8>) -> bool {
    &&& l.len() > 0
    &&& l.last() == NEWLINE
    &&& forall|i: int| 0 <= i < l.len() - 1 ==> l[i] != NEWLINE
}

/// `l` is a nonempty line: terminated, or free of line feeds entirely.
pub open spec fn is_line(l: Seq<u8>) -> bool {
    is_terminated_line(l) || (l.len() > 0 && has_no_newline(l))
}

/// A line sequence as `lines_of` would produce it: every element is a line,
/// and every element before the last is terminated.
pub open spec fn wf_lines(ls: Seq<Seq<u8>>) -> bool {
    &&& forall|i: int| 0 <= i < ls.len() ==> is_line(#[trigger] ls[i])
    &&& forall|i: int| 0 <= i < ls.len() - 1 ==> is_terminated_line(#[trigger] ls[i])
}

/// How many lines `s` has.
pub open spec fn line_count(s: Seq<u8>) -> nat {
    lines_of(s).len()
}

/// The byte offset at which line `k` begins (for `k == line_count(s)`, the
/// offset just past the final newline, i.e. `s.len()`).
pub open spec fn line_start_offset(s: Seq<u8>, k: int) -> int {
    join(lines_of(s).take(k)).len() as int
}

/// A fresh line could begin at the very end of `s`: it is empty or its last
/// byte is a line feed.
pub open spec fn ends_at_line_boundary(s: Seq<u8>) -> bool {
    s.len() == 0 || s.last() == NEWLINE
}

/// Line index `k` can be addressed by a byte-offset scan: either the line
/// exists, or `k` is the empty position just after the final newline.
pub open spec fn addressable_line(s: Seq<u8>, k: int) -> bool {
    0 <= k && (k < line_count(s) || (k == line_count(s) && ends_at_line_boundary(s)))
}

/// Appending one more line to a join appends its bytes.
pub proof fn lemma_join_push(ls: Seq<Seq<u8>>, l: Seq<u8>)
    ensures
        join(ls.push(l)) == join(ls) + l,
    decreases ls.len(),
{
    if ls.len() == 0 {
        assert(ls.push(l)[0] == l);
        assert(ls.push(l).skip(1) =~= Seq::<Seq<u8>>::empty());
        assert(join(ls) =~= Seq::<u8>::empty());
        assert(join(ls.push(l).skip(1)) =~= Seq::<u8>::empty());
        assert(join(ls.push(l)) =~= join(ls) + l);
    } else {
        assert(ls.push(l)[0] == ls[0]);
        assert(ls.push(l).skip(1) =~= ls.skip(1).push(l));
        lemma_join_push(ls.skip(1), l);
        assert(join(ls.push(l)) =~= join(ls) + l);
    }
}

/// Join of a single line is that line.
pub proof fn lemma_join_singleton(l: Seq<u8>)
    ensures
        join(seq![l]) == l,
{
    assert(seq![l].skip(1) =~= Seq::<Seq<u8>>::empty());
    assert(join(seq![l].skip(1)) =~= Seq::<u8>::empty());
    assert(join(seq![l]) =~= l);
}

/// Join distributes over concatenation of line sequences.
pub proof fn lemma_join_concat(a: Seq<Seq<u8>>, b: Seq<Seq<u8>>)
    ensures
        join(a + b) == join(a) + join(b),
    decreases a.len(),
{
    if a.len() == 0 {
        assert(a + b =~= b);
        assert(join(a) =~= Seq::<u8>::empty());
        assert(join(a + b) =~= join(a) + join(b));
    } else {
        assert((a + b)[0] == a[0]);
        assert((a + b).skip(1) =~= a.skip(1) + b);
        lemma_join_concat(a.skip(1), b);
        assert(join(a + b) =~= join(a) + join(b));
    }
}

/// Splitting and rejoining gives the content back.
pub proof fn lemma_join_lines_of(s: Seq<u8>)
    ensures
        join(lines_of(s)) == s,
    decreases s.len(),
{
    if s.len() > 0 {
        lemma_first_line_len(s);
        let f = first_line_len(s) as int;
        lemma_join_lines_of(s.skip(f));
        let ls = lines_of(s);
        assert(ls[0] == s.take(f));
        assert(ls.skip(1) =~= lines_of(s.skip(f)));
        assert(join(ls) =~= s.take(f) + s.skip(f));
        assert(s.take(f) + s.skip(f) =~= s);
    }
}

/// The decomposition `lines_of` produces is well formed.
pub proof fn lemma_lines_of_wf(s: Seq<u8>)
    ensures
        wf_lines(lines_of(s)),
    decreases s.len(),
{
    if s.len() > 0 {
        lemma_first_line_len(s);
        let f = first_line_len(s) as int;
        let first = s.take(f);
        let rest = lines_of(s.skip(f));
        lemma_lines_of_wf(s.skip(f));
        let ls = lines_of(s);
        assert(ls[0] == first);
        assert(first.len() == f);
        assert(forall|i: int| 0 <= i < f - 1 ==> first[i] == s[i]);
        assert(first.last() == s[f - 1]);
        if f < s.len() {
            assert(s[f - 1] == NEWLINE);
            assert(is_terminated_line(first));
        } else {
            if s[f - 1] == NEWLINE {
                assert(is_terminated_line(first));
            } else {
                assert(has_no_newline(first));
            }
        }
        assert(forall|i: int| 1 <= i < ls.len() ==> ls[i] == rest[i - 1]);
        if f == s.len() {
            assert(s.skip(f).len() == 0);
            assert(rest.len() == 0);
        }
        assert forall|i: int| 0 <= i < ls.len() - 1 implies is_terminated_line(ls[i]) by {
            if i == 0 {
                assert(rest.len() > 0);
                assert(f < s.len());
            }
        }
    }
}

/// A line followed by anything splits off first exactly at its own length.
/// (For an unterminated line this needs the rest to be empty.)
pub proof fn lemma_first_line_len_concat(l: Seq<u8>, r: Seq<u8>)
    requires
        is_terminated_line(l) || (l.len() > 0 && has_no_newline(l) && r.len() == 0),
    ensures
        first_line_len(l + r) == l.len(),
    decreases l.len(),
{
    let s = l + r;
    assert(s.len() == l.len() + r.len());
    assert(s[0] == l[0]);
    if l[0] == NEWLINE {
        assert(l.len() == 1);
    } else {
        if l.len() == 1 {
            assert(has_no_newline(l) && r.len() == 0);
            assert(s =~= l);
            assert(s.skip(1).len() == 0);
        } else {
            assert(s.skip(1) =~= l.skip(1) + r);
            assert(l.skip(1).len() > 0);
            if is_terminated_line(l) {
                assert(l.skip(1).last() == l.last());
                assert forall|i: int| 0 <= i < l.skip(1).len() - 1 implies l.skip(1)[i] != NEWLINE by {
                    assert(l.skip(1)[i] == l[i + 1]);
                }
                assert(is_terminated_line(l.skip(1)));
            } else {
                assert forall|i: int| 0 <= i < l.skip(1).len() implies l.skip(1)[i] != NEWLINE by {
                    assert(l.skip(1)[i] == l[i + 1]);
                }
            }
            lemma_first_line_len_concat(l.skip(1), r);
        }
    }
}

/// Joining a well-formed line sequence and splitting again gives it back.
pub proof fn lemma_lines_of_join(ls: Seq<Seq<u8>>)
    requires
        wf_lines(ls),
    ensures
        lines_of(join(ls)) == ls,
    decreases ls.len(),
{
    if ls.len() == 0 {
        assert(join(ls).len() == 0);
        assert(lines_of(join(ls)) =~= ls);
    } else {
        let l = ls[0];
        let rest = ls.skip(1);
        let s = join(ls);
        assert(s == l + join(rest));
        assert(is_line(l));
        assert(l.len() > 0);
        assert(s.len() >= l.len());
        if ls.len() == 1 {
            assert(rest.len() == 0);
            assert(join(rest).len() == 0);
            lemma_first_line_len_concat(l, join(rest));
            assert(first_line_len(s) == l.len());
            assert(s.take(l.len() as int) =~= l);
            assert(s.skip(l.len() as int).len() == 0);
            assert(lines_of(s.skip(l.len() as int)) =~= Seq::<Seq<u8>>::empty());
            assert(lines_of(s) == seq![s.take(l.len() as int)] + lines_of(s.skip(l.len() as int)));
            assert(lines_of(s) =~= ls);
        } else {
            assert(is_terminated_line(l));
            assert(rest[0].len() > 0);
            assert(join(rest) == rest[0] + join(rest.skip(1)));
            assert(join(rest).len() > 0);
            lemma_first_line_len_concat(l, join(rest));
            assert(first_line_len(s) == l.len());
            assert(s.take(l.len() as int) =~= l);
            assert(s.skip(l.len() as int) =~= join(rest));
            assert(forall|i: int| 0 <= i < rest.len() ==> rest[i] == ls[i + 1]);
            lemma_lines_of_join(rest);
            assert(lines_of(s) == seq![s.take(l.len() as int)] + lines_of(s.skip(l.len() as int)));
            assert(lines_of(s) =~= seq![l] + rest);
            assert(seq![l] + rest =~= ls);
        }
    }
}

/// The view of a byte-vector result, for stating contracts over it.
pub open spec fn res_view<E>(r: Result<Vec<u8>, E>) -> Result<Seq<u8>, E> {
    match r {
        Ok(v) => Ok(v@),
        Err(e) => Err(e),
    }
}

/// Append the bytes of a slice to a vector.
pub fn append_slice(out: &mut Vec<u8>, src: &[u8])
    ensures
        final(out)@ == old(out)@ + src@,
{
    let mut j: usize = 0;
    while j < src.len()
        invariant
            j <= src.len(),
            out@ == old(out)@ + src@.subrange(0, j as int),
        decreases src@.len() - j,
    {
        out.push(src[j]);
        j += 1;
        proof {
            assert(src@.subrange(0, j as int) =~= src@.subrange(0, j - 1) + seq![src@[j - 1]]);
            assert(out@ =~= old(out)@ + src@.subrange(0, j as int));
        }
    }
    proof {
        assert(src@.subrange(0, src@.len() as int) =~= src@);
    }
}

/// Append the bytes `src[from..to]` to a vector.
pub fn append_range(out: &mut Vec<u8>, src: &[u8], from: usize, to: usize)
    requires
        from <= to <= src@.len(),
    ensures
        final(out)@ == old(out)@ + src@.subrange(from as int, to as int),
{
    let mut j: usize = from;
    while j < to
        invariant
            from <= j <= to <= src@.len(),
            out@ == old(out)@ + src@.subrange(from as int, j as int),
        decreases to - j,
    {
        out.push(src[j]);
        j += 1;
        proof {
            assert(src@.subrange(from as int, j as int) =~= src@.subrange(from as int, j - 1)
                + seq![src@[j - 1]]);
            assert(out@ =~= old(out)@ + src@.subrange(from as int, j as int));
        }
    }
}

/// Whether two byte slices hold the same bytes.
pub fn bytes_eq(a: &[u8], b: &[u8]) -> (r: bool)
    ensures
        r <==> a@ == b@,
{
    if a.len() != b.len() {
        proof {
            assert(a@.len() != b@.len());
        }
        return false;
    }
    let mut j: usize = 0;
    while j < a.len()
        invariant
            j <= a@.len() == b@.len(),
            forall|i: int| 0 <= i < j ==> a@[i] == b@[i],
        decreases a@.len() - j,
    {
        if a[j] != b[j] {
            return false;
        }
        j += 1;
    }
    proof {
        assert(a@ =~= b@);
    }
    true
}

/// Split content into its lines, terminators included.
pub fn split_lines(content: &[u8]) -> (out: Vec<Vec<u8>>)
    ensures
        out.deep_view() == lines_of(content@),
{
    let s = content;
    let ghost sv = content@;
    let mut out: Vec<Vec<u8>> = Vec::new();
    let mut cur: Vec<u8> = Vec::new();
    let mut done: usize = 0;
    let mut i: usize = 0;
    proof {
        assert(out.deep_view() =~~= Seq::<Seq<u8>>::empty());
        assert(sv.skip(0) =~= sv);
        assert(out.deep_view() + lines_of(sv.skip(0)) =~= lines_of(sv));
        assert(cur@ =~= sv.subrange(0, 0));
    }
    while i < s.len()
        invariant
            0 <= done <= i <= sv.len(),
            s@ == sv,
            cur@ == sv.subrange(done as int, i as int),
            forall|j: int| done <= j < i ==> sv[j] != NEWLINE,
            lines_of(sv) == out.deep_view() + lines_of(sv.skip(done as int)),
        decreases sv.len() - i,
    {
        let b = s[i];
        cur.push(b);
        i += 1;
        proof {
            assert(cur@ =~= sv.subrange(done as int, i as int));
        }
        if b == NEWLINE {
            proof {
                let suffix = sv.skip(done as int);
                lemma_first_line_len(suffix);
                // every candidate length other than the observed one contradicts
                // the scanned bytes, so the first line is exactly cur
                assert(suffix.len() > 0);
                assert(suffix[i - 1 - done] == NEWLINE);
                assert(forall|j: int| 0 <= j < i - 1 - done ==> suffix[j] != NEWLINE);
                let f = first_line_len(suffix) as int;
                if f < i - done {
                    assert(suffix[f - 1] == NEWLINE || f == suffix.len());
                    assert(false);
                }
                if f > i - done {
                    assert(suffix[i - 1 - done] != NEWLINE);
                    assert(false);
                }
                assert(f == i - done);
                assert(suffix.take(f) =~= cur@);
                assert(suffix.skip(f) =~= sv.skip(i as int));
                assert(lines_of(suffix) == seq![cur@] + lines_of(sv.skip(i as int)));
                assert(out.deep_view().push(cur@) + lines_of(sv.skip(i as int)) =~= out.deep_view()
                    + lines_of(suffix));
            }
            let ghost prev = out.deep_view();
            let ghost curv = cur@;
            out.push(cur);
            proof {
                assert(out.deep_view() =~~= prev.push(curv));
            }
            cur = Vec::new();
            done = i;
            proof {
                assert(cur@ =~= sv.subrange(done as int, i as int));
            }
        }
    }
    if cur.len() > 0 {
        proof {
            let suffix = sv.skip(done as int);
            lemma_first_line_len(suffix);
            let f = first_line_len(suffix) as int;
            assert(forall|j: int| 0 <= j < suffix.len() ==> suffix[j] != NEWLINE);
            if f < suffix.len() {
                assert(suffix[f - 1] == NEWLINE || f == suffix.len());
                assert(false);
            }
            assert(f == suffix.len());
            assert(suffix.take(f) =~= cur@);
            assert(suffix.skip(f).len() == 0);
            assert(lines_of(suffix.skip(f)) =~= Seq::<Seq<u8>>::empty());
            assert(lines_of(suffix) == seq![suffix.take(f)] + lines_of(suffix.skip(f)));
            assert(lines_of(suffix) =~= seq![cur@]);
        }
        let ghost prev = out.deep_view();
        let ghost curv = cur@;
        out.push(cur);
        proof {
            assert(out.deep_view() =~~= prev.push(curv));
            assert(prev.push(curv) =~= prev + seq![curv]);
        }
    } else {
        proof {
            assert(sv.skip(done as int).len() == 0);
            assert(lines_of(sv.skip(done as int)) =~= Seq::<Seq<u8>>::empty());
            assert(out.deep_view() + lines_of(sv.skip(done as int)) =~= out.deep_view());
        }
    }
    out
}

} // verus!
