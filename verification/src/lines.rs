//! Splitting a byte stream into text lines.
//!
//! A line ends at a line feed; the line feed, and one carriage return directly
//! before it, are not part of the line. Bytes after the last line feed form a
//! last line of their own, kept as they are. A line that is not UTF-8 cannot be
//! read, and nothing after it is.

use vstd::prelude::*;
use vstd::utf8::valid_utf8;

verus! {

/// The line feed byte.
pub const LF: u8 = 10;

/// The carriage return byte.
pub const CR: u8 = 13;

/// Position of the first line feed, or the length where there is none.
pub open spec fn line_end(s: Seq<u8>) -> int
    decreases s.len(),
{
    if s.len() == 0 || s[0] == LF {
        0
    } else {
        1 + line_end(s.skip(1))
    }
}

/// `line` without a carriage return at its end.
pub open spec fn without_cr(line: Seq<u8>) -> Seq<u8> {
    if line.len() > 0 && line.last() == CR {
        line.drop_last()
    } else {
        line
    }
}

/// The first line of `s`, without its terminator.
pub open spec fn first_line(s: Seq<u8>) -> Seq<u8> {
    if line_end(s) < s.len() {
        without_cr(s.take(line_end(s)))
    } else {
        s
    }
}

/// What follows the first line of `s` and its terminator.
pub open spec fn after_line(s: Seq<u8>) -> Seq<u8> {
    if line_end(s) < s.len() {
        s.skip(line_end(s) + 1)
    } else {
        Seq::empty()
    }
}

/// Every line of `s` is UTF-8.
pub open spec fn readable(s: Seq<u8>) -> bool
    decreases s.len(),
{
    proof {
        lemma_line_end(s);
    }
    s.len() == 0 || (valid_utf8(first_line(s)) && readable(after_line(s)))
}

/// The lines of `s` up to the first that is not UTF-8.
pub open spec fn readable_lines(s: Seq<u8>) -> Seq<Seq<u8>>
    decreases s.len(),
{
    proof {
        lemma_line_end(s);
    }
    if s.len() == 0 || !valid_utf8(first_line(s)) {
        Seq::empty()
    } else {
        seq![first_line(s)] + readable_lines(after_line(s))
    }
}

/// What [`line_end`] says in terms of positions.
pub proof fn lemma_line_end(s: Seq<u8>)
    ensures
        0 <= line_end(s) <= s.len(),
        forall|i: int| 0 <= i < line_end(s) ==> s[i] != LF,
        line_end(s) < s.len() ==> s[line_end(s)] == LF,
    decreases s.len(),
{
    if s.len() > 0 && s[0] != LF {
        let t = s.skip(1);
        lemma_line_end(t);
        assert forall|i: int| 0 <= i < line_end(s) implies s[i] != LF by {
            if i > 0 {
                assert(t[i - 1] == s[i]);
            }
        }
        if line_end(s) < s.len() {
            assert(t[line_end(t)] == s[line_end(s)]);
        }
    }
}

/// The end of a line is the only position with nothing but other bytes before
/// it that holds a line feed or ends the sequence.
pub proof fn lemma_line_end_is(s: Seq<u8>, at: int)
    requires
        0 <= at <= s.len(),
        forall|i: int| 0 <= i < at ==> s[i] != LF,
        at < s.len() ==> s[at] == LF,
    ensures
        line_end(s) == at,
{
    lemma_line_end(s);
}

/// Position of the first line feed at or after `from`, or the length.
pub fn find_line_end(s: &[u8], from: usize) -> (at: usize)
    requires
        from <= s@.len(),
    ensures
        at == from + line_end(s@.skip(from as int)),
        from <= at <= s@.len(),
        forall|i: int| from <= i < at ==> s@[i] != 10u8,
        at < s@.len() ==> s@[at as int] == 10u8,
{
    let mut at: usize = from;
    while at < s.len() && s[at] != LF
        invariant
            from <= at <= s@.len(),
            forall|i: int| from <= i < at ==> s@[i] != LF,
        decreases s@.len() - at,
    {
        at += 1;
    }
    proof {
        lemma_line_end_is(s@.skip(from as int), at - from);
    }
    at
}

/// The line that begins at `from`, without its terminator, and the position
/// behind the terminator.
pub fn next_line(s: &[u8], from: usize) -> (r: (&[u8], usize))
    requires
        from < s@.len(),
    ensures
        r.0@ == first_line(s@.skip(from as int)),
        from < r.1 <= s@.len(),
        s@.skip(r.1 as int) == after_line(s@.skip(from as int)),
        r.0@.len() <= r.1 - from,
        r.1 < s@.len() ==> r.0@.len() < r.1 - from,
        r.0@ == s@.subrange(from as int, from + r.0@.len()),
        !r.0@.contains(10u8),
{
    let end = find_line_end(s, from);
    let ghost rest = s@.skip(from as int);
    if end < s.len() {
        assert(rest.skip(end - from + 1) =~= s@.skip(end + 1));
        assert(rest.take(end - from) =~= s@.subrange(from as int, end as int));
        if from < end && s[end - 1] == CR {
            assert(rest.take(end - from).drop_last() =~= s@.subrange(from as int, end - 1));
            (vstd::slice::slice_subrange(s, from, end - 1), end + 1)
        } else {
            (vstd::slice::slice_subrange(s, from, end), end + 1)
        }
    } else {
        assert(s@.subrange(from as int, end as int) =~= rest);
        assert(s@.skip(end as int) =~= Seq::empty());
        (vstd::slice::slice_subrange(s, from, end), end)
    }
}

/// Whether bytes are UTF-8, by `core::str::from_utf8`.
///
/// Trusted: that it accepts exactly the valid UTF-8 sequences.
#[verifier::external_body]
pub(crate) fn is_utf8(bytes: &[u8]) -> (r: bool)
    ensures
        r == valid_utf8(bytes@),
{
    core::str::from_utf8(bytes).is_ok()
}

} // verus!
