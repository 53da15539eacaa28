//! What splitting a stream into lines does to its bytes.

use crate::lines::{
    after_line, first_line, lemma_line_end_is, readable, readable_lines, CR, LF,
};
use vstd::prelude::*;
use vstd::utf8::valid_utf8;

verus! {

/// `parts` in a row, `end` behind each.
pub open spec fn joined(parts: Seq<Seq<u8>>, end: Seq<u8>) -> Seq<u8> {
    Seq::new(parts.len(), |i: int| parts[i] + end).flatten()
}

/// The first of the parts and what follows.
pub proof fn lemma_joined_next(parts: Seq<Seq<u8>>, end: Seq<u8>)
    requires
        parts.len() > 0,
    ensures
        joined(parts, end) == parts[0] + end + joined(parts.drop_first(), end),
{
    let all = Seq::new(parts.len(), |i: int| parts[i] + end);
    let rest = Seq::new(parts.drop_first().len(), |i: int| parts.drop_first()[i] + end);
    assert(all.drop_first() =~= rest);
    assert(all.first() == parts[0] + end);
}

/// One more part behind the others.
pub proof fn lemma_joined_push(parts: Seq<Seq<u8>>, part: Seq<u8>, end: Seq<u8>)
    ensures
        joined(parts.push(part), end) == joined(parts, end) + part + end,
{
    let all = Seq::new(parts.push(part).len(), |i: int| parts.push(part)[i] + end);
    let init = Seq::new(parts.len(), |i: int| parts[i] + end);
    assert(all =~= init.push(part + end));
    init.lemma_flatten_push(part + end);
    assert(joined(parts.push(part), end) =~= joined(parts, end) + part + end);
}

/// A line feed is the byte 10 and a carriage return the byte 13.
pub proof fn law_terminator_bytes()
    ensures
        LF == 10u8,
        CR == 13u8,
{
}

/// What a line is: everything before its terminator, which is a line feed or a
/// carriage return and a line feed, and nothing less, whatever follows. A
/// carriage return anywhere else belongs to the line, and so does one at the end
/// of a stream without a line feed.
pub proof fn law_first_line(x: Seq<u8>, t: Seq<u8>)
    requires
        !x.contains(10u8),
    ensures
        first_line(x + seq![13u8, 10u8] + t) == x,
        after_line(x + seq![13u8, 10u8] + t) == t,
        x.len() == 0 || x.last() != 13u8 ==> first_line(x + seq![10u8] + t) == x,
        after_line(x + seq![10u8] + t) == t,
        first_line(x) == x,
        after_line(x) == Seq::<u8>::empty(),
{
    let n = x.len() as int;
    assert forall|i: int| 0 <= i < n implies x[i] != 10u8 by {
        assert(x.contains(x[i]));
    }
    lemma_line_end_is(x, n);
    let a = x + seq![13u8, 10u8] + t;
    assert forall|i: int| 0 <= i < n implies a[i] != LF by {
        assert(a[i] == x[i]);
    }
    assert(a[n] == 13u8 && a[n + 1] == 10u8);
    lemma_line_end_is(a, n + 1);
    assert(a.take(n + 1).last() == 13u8);
    assert(a.take(n + 1).drop_last() =~= x);
    assert(a.skip(n + 2) =~= t);
    let b = x + seq![10u8] + t;
    assert forall|i: int| 0 <= i < n implies b[i] != LF by {
        assert(b[i] == x[i]);
    }
    assert(b[n] == 10u8);
    lemma_line_end_is(b, n);
    assert(b.take(n) =~= x);
    assert(b.skip(n + 1) =~= t);
}

/// `end` ends a line after each of `lines`, none of which holds a line feed: it
/// is a carriage return and a line feed, or a line feed alone where no line ends
/// with a carriage return.
pub open spec fn ends_lines(lines: Seq<Seq<u8>>, end: Seq<u8>) -> bool {
    &&& forall|i: int| 0 <= i < lines.len() ==> !(#[trigger] lines[i]).contains(10u8)
    &&& end == seq![13u8, 10u8] || (end == seq![10u8] && forall|i: int|
        0 <= i < lines.len() && (#[trigger] lines[i]).len() > 0 ==> lines[i].last() != 13u8)
}

/// Lines that are UTF-8, each with its terminator, are read as those lines,
/// before whatever is read of the rest.
pub proof fn law_lines_read(lines: Seq<Seq<u8>>, end: Seq<u8>, rest: Seq<u8>)
    requires
        ends_lines(lines, end),
        forall|i: int| 0 <= i < lines.len() ==> valid_utf8(#[trigger] lines[i]),
    ensures
        readable_lines(joined(lines, end) + rest) == lines + readable_lines(rest),
        readable(joined(lines, end) + rest) == readable(rest),
    decreases lines.len(),
{
    if lines.len() == 0 {
        assert(joined(lines, end) + rest =~= rest);
        assert(lines + readable_lines(rest) =~= readable_lines(rest));
    } else {
        let later = lines.drop_first();
        assert forall|i: int| 0 <= i < later.len() implies !(#[trigger] later[i]).contains(10u8)
            && valid_utf8(later[i]) && (later[i].len() > 0 && end == seq![10u8] ==> later[i].last()
            != 13u8) by {
            assert(later[i] == lines[i + 1]);
        }
        if end != seq![13u8, 10u8] {
            assert forall|i: int|
                0 <= i < later.len() && (#[trigger] later[i]).len() > 0 implies later[i].last()
                != 13u8 by {
                assert(later[i] == lines[i + 1]);
            }
        }
        assert(ends_lines(later, end));
        law_lines_read(later, end, rest);
        lemma_joined_next(lines, end);
        let t = joined(later, end) + rest;
        let s = joined(lines, end) + rest;
        assert(s =~= lines[0] + end + t);
        law_first_line(lines[0], t);
        assert(lines + readable_lines(rest) =~= seq![lines[0]] + (later + readable_lines(rest)));
    }
}

/// Bytes without a line feed at the end of a stream are a line, as they are.
pub proof fn law_last_line(x: Seq<u8>)
    requires
        x.len() > 0,
        !x.contains(10u8),
    ensures
        valid_utf8(x) ==> readable_lines(x) == seq![x] && readable(x),
        !valid_utf8(x) ==> readable_lines(x) == Seq::<Seq<u8>>::empty() && !readable(x),
{
    law_first_line(x, Seq::empty());
    assert(readable(Seq::empty()));
    assert(readable_lines(Seq::empty()) =~= Seq::empty());
    if valid_utf8(x) {
        assert(readable_lines(x) =~= seq![x]);
    }
}

/// `end` ends the line `x` before `rest`: as [`ends_lines`] says, or, where
/// nothing follows, by being empty.
pub open spec fn ends_line(x: Seq<u8>, end: Seq<u8>, rest: Seq<u8>) -> bool {
    &&& !x.contains(10u8)
    &&& {
        ||| end == seq![13u8, 10u8]
        ||| end == seq![10u8] && (x.len() > 0 ==> x.last() != 13u8)
        ||| end.len() == 0 && rest.len() == 0
    }
}

/// A line that is not UTF-8 is not read, nor anything after it, however it ends.
pub proof fn law_unreadable_line(x: Seq<u8>, end: Seq<u8>, rest: Seq<u8>)
    requires
        ends_line(x, end, rest),
        !valid_utf8(x),
    ensures
        readable_lines(x + end + rest) == Seq::<Seq<u8>>::empty(),
        !readable(x + end + rest),
{
    law_first_line(x, rest);
    assert(x.len() > 0) by {
        if x.len() == 0 {
            assert(valid_utf8(x));
        }
    }
    if end.len() == 0 {
        assert(x + end + rest =~= x);
    }
    assert((x + end + rest).len() > 0);
}

} // verus!
