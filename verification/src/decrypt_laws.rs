//! What decrypting makes of the bytes of a line and of a stream.

use crate::decrypt::{decrypt_failed, parse_failed, NotUtf8};
use crate::line_laws::{
    ends_line, ends_lines, joined, law_last_line, law_lines_read, law_unreadable_line,
};
use crate::lines::{readable, readable_lines, LF};
use crate::record::{
    GksKeyMaterial, MatchSpec, ReaderModel, Record, RecordReader, RecordSpec, SentinelMatch,
    AES_KEY_LEN, SESSION_ID_LEN,
};
use vstd::prelude::*;
use vstd::seq_lib::lemma_flatten_concat;
use vstd::string::*;
use vstd::utf8::valid_utf8;

verus! {

/// The bytes of `<<parse failed: `.
pub open spec fn parse_failed_bytes() -> Seq<u8> {
    seq![
        60u8, 60u8, 112u8, 97u8, 114u8, 115u8, 101u8, 32u8, 102u8, 97u8, 105u8, 108u8, 101u8,
        100u8, 58u8, 32u8,
    ]
}

/// The bytes of `<<decrypt failed: `.
pub open spec fn decrypt_failed_bytes() -> Seq<u8> {
    seq![
        60u8, 60u8, 100u8, 101u8, 99u8, 114u8, 121u8, 112u8, 116u8, 32u8, 102u8, 97u8, 105u8,
        108u8, 101u8, 100u8, 58u8, 32u8,
    ]
}

/// The markers hold the text of the error as it is, between fixed bytes.
pub proof fn law_markers(text: Seq<u8>)
    ensures
        parse_failed(text) == parse_failed_bytes() + text + seq![62u8, 62u8],
        decrypt_failed(text) == decrypt_failed_bytes() + text + seq![62u8, 62u8],
{
    reveal_strlit("<<parse failed: ");
    reveal_strlit("<<decrypt failed: ");
    reveal_strlit(">>");
    is_ascii_spec_bytes("<<parse failed: ");
    is_ascii_spec_bytes("<<decrypt failed: ");
    is_ascii_spec_bytes(">>");
    assert(is_ascii("<<parse failed: "));
    assert(is_ascii("<<decrypt failed: "));
    assert(is_ascii(">>"));
    assert("<<parse failed: ".spec_bytes() =~= parse_failed_bytes());
    assert("<<decrypt failed: ".spec_bytes() =~= decrypt_failed_bytes());
    assert(">>".spec_bytes() =~= seq![62u8, 62u8]);
}

/// What a search from `at` in `line` comes upon puts `out` into the output and
/// sends the search on to `next`; `hit` says that it is a record that opened. The
/// bytes from `at` up to a record stay as they are; a record leaves its plaintext,
/// or a marker with the error; something malformed passes through up to its first
/// byte; where nothing is found the rest of the line stays.
pub open spec fn leaves(
    r: ReaderModel,
    gks: Seq<u8>,
    line: Seq<u8>,
    at: int,
    out: Seq<u8>,
    hit: bool,
    next: int,
) -> bool {
    &&& 0 <= at < line.len()
    &&& match (r.find)(line, at) {
        MatchSpec::NotFound => !hit && next == line.len() && out == line.skip(at),
        MatchSpec::Malformed { start } => {
            &&& at <= start < usize::MAX
            &&& !hit
            &&& next == vstd::math::min(start + 1, line.len() as int)
            &&& out == line.subrange(at, next)
        },
        MatchSpec::Found { start, end, payload } => {
            &&& at <= start <= line.len()
            &&& at < end
            &&& next == end
            &&& match (r.parse)(payload) {
                Err(text) => !hit && out == line.subrange(at, start) + parse_failed_bytes() + text
                    + seq![62u8, 62u8],
                Ok(record) => match (r.open)((r.derive)(gks, record.session_id), record) {
                    Err(text) => !hit && out == line.subrange(at, start) + decrypt_failed_bytes()
                        + text + seq![62u8, 62u8],
                    Ok(plaintext) => hit && out == line.subrange(at, start) + plaintext,
                },
            }
        },
    }
}

/// One step of a search after another, from `ats[0]` to the end of the line.
pub open spec fn leave_all(
    r: ReaderModel,
    gks: Seq<u8>,
    line: Seq<u8>,
    ats: Seq<int>,
    outs: Seq<Seq<u8>>,
    hits: Seq<bool>,
) -> bool {
    &&& ats.len() == outs.len() + 1
    &&& hits.len() == outs.len()
    &&& forall|i: int|
        0 <= i < outs.len() ==> leaves(
            r,
            gks,
            line,
            ats[i],
            #[trigger] outs[i],
            hits[i],
            ats[i + 1],
        )
    &&& ats.last() >= line.len()
}

impl ReaderModel {
    /// The rest of a line, from one step of the search on.
    proof fn lemma_steps(
        self,
        gks: Seq<u8>,
        line: Seq<u8>,
        ats: Seq<int>,
        outs: Seq<Seq<u8>>,
        hits: Seq<bool>,
    )
        requires
            leave_all(self, gks, line, ats, outs, hits),
        ensures
            self.line_body(gks, line, ats[0]).0 == outs.flatten(),
            self.line_body(gks, line, ats[0]).1 == hits.contains(true),
        decreases outs.len(),
    {
        if outs.len() == 0 {
            assert(ats.last() == ats[0]);
            assert(outs.flatten() =~= Seq::empty());
        } else {
            let at = ats[0];
            let next = ats[1];
            let later = outs.drop_first();
            assert(leaves(self, gks, line, at, outs[0], hits[0], next));
            assert forall|i: int| 0 <= i < later.len() implies leaves(
                self,
                gks,
                line,
                ats.drop_first()[i],
                #[trigger] later[i],
                hits.drop_first()[i],
                ats.drop_first()[i + 1],
            ) by {
                assert(later[i] == outs[i + 1]);
                assert(ats.drop_first()[i] == ats[i + 1]);
                assert(ats.drop_first()[i + 1] == ats[i + 2]);
                assert(hits.drop_first()[i] == hits[i + 1]);
            }
            assert(ats.drop_first().last() == ats.last());
            self.lemma_steps(gks, line, ats.drop_first(), later, hits.drop_first());
            let rest = self.line_body(gks, line, next);
            assert(outs.flatten() == outs[0] + rest.0);
            assert(hits.contains(true) == (hits[0] || hits.drop_first().contains(true))) by {
                if hits.contains(true) && !hits[0] {
                    let i = choose|i: int| 0 <= i < hits.len() && hits[i] == true;
                    assert(hits.drop_first()[i - 1] == true);
                }
                if hits.drop_first().contains(true) {
                    let i = choose|i: int|
                        0 <= i < hits.drop_first().len() && hits.drop_first()[i] == true;
                    assert(hits[i + 1] == true);
                }
                if hits[0] {
                    assert(hits.contains(hits[0]));
                }
            }
            match (self.find)(line, at) {
                MatchSpec::NotFound => {
                    assert(rest == (Seq::<u8>::empty(), false));
                    assert(outs[0] + rest.0 =~= line.skip(at));
                },
                MatchSpec::Malformed { start } => {},
                MatchSpec::Found { start, end, payload } => {
                    let gap = line.subrange(at, start);
                    match (self.parse)(payload) {
                        Err(text) => {
                            law_markers(text);
                            assert(gap + parse_failed(text) + rest.0 =~= outs[0] + rest.0);
                        },
                        Ok(record) => {
                            match (self.open)((self.derive)(gks, record.session_id), record) {
                                Err(text) => {
                                    law_markers(text);
                                    assert(gap + decrypt_failed(text) + rest.0 =~= outs[0]
                                        + rest.0);
                                },
                                Ok(plaintext) => {
                                    assert(gap + plaintext + rest.0 =~= outs[0] + rest.0);
                                },
                            }
                        },
                    }
                    assert(self.line_body(gks, line, at).0 =~= outs[0] + rest.0);
                },
            }
        }
    }

    /// What becomes of a line: every byte outside the records that a search comes
    /// upon stays, in order; each record leaves its plaintext or a marker; and a
    /// line feed comes behind exactly where no record opened.
    pub proof fn law_line(
        self,
        gks: Seq<u8>,
        line: Seq<u8>,
        ats: Seq<int>,
        outs: Seq<Seq<u8>>,
        hits: Seq<bool>,
    )
        requires
            leave_all(self, gks, line, ats, outs, hits),
            ats[0] == 0,
        ensures
            self.line_output(gks, line) == outs.flatten() + (if hits.contains(true) {
                Seq::<u8>::empty()
            } else {
                seq![10u8]
            }),
    {
        self.lemma_steps(gks, line, ats, outs, hits);
        assert(outs.flatten() + Seq::<u8>::empty() =~= outs.flatten());
        assert(outs.flatten().push(LF) =~= outs.flatten() + seq![10u8]);
    }

    /// Text around a record on a line stays as it is, on both sides and whatever
    /// its length, and the plaintext of the record stands between.
    pub proof fn law_text_around_record(
        self,
        gks: Seq<u8>,
        pre: Seq<u8>,
        text: Seq<u8>,
        post: Seq<u8>,
        payload: Seq<u8>,
        record: RecordSpec,
        plaintext: Seq<u8>,
    )
        requires
            text.len() > 0,
            (self.find)(pre + text + post, 0) == (MatchSpec::Found {
                start: pre.len() as int,
                end: (pre.len() + text.len()) as int,
                payload,
            }),
            (self.parse)(payload) == Ok::<RecordSpec, Seq<u8>>(record),
            (self.open)((self.derive)(gks, record.session_id), record) == Ok::<
                Seq<u8>,
                Seq<u8>,
            >(plaintext),
            post.len() > 0 ==> (self.find)(
                pre + text + post,
                (pre.len() + text.len()) as int,
            ) is NotFound,
        ensures
            self.line_output(gks, pre + text + post) == pre + plaintext + post,
    {
        let line = pre + text + post;
        let end = (pre.len() + text.len()) as int;
        let first = pre + plaintext;
        assert(line.subrange(0, pre.len() as int) =~= pre);
        assert(leaves(self, gks, line, 0, first, true, end));
        if post.len() == 0 {
            let outs = seq![first];
            let hits = seq![true];
            assert(leave_all(self, gks, line, seq![0int, end], outs, hits));
            self.law_line(gks, line, seq![0int, end], outs, hits);
            assert(hits[0] == true);
            outs.lemma_flatten_one_element();
            assert(first + Seq::<u8>::empty() =~= pre + plaintext + post);
        } else {
            let outs = seq![first, post];
            let hits = seq![true, false];
            let ats = seq![0int, end, line.len() as int];
            assert(line.skip(end) =~= post);
            assert(leaves(self, gks, line, end, post, false, line.len() as int));
            assert(leave_all(self, gks, line, ats, outs, hits));
            self.law_line(gks, line, ats, outs, hits);
            assert(hits[0] == true);
            assert(outs =~= seq![first] + seq![post]);
            lemma_flatten_concat(seq![first], seq![post]);
            seq![first].lemma_flatten_one_element();
            seq![post].lemma_flatten_one_element();
            assert(first + post + Seq::<u8>::empty() =~= pre + plaintext + post);
        }
    }

    /// A line with a record in it that does not open, and text around it, keeps
    /// the text and gets a marker and a line feed.
    pub proof fn law_text_around_failure(
        self,
        gks: Seq<u8>,
        pre: Seq<u8>,
        text: Seq<u8>,
        payload: Seq<u8>,
        why: Seq<u8>,
    )
        requires
            text.len() > 0,
            (self.find)(pre + text, 0) == (MatchSpec::Found {
                start: pre.len() as int,
                end: (pre.len() + text.len()) as int,
                payload,
            }),
        ensures
            (self.parse)(payload) == Err::<RecordSpec, Seq<u8>>(why) ==> self.line_output(
                gks,
                pre + text,
            ) == pre + parse_failed_bytes() + why + seq![62u8, 62u8] + seq![10u8],
            ((self.parse)(payload) matches Ok(record) && (self.open)(
                (self.derive)(gks, record.session_id),
                record,
            ) == Err::<Seq<u8>, Seq<u8>>(why)) ==> self.line_output(gks, pre + text) == pre
                + decrypt_failed_bytes() + why + seq![62u8, 62u8] + seq![10u8],
    {
        let line = pre + text;
        let ats = seq![0int, line.len() as int];
        let hits = seq![false];
        assert(line.subrange(0, pre.len() as int) =~= pre);
        assert(!hits.contains(true));
        let a = pre + parse_failed_bytes() + why + seq![62u8, 62u8];
        let b = pre + decrypt_failed_bytes() + why + seq![62u8, 62u8];
        seq![a].lemma_flatten_one_element();
        seq![b].lemma_flatten_one_element();
        match (self.parse)(payload) {
            Err(t) => {
                if t == why {
                    assert(leaves(self, gks, line, 0, a, false, line.len() as int));
                    assert(leave_all(self, gks, line, ats, seq![a], hits));
                    self.law_line(gks, line, ats, seq![a], hits);
                }
            },
            Ok(record) => {
                if (self.open)((self.derive)(gks, record.session_id), record) == Err::<
                    Seq<u8>,
                    Seq<u8>,
                >(why) {
                    assert(leaves(self, gks, line, 0, b, false, line.len() as int));
                    assert(leave_all(self, gks, line, ats, seq![b], hits));
                    self.law_line(gks, line, ats, seq![b], hits);
                }
            },
        }
    }

    /// The output for lines is the output for each, in a row.
    pub proof fn law_lines_each(self, gks: Seq<u8>, lines: Seq<Seq<u8>>)
        ensures
            self.lines_output(gks, lines) == Seq::new(
                lines.len(),
                |i: int| self.line_output(gks, lines[i]),
            ).flatten(),
        decreases lines.len(),
    {
        let each = Seq::new(lines.len(), |i: int| self.line_output(gks, lines[i]));
        if lines.len() > 0 {
            let later = lines.drop_first();
            self.law_lines_each(gks, later);
            assert(each.drop_first() =~= Seq::new(
                later.len(),
                |i: int| self.line_output(gks, later[i]),
            ));
        } else {
            assert(each.flatten() =~= Seq::empty());
        }
    }
}

impl<const N: usize, F, P, K, O> RecordReader<F, P, K, O> where
    F: Fn(&[u8], usize) -> SentinelMatch,
    P: Fn(&[u8]) -> Result<Record<N>, Vec<u8>>,
    K: Fn(&GksKeyMaterial, &[u8; SESSION_ID_LEN]) -> [u8; AES_KEY_LEN],
    O: Fn(&[u8; AES_KEY_LEN], &Record<N>) -> Result<Vec<u8>, Vec<u8>>,
 {
    /// Whatever says what each of the functions returns describes the reader.
    pub proof fn law_described(&self, m: ReaderModel)
        requires
            forall|line: &[u8], from: usize, r: SentinelMatch|
                call_ensures(self.find, (line, from), r) ==> r@ == (m.find)(line@, from as int),
            forall|payload: &[u8], r: Result<Record<N>, Vec<u8>>|
                call_ensures(self.parse, (payload,), r) ==> match r {
                    Ok(record) => (m.parse)(payload@) == Ok::<RecordSpec, Seq<u8>>(record@),
                    Err(text) => (m.parse)(payload@) == Err::<RecordSpec, Seq<u8>>(text@),
                },
            forall|gks: &GksKeyMaterial, id: &[u8; SESSION_ID_LEN], r: [u8; AES_KEY_LEN]|
                call_ensures(self.derive, (gks, id), r) ==> r@ == (m.derive)(gks@, id@),
            forall|key: &[u8; AES_KEY_LEN], record: &Record<N>, r: Result<Vec<u8>, Vec<u8>>|
                call_ensures(self.open, (key, record), r) ==> match r {
                    Ok(bytes) => (m.open)(key@, record@) == Ok::<Seq<u8>, Seq<u8>>(bytes@),
                    Err(text) => (m.open)(key@, record@) == Err::<Seq<u8>, Seq<u8>>(text@),
                },
        ensures
            self.described_by(m),
    {
    }

    /// Decrypting a stream writes, behind what was there, the output for each of
    /// its lines, which are taken without their terminators and with nothing else
    /// missing, and last for what stands behind the last line feed.
    pub proof fn law_stream_lines(
        &self,
        r: ReaderModel,
        gks: Seq<u8>,
        lines: Seq<Seq<u8>>,
        end: Seq<u8>,
        last: Seq<u8>,
        before: Seq<u8>,
        after: Seq<u8>,
        result: Result<(), NotUtf8>,
    )
        requires
            self.described_by(r),
            ends_lines(lines, end),
            forall|i: int| 0 <= i < lines.len() ==> valid_utf8(#[trigger] lines[i]),
            !last.contains(10u8),
            valid_utf8(last),
            self.decrypts_stream(gks, joined(lines, end) + last, before, after, result),
        ensures
            result is Ok,
            after == before + Seq::new(
                lines.len(),
                |i: int| r.line_output(gks, lines[i]),
            ).flatten() + (if last.len() == 0 {
                Seq::empty()
            } else {
                r.line_output(gks, last)
            }),
    {
        law_lines_read(lines, end, last);
        r.law_lines_concat(gks, lines, readable_lines(last));
        r.law_lines_each(gks, lines);
        r.law_lines_each(gks, readable_lines(last));
        if last.len() > 0 {
            law_last_line(last);
            let one = Seq::new(
                readable_lines(last).len(),
                |i: int| r.line_output(gks, readable_lines(last)[i]),
            );
            one.lemma_flatten_one_element();
        } else {
            assert(last =~= Seq::empty());
            assert(readable(last));
            assert(readable_lines(last) =~= Seq::empty());
        }
        let each = Seq::new(lines.len(), |i: int| r.line_output(gks, lines[i])).flatten();
        let tail = r.lines_output(gks, readable_lines(last));
        assert(before + (each + tail) =~= before + each + tail);
    }

    /// A line that is not UTF-8 ends decrypting: the output for the lines before
    /// it stays, and nothing follows.
    pub proof fn law_stream_stops(
        &self,
        r: ReaderModel,
        gks: Seq<u8>,
        lines: Seq<Seq<u8>>,
        end: Seq<u8>,
        bad: Seq<u8>,
        bad_end: Seq<u8>,
        rest: Seq<u8>,
        before: Seq<u8>,
        after: Seq<u8>,
        result: Result<(), NotUtf8>,
    )
        requires
            self.described_by(r),
            ends_lines(lines, end),
            forall|i: int| 0 <= i < lines.len() ==> valid_utf8(#[trigger] lines[i]),
            ends_line(bad, bad_end, rest),
            !valid_utf8(bad),
            self.decrypts_stream(
                gks,
                joined(lines, end) + (bad + bad_end + rest),
                before,
                after,
                result,
            ),
        ensures
            result is Err,
            after == before + Seq::new(
                lines.len(),
                |i: int| r.line_output(gks, lines[i]),
            ).flatten(),
    {
        law_lines_read(lines, end, bad + bad_end + rest);
        law_unreadable_line(bad, bad_end, rest);
        r.law_lines_each(gks, lines);
        assert(lines + Seq::<Seq<u8>>::empty() =~= lines);
    }
}

} // verus!
