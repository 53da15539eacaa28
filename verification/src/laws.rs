//! What holds of the two sides together.

use crate::bridge::read_chunks;
use crate::decrypt::{malformed_end, NotUtf8};
use crate::encrypt::{chunks_of, EncryptError, SessionSpec};
use crate::encrypt_stream::{chunk_result, line_chunks, StreamError};
use crate::lines::{
    after_line, first_line, lemma_line_end, lemma_line_end_is, line_end, readable, readable_lines,
    CR, LF,
};
use crate::record::{
    GksKeyMaterial, MatchSpec, ReaderModel, Record, RecordReader, RecordSpec, RecordWriter,
    SentinelMatch, WriterModel, AES_KEY_LEN, SESSION_ID_LEN,
};
use vstd::prelude::*;
use vstd::seq_lib::lemma_flatten_concat;
use vstd::utf8::valid_utf8;

verus! {

/// `text` is one line of text in which `r` finds `record` and nothing else.
pub open spec fn reads_back(r: ReaderModel, text: Seq<u8>, record: RecordSpec) -> bool {
    &&& text.len() > 0
    &&& !text.contains(LF)
    &&& text.last() != CR
    &&& valid_utf8(text)
    &&& match (r.find)(text, 0) {
        MatchSpec::Found { start, end, payload } => {
            &&& start == 0
            &&& end == text.len()
            &&& (r.parse)(payload) == Ok::<RecordSpec, Seq<u8>>(record)
        },
        _ => false,
    }
}

/// The receiving side `r` undoes the sending side `w` under `gks`: both derive
/// the same keys, a framed record is read back, and what was sealed opens.
pub open spec fn undoes<E>(r: ReaderModel, w: WriterModel<E>, gks: Seq<u8>) -> bool {
    &&& forall|id: Seq<u8>|
        match #[trigger] (w.derive)(gks, id) {
            Err(_) => true,
            Ok(key) => (r.derive)(gks, id) == key,
        }
    &&& forall|key: Seq<u8>, id: Seq<u8>, seq: u64, nonce: Seq<u8>, plaintext: Seq<u8>|
        match #[trigger] (w.seal)(key, id, seq, nonce, plaintext) {
            Err(_) => true,
            Ok((ciphertext, tag)) => {
                let record = RecordSpec { session_id: id, seq, nonce, ciphertext, tag };
                &&& reads_back(r, (w.encode)(record), record)
                &&& (r.open)(key, record) == Ok::<Seq<u8>, Seq<u8>>(plaintext)
            },
        }
}

/// Lines, each with a line feed behind it.
pub open spec fn with_line_feeds(lines: Seq<Seq<u8>>) -> Seq<u8>
    decreases lines.len(),
{
    if lines.len() == 0 {
        Seq::empty()
    } else {
        lines[0].push(LF) + with_line_feeds(lines.drop_first())
    }
}

/// Every line of `s` ends with a line feed.
pub open spec fn ends_complete(s: Seq<u8>) -> bool {
    s.len() == 0 || s.last() == LF
}

/// Every line of `s` ends with a line feed and nothing else.
pub open spec fn lf_terminated(s: Seq<u8>) -> bool {
    &&& ends_complete(s)
    &&& forall|i: int| 0 <= i < s.len() - 1 && #[trigger] s[i] == CR ==> s[i + 1] != LF
}

/// The lines of a complete stream and then of another are the lines of both in a
/// row.
pub proof fn lemma_lines_append(a: Seq<u8>, b: Seq<u8>)
    requires
        ends_complete(a),
        readable(a),
    ensures
        readable(a + b) == readable(b),
        readable_lines(a + b) == readable_lines(a) + readable_lines(b),
    decreases a.len(),
{
    if a.len() == 0 {
        assert(a + b =~= b);
        assert(readable_lines(a) + readable_lines(b) =~= readable_lines(b));
    } else {
        let end = line_end(a);
        lemma_line_end(a);
        assert(end < a.len()) by {
            if end == a.len() {
                assert(a[a.len() - 1] != LF);
            }
        }
        assert forall|i: int| 0 <= i < end implies (a + b)[i] != LF by {
            assert((a + b)[i] == a[i]);
        }
        lemma_line_end_is(a + b, end);
        assert((a + b).take(end) =~= a.take(end));
        assert((a + b).skip(end + 1) =~= a.skip(end + 1) + b);
        let rest = a.skip(end + 1);
        if rest.len() > 0 {
            assert(rest.last() == a.last());
        }
        lemma_lines_append(rest, b);
        assert(readable_lines(a + b) =~= readable_lines(a) + readable_lines(b));
    }
}

/// One line with its line feed.
proof fn lemma_one_line(line: Seq<u8>)
    requires
        !line.contains(LF),
        line.len() == 0 || line.last() != CR,
        valid_utf8(line),
    ensures
        readable(line.push(LF)),
        readable_lines(line.push(LF)) == seq![line],
{
    let s = line.push(LF);
    assert forall|i: int| 0 <= i < line.len() implies s[i] != LF by {
        assert(line.contains(line[i]));
    }
    lemma_line_end_is(s, line.len() as int);
    assert(s.take(line.len() as int) =~= line);
    assert(after_line(s) =~= Seq::empty());
    assert(first_line(s) == line);
    assert(readable(after_line(s)));
    assert(readable_lines(after_line(s)) =~= Seq::empty());
    assert(readable_lines(s) =~= seq![line]);
}

impl ReaderModel {
    /// The output for lines in a row is the outputs in a row.
    pub proof fn law_lines_concat(self, gks: Seq<u8>, a: Seq<Seq<u8>>, b: Seq<Seq<u8>>)
        ensures
            self.lines_output(gks, a + b) == self.lines_output(gks, a) + self.lines_output(gks, b),
        decreases a.len(),
    {
        if a.len() == 0 {
            assert(a + b =~= b);
        } else {
            assert((a + b).drop_first() =~= a.drop_first() + b);
            self.law_lines_concat(gks, a.drop_first(), b);
            assert((a + b)[0] == a[0]);
            assert(self.lines_output(gks, a + b) =~= self.lines_output(gks, a)
                + self.lines_output(gks, b));
        }
    }

    /// Decrypting is local to lines: a stream behind another that ends complete
    /// decrypts to what it decrypts to alone, behind what the other decrypts to.
    pub proof fn law_decrypt_concat(self, gks: Seq<u8>, a: Seq<u8>, b: Seq<u8>)
        requires
            ends_complete(a),
            readable(a),
        ensures
            readable(a + b) == readable(b),
            self.lines_output(gks, readable_lines(a + b)) == self.lines_output(
                gks,
                readable_lines(a),
            ) + self.lines_output(gks, readable_lines(b)),
    {
        lemma_lines_append(a, b);
        self.law_lines_concat(gks, readable_lines(a), readable_lines(b));
    }

    /// A line that is one record decrypts to the plaintext alone, without a line
    /// feed added.
    pub proof fn law_record_line(
        self,
        gks: Seq<u8>,
        text: Seq<u8>,
        record: RecordSpec,
        plaintext: Seq<u8>,
    )
        requires
            reads_back(self, text, record),
            (self.open)((self.derive)(gks, record.session_id), record) == Ok::<
                Seq<u8>,
                Seq<u8>,
            >(plaintext),
        ensures
            self.line_output(gks, text) == plaintext,
    {
        assert(self.line_body(gks, text, text.len() as int) == (Seq::<u8>::empty(), false));
        assert(self.line_body(gks, text, 0).0 =~= plaintext);
    }

    /// No record is found in a line: a search from its start finds nothing at
    /// all, or no search in it finds more than something malformed.
    pub open spec fn holds_no_record(self, line: Seq<u8>) -> bool {
        ||| line.len() == 0
        ||| (self.find)(line, 0) is NotFound
        ||| forall|c: int|
            0 <= c < line.len() ==> {
                &&& (#[trigger] (self.find)(line, c)).usable(c, line.len() as int)
                &&& (self.find)(line, c) !is Found
            }
    }

    /// A stream in whose lines no record is found passes through, with a line
    /// feed behind every line; where its lines end so, byte for byte.
    pub proof fn law_passthrough(self, gks: Seq<u8>, input: Seq<u8>)
        requires
            readable(input),
            forall|i: int|
                0 <= i < readable_lines(input).len() ==> self.holds_no_record(
                    #[trigger] readable_lines(input)[i],
                ),
        ensures
            self.lines_output(gks, readable_lines(input)) == with_line_feeds(
                readable_lines(input),
            ),
            lf_terminated(input) ==> self.lines_output(gks, readable_lines(input)) == input,
    {
        self.lemma_passthrough_lines(gks, readable_lines(input));
        if lf_terminated(input) {
            lemma_line_feeds(input);
        }
    }

    /// The rest of a line in which at most something malformed is found.
    proof fn lemma_passthrough_rest(self, gks: Seq<u8>, line: Seq<u8>, cursor: int)
        requires
            0 <= cursor <= line.len(),
            forall|c: int|
                0 <= c < line.len() ==> {
                    &&& (#[trigger] (self.find)(line, c)).usable(c, line.len() as int)
                    &&& (self.find)(line, c) !is Found
                },
        ensures
            self.line_body(gks, line, cursor) == (line.skip(cursor), false),
        decreases line.len() - cursor,
    {
        if cursor < line.len() {
            if let MatchSpec::Malformed { start } = (self.find)(line, cursor) {
                let end = malformed_end(start, line.len() as int);
                self.lemma_passthrough_rest(gks, line, end);
                assert(line.subrange(cursor, end) + line.skip(end) =~= line.skip(cursor));
            }
        } else {
            assert(line.skip(cursor) =~= Seq::empty());
        }
    }

    /// Lines in which no record is found.
    proof fn lemma_passthrough_lines(self, gks: Seq<u8>, lines: Seq<Seq<u8>>)
        requires
            forall|i: int| 0 <= i < lines.len() ==> self.holds_no_record(#[trigger] lines[i]),
        ensures
            self.lines_output(gks, lines) == with_line_feeds(lines),
        decreases lines.len(),
    {
        if lines.len() > 0 {
            let line = lines[0];
            assert(line.skip(0) =~= line);
            assert(self.line_body(gks, line, 0) == (line, false)) by {
                if line.len() > 0 && (self.find)(line, 0) !is NotFound {
                    self.lemma_passthrough_rest(gks, line, 0);
                }
            }
            assert forall|i: int| 0 <= i < lines.drop_first().len() implies self.holds_no_record(
                #[trigger] lines.drop_first()[i],
            ) by {
                assert(lines.drop_first()[i] == lines[i + 1]);
            }
            self.lemma_passthrough_lines(gks, lines.drop_first());
        }
    }
}

/// Lines that end with a line feed alone are their stream again.
pub proof fn lemma_line_feeds(s: Seq<u8>)
    requires
        readable(s),
        lf_terminated(s),
    ensures
        with_line_feeds(readable_lines(s)) == s,
    decreases s.len(),
{
    if s.len() > 0 {
        let end = line_end(s);
        lemma_line_end(s);
        assert(end < s.len()) by {
            if end == s.len() {
                assert(s[s.len() - 1] != LF);
            }
        }
        let line = s.take(end);
        assert(first_line(s) == line) by {
            if end > 0 {
                assert(s[end - 1] != CR);
            }
        }
        let rest = s.skip(end + 1);
        if rest.len() > 0 {
            assert(rest.last() == s.last());
        }
        assert forall|i: int| 0 <= i < rest.len() - 1 && #[trigger] rest[i] == CR implies rest[i
            + 1] != LF by {
            assert(s[i + end + 1] == CR);
        }
        lemma_line_feeds(rest);
        assert(readable_lines(s).drop_first() =~= readable_lines(rest));
        assert(line.push(LF) + rest =~= s);
    }
}

/// Cutting into chunks loses nothing, and every chunk holds between one and
/// `max` bytes.
pub proof fn law_chunks(s: Seq<u8>, max: int)
    requires
        max > 0,
    ensures
        chunks_of(s, max).flatten() == s,
        forall|i: int|
            0 <= i < chunks_of(s, max).len() ==> 0 < (#[trigger] chunks_of(s, max)[i]).len()
                <= max,
    decreases s.len(),
{
    if s.len() == 0 {
    } else if s.len() <= max {
        assert(chunks_of(s, max) =~= seq![s]);
        seq![s].lemma_flatten_one_element();
    } else {
        let rest = chunks_of(s.skip(max), max);
        law_chunks(s.skip(max), max);
        lemma_flatten_concat(seq![s.take(max)], rest);
        seq![s.take(max)].lemma_flatten_one_element();
        assert(s.take(max) + s.skip(max) =~= s);
        assert forall|i: int| 0 <= i < chunks_of(s, max).len() implies 0 < (
        #[trigger] chunks_of(s, max)[i]).len() <= max by {
            if i > 0 {
                assert(chunks_of(s, max)[i] == rest[i - 1]);
            }
        }
    }
}

/// The chunks of lines hold the lines, each with a line feed.
pub proof fn law_line_chunks(lines: Seq<Seq<u8>>, max: int)
    requires
        max > 0,
    ensures
        line_chunks(lines, max).flatten() == with_line_feeds(lines),
    decreases lines.len(),
{
    if lines.len() > 0 {
        law_line_chunks(lines.drop_first(), max);
        law_chunks(lines[0].push(LF), max);
        lemma_flatten_concat(
            chunks_of(lines[0].push(LF), max),
            line_chunks(lines.drop_first(), max),
        );
    }
}

/// The chunks of reads hold what was read.
pub proof fn law_read_chunks(reads: Seq<Seq<u8>>, max: int)
    requires
        max > 0,
    ensures
        read_chunks(reads, max).flatten() == reads.flatten(),
    decreases reads.len(),
{
    if reads.len() > 0 {
        law_read_chunks(reads.drop_first(), max);
        law_chunks(reads[0], max);
        lemma_flatten_concat(chunks_of(reads[0], max), read_chunks(reads.drop_first(), max));
    }
}

impl<E> WriterModel<E> {
    /// Records sealed in a row, a line feed behind each, decrypt to what was
    /// sealed.
    pub proof fn law_records_decrypt(
        self,
        r: ReaderModel,
        gks: Seq<u8>,
        session: SessionSpec,
        nonces: Seq<Seq<u8>>,
        chunks: Seq<Seq<u8>>,
        count: int,
    )
        requires
            undoes(r, self, gks),
            (self.derive)(gks, session.id) == Ok::<Seq<u8>, E>(session.key),
            0 <= count <= chunks.len(),
            self.seals(session, nonces, chunks, count),
        ensures
            readable(self.texts(session, nonces, chunks, seq![LF], count)),
            ends_complete(self.texts(session, nonces, chunks, seq![LF], count)),
            r.lines_output(
                gks,
                readable_lines(self.texts(session, nonces, chunks, seq![LF], count)),
            ) == chunks.take(count).flatten(),
        decreases count,
    {
        if count == 0 {
            assert(chunks.take(0) =~= Seq::empty());
        } else {
            let i = count - 1;
            self.law_records_decrypt(r, gks, session, nonces, chunks, i);
            let before = self.texts(session, nonces, chunks, seq![LF], i);
            let s = session.later(i);
            let chunk = chunks[i];
            assert(self.record_text(s, nonces[i], chunk) is Ok);
            let text = self.record_text(s, nonces[i], chunk)->Ok_0;
            let sealed = (self.seal)(s.key, s.id, s.seq as u64, nonces[i], chunk)->Ok_0;
            let record = RecordSpec {
                session_id: s.id,
                seq: s.seq as u64,
                nonce: nonces[i],
                ciphertext: sealed.0,
                tag: sealed.1,
            };
            assert(text == (self.encode)(record));
            assert(reads_back(r, text, record));
            assert((r.derive)(gks, s.id) == s.key) by {
                assert((self.derive)(gks, s.id) is Ok);
            }
            r.law_record_line(gks, text, record, chunk);
            lemma_one_line(text);
            r.law_decrypt_concat(gks, before, text.push(LF));
            assert(r.lines_output(gks, seq![text]) =~= chunk) by {
                assert(seq![text].drop_first() =~= Seq::empty());
                assert(r.lines_output(gks, Seq::empty()) =~= Seq::empty());
            }
            assert(self.texts(session, nonces, chunks, seq![LF], count) =~= before + text.push(
                LF,
            ));
            assert(chunks.take(count) =~= chunks.take(i).push(chunk));
            chunks.take(i).lemma_flatten_push(chunk);
        }
    }
}

impl<const N: usize, E, K, S, T> RecordWriter<N, K, S, T> where
    K: Fn(&GksKeyMaterial, &[u8; SESSION_ID_LEN]) -> Result<[u8; AES_KEY_LEN], E>,
    S: Fn(&[u8; AES_KEY_LEN], &[u8; SESSION_ID_LEN], u64, &[u8; N], &[u8]) -> Result<
        (Vec<u8>, Vec<u8>),
        E,
    >,
    T: Fn(&Record<N>) -> Vec<u8>,
 {
    /// What a session sends, a line feed behind each record, decrypts to the
    /// chunks in a row: all of them where sending succeeded, and those before
    /// the one that failed where it did not.
    pub proof fn law_sent_decrypts(
        &self,
        w: WriterModel<E>,
        r: ReaderModel,
        gks: Seq<u8>,
        s0: SessionSpec,
        s1: SessionSpec,
        chunks: Seq<Seq<u8>>,
        out: Seq<u8>,
        result: Result<(), EncryptError<E>>,
    )
        requires
            self.described_by(w),
            undoes(r, w, gks),
            self.derives(gks, s0.id, Ok(s0.key)),
            self.sends(s0, s1, chunks, seq![LF], Seq::empty(), out, result),
        ensures
            readable(out),
            r.lines_output(gks, readable_lines(out)) == chunks.take(
                s1.seq - s0.seq,
            ).flatten(),
            result is Ok ==> r.lines_output(gks, readable_lines(out)) == chunks.flatten(),
    {
        let nonces = choose|n: Seq<Seq<u8>>| #[trigger]
            self.sends_under(n, s0, s1, chunks, seq![LF], Seq::empty(), out, result);
        let count = s1.seq - s0.seq;
        assert(w.encrypted(s0, nonces, chunks, seq![LF], count, Seq::empty(), out, result));
        assert(out =~= w.texts(s0, nonces, chunks, seq![LF], count));
        w.law_records_decrypt(r, gks, s0, nonces, chunks, count);
        if result is Ok {
            assert(chunks.take(count) =~= chunks);
        }
    }

    /// Encrypting a text stream and decrypting the result gives the lines back,
    /// each with a line feed; where the lines of the stream end so, the stream
    /// byte for byte.
    pub proof fn law_stream_round_trip(
        &self,
        w: WriterModel<E>,
        r: ReaderModel,
        gks: Seq<u8>,
        s0: SessionSpec,
        s1: SessionSpec,
        input: Seq<u8>,
        out: Seq<u8>,
    )
        requires
            self.wf(),
            self.described_by(w),
            undoes(r, w, gks),
            self.derives(gks, s0.id, Ok(s0.key)),
            readable(input),
            self.sends(
                s0,
                s1,
                line_chunks(readable_lines(input), self.max()),
                seq![LF],
                Seq::empty(),
                out,
                Ok(()),
            ),
        ensures
            readable(out),
            r.lines_output(gks, readable_lines(out)) == with_line_feeds(readable_lines(input)),
            lf_terminated(input) ==> r.lines_output(gks, readable_lines(out)) == input,
    {
        let chunks = line_chunks(readable_lines(input), self.max());
        self.law_sent_decrypts(w, r, gks, s0, s1, chunks, out, Ok(()));
        law_line_chunks(readable_lines(input), self.max());
        if lf_terminated(input) {
            lemma_line_feeds(input);
        }
    }

    /// Two sessions with different identifiers share nothing: every record of
    /// either carries the identifier of its session and is numbered in a row
    /// under the key derived for that identifier, so no identifier and number
    /// occur together in both, and the keys are derived from different inputs.
    pub proof fn law_sessions_apart(
        &self,
        w: WriterModel<E>,
        gks: Seq<u8>,
        terminator: Seq<u8>,
        a0: SessionSpec,
        a1: SessionSpec,
        a_nonces: Seq<Seq<u8>>,
        a_chunks: Seq<Seq<u8>>,
        a_before: Seq<u8>,
        a_after: Seq<u8>,
        a_result: Result<(), EncryptError<E>>,
        b0: SessionSpec,
        b1: SessionSpec,
        b_nonces: Seq<Seq<u8>>,
        b_chunks: Seq<Seq<u8>>,
        b_before: Seq<u8>,
        b_after: Seq<u8>,
        b_result: Result<(), EncryptError<E>>,
        i: int,
        j: int,
    )
        requires
            self.described_by(w),
            self.opens(gks, a0),
            self.opens(gks, b0),
            a0.id != b0.id,
            self.sends_under(
                a_nonces,
                a0,
                a1,
                a_chunks,
                terminator,
                a_before,
                a_after,
                a_result,
            ),
            self.sends_under(
                b_nonces,
                b0,
                b1,
                b_chunks,
                terminator,
                b_before,
                b_after,
                b_result,
            ),
            0 <= i < a1.seq <= u64::MAX,
            0 <= j < b1.seq <= u64::MAX,
        ensures
            (w.derive)(gks, a0.id) == Ok::<Seq<u8>, E>(a0.key),
            (w.derive)(gks, b0.id) == Ok::<Seq<u8>, E>(b0.key),
            (gks, a0.id) != (gks, b0.id),
            ({
                let a = w.record(a0.later(i), a_nonces[i], a_chunks[i]);
                let b = w.record(b0.later(j), b_nonces[j], b_chunks[j]);
                &&& a is Ok && a->Ok_0.session_id == a0.id && a->Ok_0.seq == i
                &&& b is Ok && b->Ok_0.session_id == b0.id && b->Ok_0.seq == j
                &&& (a->Ok_0.session_id, a->Ok_0.seq) != (b->Ok_0.session_id, b->Ok_0.seq)
            }),
    {
        assert(w.record_text(a0.later(i), a_nonces[i], a_chunks[i]) is Ok);
        assert(w.record_text(b0.later(j), b_nonces[j], b_chunks[j]) is Ok);
    }
}

/// The records of a session are numbered in a row, so no two carry the same
/// number.
pub proof fn law_distinct_numbers(session: SessionSpec, i: int, j: int)
    requires
        0 <= session.seq,
        0 <= i < j,
        session.seq + j <= u64::MAX,
    ensures
        session.later(i).seq as u64 == session.seq + i,
        session.later(i).seq as u64 != session.later(j).seq as u64,
        session.later(i).id == session.later(j).id,
{
}

/// Encrypting a text stream into an empty output and decrypting that gives the
/// lines back, each with a line feed; where the lines of the stream end so, the
/// stream byte for byte.
pub proof fn law_streams_pipe<const N: usize, E, K, S, T, F, P, D, O>(
    writer: RecordWriter<N, K, S, T>,
    reader: RecordReader<F, P, D, O>,
    w: WriterModel<E>,
    r: ReaderModel,
    gks: Seq<u8>,
    input: Seq<u8>,
    encrypted: Seq<u8>,
    decrypted: Seq<u8>,
    result: Result<(), NotUtf8>,
) where
    K: Fn(&GksKeyMaterial, &[u8; SESSION_ID_LEN]) -> Result<[u8; AES_KEY_LEN], E>,
    S: Fn(&[u8; AES_KEY_LEN], &[u8; SESSION_ID_LEN], u64, &[u8; N], &[u8]) -> Result<
        (Vec<u8>, Vec<u8>),
        E,
    >,
    T: Fn(&Record<N>) -> Vec<u8>,
    F: Fn(&[u8], usize) -> SentinelMatch,
    P: Fn(&[u8]) -> Result<Record<N>, Vec<u8>>,
    D: Fn(&GksKeyMaterial, &[u8; SESSION_ID_LEN]) -> [u8; AES_KEY_LEN],
    O: Fn(&[u8; AES_KEY_LEN], &Record<N>) -> Result<Vec<u8>, Vec<u8>>,

    requires
        writer.wf(),
        writer.described_by(w),
        reader.described_by(r),
        undoes(r, w, gks),
        writer.encrypts_stream(gks, input, Seq::empty(), encrypted, Ok(())),
        reader.decrypts_stream(gks, encrypted, Seq::empty(), decrypted, result),
    ensures
        result is Ok,
        decrypted == with_line_feeds(readable_lines(input)),
        lf_terminated(input) ==> decrypted == input,
{
    let chunks = line_chunks(readable_lines(input), writer.max());
    let ok: Result<(), StreamError<E>> = Ok(());
    let (s0, s1) = choose|s0: SessionSpec, s1: SessionSpec| #[trigger]
        writer.opens(gks, s0) && #[trigger] writer.sends(
            s0,
            s1,
            chunks,
            seq![LF],
            Seq::empty(),
            encrypted,
            chunk_result(ok),
        );
    writer.law_stream_round_trip(w, r, gks, s0, s1, input, encrypted);
    assert(decrypted =~= r.lines_output(gks, readable_lines(encrypted)));
}

/// Decrypting one stream behind another that ends complete gives the output of
/// the one behind the output of the other, whatever sessions or failed records
/// the first one held.
pub proof fn law_streams_concat<const N: usize, F, P, D, O>(
    reader: RecordReader<F, P, D, O>,
    r: ReaderModel,
    gks: Seq<u8>,
    a: Seq<u8>,
    b: Seq<u8>,
    a_out: Seq<u8>,
    b_out: Seq<u8>,
    out: Seq<u8>,
    a_result: Result<(), NotUtf8>,
    b_result: Result<(), NotUtf8>,
    result: Result<(), NotUtf8>,
) where
    F: Fn(&[u8], usize) -> SentinelMatch,
    P: Fn(&[u8]) -> Result<Record<N>, Vec<u8>>,
    D: Fn(&GksKeyMaterial, &[u8; SESSION_ID_LEN]) -> [u8; AES_KEY_LEN],
    O: Fn(&[u8; AES_KEY_LEN], &Record<N>) -> Result<Vec<u8>, Vec<u8>>,

    requires
        reader.described_by(r),
        ends_complete(a),
        a_result is Ok,
        reader.decrypts_stream(gks, a, Seq::empty(), a_out, a_result),
        reader.decrypts_stream(gks, b, Seq::empty(), b_out, b_result),
        reader.decrypts_stream(gks, a + b, Seq::empty(), out, result),
    ensures
        out == a_out + b_out,
        result is Ok <==> b_result is Ok,
{
    r.law_decrypt_concat(gks, a, b);
    assert(a_out =~= r.lines_output(gks, readable_lines(a)));
    assert(b_out =~= r.lines_output(gks, readable_lines(b)));
    assert(out =~= r.lines_output(gks, readable_lines(a + b)));
}

} // verus!
