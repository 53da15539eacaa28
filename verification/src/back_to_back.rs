//! What holds of records with nothing between them, as a bridge sends them.

use crate::bridge::{
    loop_result, read_chunks, until_eof, DecryptTotals, EncryptLoopError, EncryptTotals, Scanner,
    ScannerModel,
};
use crate::encrypt::{EncryptError, SessionSpec};
use crate::laws::law_read_chunks;
use crate::lines::{after_line, lemma_line_end_is, readable, readable_lines, LF};
use crate::record::{
    GksKeyMaterial, MatchSpec, ReaderModel, Record, RecordSpec, RecordWriter, WriterModel,
    AES_KEY_LEN, SESSION_ID_LEN,
};
use vstd::prelude::*;
use vstd::utf8::valid_utf8;

verus! {

/// `text` is text without a line feed in which `r` finds `record`, wherever in a
/// line the search comes upon it.
pub open spec fn found_anywhere(r: ReaderModel, text: Seq<u8>, record: RecordSpec) -> bool {
    &&& text.len() > 0
    &&& !text.contains(LF)
    &&& valid_utf8(text)
    &&& forall|line: Seq<u8>, at: int|
        0 <= at && at + text.len() <= line.len() && line.subrange(at, at + text.len()) == text
            ==> match #[trigger] (r.find)(line, at) {
            MatchSpec::Found { start, end, payload } => {
                &&& start == at
                &&& end == at + text.len()
                &&& (r.parse)(payload) == Ok::<RecordSpec, Seq<u8>>(record)
            },
            _ => false,
        }
}

/// The receiving side `r` undoes the sending side `w` under `gks` wherever in a
/// line a record stands: both derive the same keys, a framed record is found,
/// and what was sealed opens.
pub open spec fn undoes_anywhere<E>(r: ReaderModel, w: WriterModel<E>, gks: Seq<u8>) -> bool {
    &&& forall|id: Seq<u8>|
        match #[trigger] (w.derive)(gks, id) {
            Err(_) => true,
            Ok(key) => (r.derive)(gks, id) == key,
        }
    &&& forall|key: Seq<u8>, id: Seq<u8>, seq: u64, nonce: Seq<u8>, plaintext: Seq<u8>|
        match #[trigger] (w.seal)(key, id, seq, nonce, plaintext) {
            Err(_) => true,
            Ok((ciphertext, tag)) => {
                let record = RecordSpec { session_id: id, seq, nonce, ciphertext, tag };
                &&& found_anywhere(r, (w.encode)(record), record)
                &&& (r.open)(key, record) == Ok::<Seq<u8>, Seq<u8>>(plaintext)
            },
        }
}

impl<E> WriterModel<E> {
    /// The texts of fewer chunks come first in the texts of more.
    proof fn lemma_texts_first(
        self,
        session: SessionSpec,
        nonces: Seq<Seq<u8>>,
        chunks: Seq<Seq<u8>>,
        terminator: Seq<u8>,
        k: int,
        count: int,
    )
        requires
            0 <= k <= count,
        ensures
            self.texts(session, nonces, chunks, terminator, k).is_prefix_of(
                self.texts(session, nonces, chunks, terminator, count),
            ),
        decreases count,
    {
        if k < count {
            self.lemma_texts_first(session, nonces, chunks, terminator, k, count - 1);
        }
    }

    /// The record of the chunk `k`, which is sealed and whose text is found and
    /// opens.
    proof fn lemma_sealed(
        self,
        r: ReaderModel,
        gks: Seq<u8>,
        session: SessionSpec,
        nonces: Seq<Seq<u8>>,
        chunks: Seq<Seq<u8>>,
        k: int,
        count: int,
    ) -> (record: RecordSpec)
        requires
            undoes_anywhere(r, self, gks),
            (self.derive)(gks, session.id) == Ok::<Seq<u8>, E>(session.key),
            0 <= k < count,
            self.seals(session, nonces, chunks, count),
        ensures
            self.record_text(session.later(k), nonces[k], chunks[k]) == Ok::<Seq<u8>, E>(
                (self.encode)(record),
            ),
            found_anywhere(r, (self.encode)(record), record),
            (r.open)((r.derive)(gks, record.session_id), record) == Ok::<Seq<u8>, Seq<u8>>(
                chunks[k],
            ),
    {
        let s = session.later(k);
        assert(self.record_text(s, nonces[k], chunks[k]) is Ok);
        let sealed = (self.seal)(s.key, s.id, s.seq as u64, nonces[k], chunks[k])->Ok_0;
        assert((self.derive)(gks, s.id) is Ok);
        RecordSpec {
            session_id: s.id,
            seq: s.seq as u64,
            nonce: nonces[k],
            ciphertext: sealed.0,
            tag: sealed.1,
        }
    }

    /// Records in a row are text without a line feed.
    proof fn lemma_one_text(
        self,
        r: ReaderModel,
        gks: Seq<u8>,
        session: SessionSpec,
        nonces: Seq<Seq<u8>>,
        chunks: Seq<Seq<u8>>,
        k: int,
        count: int,
    )
        requires
            undoes_anywhere(r, self, gks),
            (self.derive)(gks, session.id) == Ok::<Seq<u8>, E>(session.key),
            0 <= k <= count,
            self.seals(session, nonces, chunks, count),
        ensures
            valid_utf8(self.texts(session, nonces, chunks, Seq::empty(), k)),
            !self.texts(session, nonces, chunks, Seq::empty(), k).contains(LF),
        decreases k,
    {
        let all = self.texts(session, nonces, chunks, Seq::empty(), k);
        if k > 0 {
            self.lemma_one_text(r, gks, session, nonces, chunks, k - 1, count);
            let record = self.lemma_sealed(r, gks, session, nonces, chunks, k - 1, count);
            let text = (self.encode)(record);
            let before = self.texts(session, nonces, chunks, Seq::empty(), k - 1);
            assert(all =~= before + text);
            vstd::utf8::valid_utf8_concat(before, text);
            assert forall|i: int| 0 <= i < all.len() implies all[i] != LF by {
                if i < before.len() {
                    assert(before.contains(before[i]));
                } else {
                    assert(text.contains(text[i - before.len()]));
                }
            }
        }
    }

    /// From the record `k` on, a line of records in a row decrypts to the chunks
    /// from `k` on.
    proof fn lemma_rest_decrypts(
        self,
        r: ReaderModel,
        gks: Seq<u8>,
        session: SessionSpec,
        nonces: Seq<Seq<u8>>,
        chunks: Seq<Seq<u8>>,
        k: int,
        count: int,
    )
        requires
            undoes_anywhere(r, self, gks),
            (self.derive)(gks, session.id) == Ok::<Seq<u8>, E>(session.key),
            0 <= k <= count <= chunks.len(),
            self.seals(session, nonces, chunks, count),
        ensures
            r.line_body(
                gks,
                self.texts(session, nonces, chunks, Seq::empty(), count),
                self.texts(session, nonces, chunks, Seq::empty(), k).len() as int,
            ) == (chunks.subrange(k, count).flatten(), k < count),
        decreases count - k,
    {
        let line = self.texts(session, nonces, chunks, Seq::empty(), count);
        let at = self.texts(session, nonces, chunks, Seq::empty(), k).len() as int;
        if k == count {
            assert(chunks.subrange(k, count) =~= Seq::empty());
        } else {
            let record = self.lemma_sealed(r, gks, session, nonces, chunks, k, count);
            let text = (self.encode)(record);
            let next = self.texts(session, nonces, chunks, Seq::empty(), k + 1);
            self.lemma_texts_first(session, nonces, chunks, Seq::empty(), k + 1, count);
            assert(next =~= self.texts(session, nonces, chunks, Seq::empty(), k) + text);
            assert(line.subrange(at, at + text.len()) =~= text) by {
                assert forall|i: int| 0 <= i < text.len() implies line[at + i] == text[i] by {
                    assert(line.subrange(0, next.len() as int)[at + i] == next[at + i]);
                }
            }
            self.lemma_rest_decrypts(r, gks, session, nonces, chunks, k + 1, count);
            assert((r.find)(line, at) is Found);
            assert(chunks.subrange(k, count).drop_first() =~= chunks.subrange(k + 1, count));
            assert(r.line_body(gks, line, at).0 =~= chunks[k] + chunks.subrange(
                k + 1,
                count,
            ).flatten());
        }
    }

    /// Records sealed in a row with nothing between them decrypt to what was
    /// sealed.
    pub proof fn law_back_to_back(
        self,
        r: ReaderModel,
        gks: Seq<u8>,
        session: SessionSpec,
        nonces: Seq<Seq<u8>>,
        chunks: Seq<Seq<u8>>,
        count: int,
    )
        requires
            undoes_anywhere(r, self, gks),
            (self.derive)(gks, session.id) == Ok::<Seq<u8>, E>(session.key),
            0 <= count <= chunks.len(),
            self.seals(session, nonces, chunks, count),
        ensures
            readable(self.texts(session, nonces, chunks, Seq::empty(), count)),
            r.lines_output(
                gks,
                readable_lines(self.texts(session, nonces, chunks, Seq::empty(), count)),
            ) == chunks.take(count).flatten(),
    {
        let line = self.texts(session, nonces, chunks, Seq::empty(), count);
        assert(chunks.take(count) =~= chunks.subrange(0, count));
        if count > 0 {
            self.lemma_one_text(r, gks, session, nonces, chunks, count, count);
            self.lemma_rest_decrypts(r, gks, session, nonces, chunks, 0, count);
            let record = self.lemma_sealed(r, gks, session, nonces, chunks, count - 1, count);
            assert(line.len() >= (self.encode)(record).len());
            assert forall|i: int| 0 <= i < line.len() implies line[i] != LF by {
                assert(line.contains(line[i]));
            }
            lemma_line_end_is(line, line.len() as int);
            assert(after_line(line) =~= Seq::empty());
            assert(readable(after_line(line)));
            assert(readable_lines(after_line(line)) =~= Seq::empty());
            assert(readable_lines(line) =~= seq![line]);
            assert(seq![line].drop_first() =~= Seq::empty());
            assert(r.lines_output(gks, Seq::empty()) =~= Seq::empty());
            assert(r.lines_output(gks, seq![line]) =~= r.line_output(gks, line));
        }
    }
}

impl<const N: usize, E, K, S, T> RecordWriter<N, K, S, T> where
    K: Fn(&GksKeyMaterial, &[u8; SESSION_ID_LEN]) -> Result<[u8; AES_KEY_LEN], E>,
    S: Fn(&[u8; AES_KEY_LEN], &[u8; SESSION_ID_LEN], u64, &[u8; N], &[u8]) -> Result<
        (Vec<u8>, Vec<u8>),
        E,
    >,
    T: Fn(&Record<N>) -> Vec<u8>,
 {
    /// What the encrypting direction of a bridge sends decrypts to what was read
    /// before the stream ended; where it failed, to the chunks before the one
    /// that failed.
    pub proof fn law_bridge_round_trip(
        &self,
        w: WriterModel<E>,
        r: ReaderModel,
        gks: Seq<u8>,
        s0: SessionSpec,
        s1: SessionSpec,
        reads: Seq<Seq<u8>>,
        out: Seq<u8>,
        result: Result<(), EncryptError<E>>,
    )
        requires
            self.wf(),
            self.described_by(w),
            undoes_anywhere(r, w, gks),
            self.derives(gks, s0.id, Ok(s0.key)),
            self.sends(
                s0,
                s1,
                read_chunks(until_eof(reads), self.max()),
                Seq::empty(),
                Seq::empty(),
                out,
                result,
            ),
        ensures
            readable(out),
            r.lines_output(gks, readable_lines(out)) == read_chunks(
                until_eof(reads),
                self.max(),
            ).take(s1.seq - s0.seq).flatten(),
            result is Ok ==> r.lines_output(gks, readable_lines(out)) == until_eof(
                reads,
            ).flatten(),
    {
        let chunks = read_chunks(until_eof(reads), self.max());
        let nonces = choose|n: Seq<Seq<u8>>| #[trigger]
            self.sends_under(n, s0, s1, chunks, Seq::empty(), Seq::empty(), out, result);
        let count = s1.seq - s0.seq;
        assert(w.encrypted(s0, nonces, chunks, Seq::empty(), count, Seq::empty(), out, result));
        assert(out =~= w.texts(s0, nonces, chunks, Seq::empty(), count));
        w.law_back_to_back(r, gks, s0, nonces, chunks, count);
        if result is Ok {
            assert(chunks.take(count) =~= chunks);
            law_read_chunks(until_eof(reads), self.max());
        }
    }
}

/// `record` is what `w` seals of `plaintext` under the key that it derives from
/// `gks` for the record's session.
pub open spec fn sealed_as<E>(
    w: WriterModel<E>,
    gks: Seq<u8>,
    record: RecordSpec,
    plaintext: Seq<u8>,
) -> bool {
    match (w.derive)(gks, record.session_id) {
        Err(_) => false,
        Ok(key) => (w.seal)(key, record.session_id, record.seq, record.nonce, plaintext) == Ok::<
            (Seq<u8>, Seq<u8>),
            E,
        >((record.ciphertext, record.tag)),
    }
}

/// The scanner `m`, from the state `start` on, undoes the sending side `w` under
/// `gks`, where `whole` says what it makes of a stream: it makes the same of it
/// however the stream is cut into reads, nothing of an empty one, and of a record
/// at the front its plaintext, before what it makes of the rest.
pub open spec fn scanner_undoes<Q, X, E>(
    m: ScannerModel<Q, X>,
    start: Q,
    whole: spec_fn(Seq<u8>) -> Seq<u8>,
    w: WriterModel<E>,
    gks: Seq<u8>,
) -> bool {
    &&& forall|reads: Seq<Seq<u8>>|
        until_eof(reads) == reads ==> #[trigger] m.run(start, gks, reads) == (
            whole(reads.flatten()),
            None::<X>,
        )
    &&& whole(Seq::empty()) == Seq::<u8>::empty()
    &&& forall|record: RecordSpec, plaintext: Seq<u8>, rest: Seq<u8>|
        #![trigger sealed_as(w, gks, record, plaintext), whole((w.encode)(record) + rest)]
        sealed_as(w, gks, record, plaintext) ==> whole((w.encode)(record) + rest) == plaintext
            + whole(rest)
}

/// The reads before the end hold no end.
proof fn lemma_until_eof_twice(reads: Seq<Seq<u8>>)
    ensures
        until_eof(until_eof(reads)) == until_eof(reads),
    decreases reads.len(),
{
    if reads.len() > 0 && reads[0].len() > 0 {
        lemma_until_eof_twice(reads.drop_first());
        assert(until_eof(reads).drop_first() =~= until_eof(reads.drop_first()));
    }
}

impl<Q, X> ScannerModel<Q, X> {
    /// What follows the end is not read.
    pub proof fn law_run_until_eof(self, state: Q, gks: Seq<u8>, reads: Seq<Seq<u8>>)
        ensures
            self.run(state, gks, reads) == self.run(state, gks, until_eof(reads)),
        decreases reads.len(),
    {
        if reads.len() > 0 && reads[0].len() > 0 {
            assert(until_eof(reads).drop_first() =~= until_eof(reads.drop_first()));
            if let Ok(next) = self.scan(state, gks, reads[0]).0 {
                self.law_run_until_eof(next, gks, reads.drop_first());
            }
        }
    }
}

impl<E> WriterModel<E> {
    /// A scanner makes of the records from `k` on the chunks from `k` on.
    proof fn lemma_rest_scans<Q, X>(
        self,
        m: ScannerModel<Q, X>,
        start: Q,
        whole: spec_fn(Seq<u8>) -> Seq<u8>,
        gks: Seq<u8>,
        session: SessionSpec,
        nonces: Seq<Seq<u8>>,
        chunks: Seq<Seq<u8>>,
        k: int,
        count: int,
    )
        requires
            scanner_undoes(m, start, whole, self, gks),
            (self.derive)(gks, session.id) == Ok::<Seq<u8>, E>(session.key),
            0 <= k <= count <= chunks.len(),
            self.seals(session, nonces, chunks, count),
        ensures
            whole(
                self.texts(session, nonces, chunks, Seq::empty(), count).skip(
                    self.texts(session, nonces, chunks, Seq::empty(), k).len() as int,
                ),
            ) == chunks.subrange(k, count).flatten(),
        decreases count - k,
    {
        let line = self.texts(session, nonces, chunks, Seq::empty(), count);
        let before = self.texts(session, nonces, chunks, Seq::empty(), k);
        if k == count {
            assert(line.skip(before.len() as int) =~= Seq::empty());
            assert(chunks.subrange(k, count) =~= Seq::empty());
        } else {
            assert(self.record_text(session.later(k), nonces[k], chunks[k]) is Ok);
            let record = self.record(session.later(k), nonces[k], chunks[k])->Ok_0;
            let text = (self.encode)(record);
            let next = self.texts(session, nonces, chunks, Seq::empty(), k + 1);
            assert(sealed_as(self, gks, record, chunks[k]));
            self.lemma_texts_first(session, nonces, chunks, Seq::empty(), k + 1, count);
            assert(next =~= before + text);
            self.lemma_rest_scans(m, start, whole, gks, session, nonces, chunks, k + 1, count);
            let rest = line.skip(next.len() as int);
            assert(line.skip(before.len() as int) =~= text + rest) by {
                assert forall|i: int| 0 <= i < text.len() implies line[before.len() + i]
                    == text[i] by {
                    assert(line.subrange(0, next.len() as int)[before.len() + i]
                        == next[before.len() + i]);
                }
            }
            assert(whole(text + rest) == chunks[k] + whole(rest));
            assert(chunks.subrange(k, count).drop_first() =~= chunks.subrange(k + 1, count));
        }
    }
}

/// What the encrypting direction of a bridge wrote into an empty output, read in
/// whatever pieces by the decrypting direction, comes out as what was read before
/// the stream ended: nothing is added between or behind the records, and nothing
/// is dropped.
pub proof fn law_bridge_pipe<const N: usize, E, K, S, T, Q, X, Y, D>(
    writer: RecordWriter<N, K, S, T>,
    scanner: Scanner<Q, Y, D>,
    w: WriterModel<E>,
    m: ScannerModel<Q, X>,
    start: Q,
    whole: spec_fn(Seq<u8>) -> Seq<u8>,
    gks: Seq<u8>,
    reads: Seq<Seq<u8>>,
    sent: Result<EncryptTotals, EncryptLoopError<E>>,
    wire: Seq<Seq<u8>>,
    out: Seq<u8>,
    result: Result<DecryptTotals, X>,
) where
    K: Fn(&GksKeyMaterial, &[u8; SESSION_ID_LEN]) -> Result<[u8; AES_KEY_LEN], E>,
    S: Fn(&[u8; AES_KEY_LEN], &[u8; SESSION_ID_LEN], u64, &[u8; N], &[u8]) -> Result<
        (Vec<u8>, Vec<u8>),
        E,
    >,
    T: Fn(&Record<N>) -> Vec<u8>,
    Y: Fn(Q, &[u8]) -> Q,
    D: Fn(Q, &GksKeyMaterial, bool) -> (Result<Q, X>, Vec<u8>),

    requires
        writer.wf(),
        writer.described_by(w),
        scanner.described_by(m),
        scanner_undoes(m, start, whole, w, gks),
        sent is Ok,
        writer.encrypts_reads(gks, reads, Seq::empty(), until_eof(wire).flatten(), sent),
        scanner.decrypts_reads(start, gks, wire, Seq::empty(), out, result),
    ensures
        result is Ok,
        out == until_eof(reads).flatten(),
{
    let chunks = read_chunks(until_eof(reads), writer.max());
    let written = until_eof(wire).flatten();
    let (s0, s1) = choose|s0: SessionSpec, s1: SessionSpec| #[trigger]
        writer.opens(gks, s0) && #[trigger] writer.sends(
            s0,
            s1,
            chunks,
            Seq::empty(),
            Seq::empty(),
            written,
            loop_result(sent),
        );
    let nonces = choose|n: Seq<Seq<u8>>| #[trigger]
        writer.sends_under(
            n,
            s0,
            s1,
            chunks,
            Seq::empty(),
            Seq::empty(),
            written,
            loop_result(sent),
        );
    let count = chunks.len() as int;
    assert(w.encrypted(
        s0,
        nonces,
        chunks,
        Seq::empty(),
        count,
        Seq::empty(),
        written,
        loop_result(sent),
    ));
    assert(written =~= w.texts(s0, nonces, chunks, Seq::empty(), count));
    w.lemma_rest_scans(m, start, whole, gks, s0, nonces, chunks, 0, count);
    assert(written.skip(0) =~= written);
    assert(chunks.subrange(0, count) =~= chunks);
    law_read_chunks(until_eof(reads), writer.max());
    m.law_run_until_eof(start, gks, wire);
    lemma_until_eof_twice(wire);
    assert(out =~= m.run(start, gks, wire).0);
}

} // verus!
