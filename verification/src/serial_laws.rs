//! What holds of an encrypting serial backend in every state.

use crate::encrypt::{EncryptError, SessionSpec};
use crate::laws::undoes;
use crate::lines::{lemma_line_end, readable, readable_lines, LF};
use crate::record::{
    GksKeyMaterial, ReaderModel, Record, RecordWriter, WriterModel, AES_KEY_LEN, SESSION_ID_LEN,
};
use crate::serial::{
    close_step_spec, flush_chunks, flush_len, flush_rest, flush_step_spec, Answer, CloseAction,
    CloseEvent, Drained, FlushAction, FlushEvent, SerialSpec,
};
use vstd::prelude::*;
use vstd::seq_lib::lemma_flatten_concat;

verus! {

/// What a flush answers where draining comes to `drained` and the transport, if
/// it is flushed, answers `answer`.
pub open spec fn flush_end(drained: Drained, answer: Answer) -> Answer {
    match flush_step_spec(FlushEvent::Drained(drained)) {
        FlushAction::FlushTransport => flush_step_spec(FlushEvent::Flushed(answer))->Return_0,
        FlushAction::Return(met) => met,
    }
}

/// What a close answers where the flush before it answers `flushed` and the
/// transport, if it is closed, answers `answer`.
pub open spec fn close_end(flushed: Answer, answer: Answer) -> Answer {
    match close_step_spec(CloseEvent::Flushed(flushed)) {
        CloseAction::CloseTransport => close_step_spec(CloseEvent::Closed(answer))->Return_0,
        CloseAction::Return(met) => met,
    }
}

/// A flush is done exactly where everything was drained and the transport was
/// flushed, and a close exactly where it was flushed and the transport was
/// closed; else the answer that was met is passed on.
pub proof fn law_flush_and_close_end(drained: Drained, flushed: Answer, answer: Answer)
    ensures
        flush_end(drained, answer) is Ready <==> drained is Done && answer is Ready,
        drained is Done ==> flush_end(drained, answer) == answer,
        drained is Pending ==> flush_end(drained, answer) is Pending,
        drained is Failed ==> flush_end(drained, answer) is Failed,
        close_end(flushed, answer) is Ready <==> flushed is Ready && answer is Ready,
        flushed is Ready ==> close_end(flushed, answer) == answer,
        !(flushed is Ready) ==> close_end(flushed, answer) == flushed,
{
}

/// What a chunk of a flush looks like.
pub open spec fn is_flushed(chunk: Seq<u8>, max: int, partial: bool) -> bool {
    &&& 0 < chunk.len()
    &&& forall|j: int| 0 <= j < chunk.len() - 1 ==> #[trigger] chunk[j] != LF
    &&& chunk.last() == LF || (partial && chunk.len() <= max)
}

/// A flush takes chunks off the front and changes nothing else: the chunks and
/// what is left are what was there. Every chunk holds something, a line feed only
/// as its last byte, and more than `max` bytes only where it is a line. Where no
/// partial line is flushed every chunk is a line, and what is left is all that
/// follows the last line feed; else nothing is left.
pub proof fn law_flush_keeps(buf: Seq<u8>, max: int, partial: bool)
    requires
        max > 0,
    ensures
        flush_chunks(buf, max, partial).flatten() + flush_rest(buf, max, partial) == buf,
        forall|i: int|
            0 <= i < flush_chunks(buf, max, partial).len() ==> is_flushed(
                #[trigger] flush_chunks(buf, max, partial)[i],
                max,
                partial,
            ),
        !flush_rest(buf, max, partial).contains(LF),
        partial ==> flush_rest(buf, max, partial).len() == 0,
    decreases buf.len(),
{
    let n = flush_len(buf, max, partial);
    lemma_line_end(buf);
    if 0 < n <= buf.len() {
        law_flush_keeps(buf.skip(n), max, partial);
        let rest = flush_chunks(buf.skip(n), max, partial);
        lemma_flatten_concat(seq![buf.take(n)], rest);
        seq![buf.take(n)].lemma_flatten_one_element();
        let left = flush_rest(buf, max, partial);
        assert(flush_chunks(buf, max, partial).flatten() == buf.take(n) + rest.flatten());
        assert(buf.take(n) + rest.flatten() + left =~= buf.take(n) + (rest.flatten() + left));
        assert(buf.take(n) + buf.skip(n) =~= buf);
        assert forall|i: int| 0 <= i < flush_chunks(buf, max, partial).len() implies is_flushed(
            #[trigger] flush_chunks(buf, max, partial)[i],
            max,
            partial,
        ) by {
            if i > 0 {
                assert(flush_chunks(buf, max, partial)[i] == rest[i - 1]);
            }
        }
    } else {
        assert(flush_chunks(buf, max, partial).flatten() + buf =~= buf);
    }
}

impl<const N: usize, E, K, S, T> RecordWriter<N, K, S, T> where
    K: Fn(&GksKeyMaterial, &[u8; SESSION_ID_LEN]) -> Result<[u8; AES_KEY_LEN], E>,
    S: Fn(&[u8; AES_KEY_LEN], &[u8; SESSION_ID_LEN], u64, &[u8; N], &[u8]) -> Result<
        (Vec<u8>, Vec<u8>),
        E,
    >,
    T: Fn(&Record<N>) -> Vec<u8>,
 {
    /// A backend that began with the session `s0` and was written `written` has
    /// sent `chunks`: their records are what the transport took (`taken`) and
    /// what is still queued, and with what is still held the chunks are what was
    /// written. No line feed is held.
    pub open spec fn delivers_chunks(
        &self,
        chunks: Seq<Seq<u8>>,
        s0: SessionSpec,
        written: Seq<u8>,
        taken: Seq<u8>,
        io: SerialSpec,
    ) -> bool {
        &&& self.sends(s0, io.session, chunks, seq![LF], Seq::empty(), taken + io.output, Ok(()))
        &&& chunks.flatten() + io.plaintext == written
        &&& !io.plaintext.contains(LF)
    }

    /// As [`Self::delivers_chunks`], for some chunks.
    pub open spec fn delivers(
        &self,
        s0: SessionSpec,
        written: Seq<u8>,
        taken: Seq<u8>,
        io: SerialSpec,
    ) -> bool {
        exists|chunks: Seq<Seq<u8>>| #[trigger]
            self.delivers_chunks(chunks, s0, written, taken, io)
    }

    /// Sending does not depend on what the output held before.
    proof fn lemma_sends_behind(
        &self,
        prefix: Seq<u8>,
        s0: SessionSpec,
        s1: SessionSpec,
        chunks: Seq<Seq<u8>>,
        terminator: Seq<u8>,
        before: Seq<u8>,
        after: Seq<u8>,
        r: Result<(), EncryptError<E>>,
    )
        requires
            self.sends(s0, s1, chunks, terminator, before, after, r),
        ensures
            self.sends(s0, s1, chunks, terminator, prefix + before, prefix + after, r),
    {
        let n = choose|n: Seq<Seq<u8>>| #[trigger]
            self.sends_under(n, s0, s1, chunks, terminator, before, after, r);
        let count = s1.seq - s0.seq;
        assert forall|m: WriterModel<E>| #[trigger] self.described_by(m) implies m.encrypted(
            s0,
            n,
            chunks,
            terminator,
            count,
            prefix + before,
            prefix + after,
            r,
        ) by {
            assert(prefix + after =~= prefix + before + m.texts(
                s0,
                n,
                chunks,
                terminator,
                count,
            ));
        }
        assert(self.sends_under(
            n,
            s0,
            s1,
            chunks,
            terminator,
            prefix + before,
            prefix + after,
            r,
        ));
    }

    /// A new backend delivers nothing.
    pub proof fn law_new_delivers(&self, io: SerialSpec)
        requires
            io.plaintext.len() == 0,
            io.output.len() == 0,
        ensures
            self.delivers(io.session, Seq::empty(), Seq::empty(), io),
    {
        let none = Seq::<Seq<u8>>::empty();
        self.lemma_sends_nothing(io.session, seq![LF], Seq::empty());
        assert(Seq::<u8>::empty() + io.output =~= Seq::empty());
        assert(none.flatten() + io.plaintext =~= Seq::empty());
        assert(self.delivers_chunks(none, io.session, Seq::empty(), Seq::empty(), io));
    }

    /// The chunks of a flush come behind those sent before, whatever the
    /// transport took in between.
    proof fn lemma_flush_continues(
        &self,
        s0: SessionSpec,
        done: Seq<Seq<u8>>,
        taken: Seq<u8>,
        io0: SerialSpec,
        io1: SerialSpec,
        partial: bool,
    )
        requires
            self.wf(),
            self.sends(
                s0,
                io0.session,
                done,
                seq![LF],
                Seq::empty(),
                taken + io0.output,
                Ok(()),
            ),
            self.flushes(io0, io1, partial, Ok(())),
        ensures
            self.delivers(s0, done.flatten() + io0.plaintext, taken, io1),
    {
        let chunks = flush_chunks(io0.plaintext, self.max(), partial);
        self.lemma_sends_behind(
            taken,
            io0.session,
            io1.session,
            chunks,
            seq![LF],
            io0.output,
            io1.output,
            Ok(()),
        );
        self.lemma_sends_then(
            s0,
            io0.session,
            io1.session,
            done,
            chunks,
            seq![LF],
            Seq::empty(),
            taken + io0.output,
            taken + io1.output,
            Ok(()),
        );
        lemma_flatten_concat(done, chunks);
        law_flush_keeps(io0.plaintext, self.max(), partial);
        let written = done.flatten() + io0.plaintext;
        assert((done + chunks).flatten() + io1.plaintext =~= written);
        assert(self.delivers_chunks(done + chunks, s0, written, taken, io1));
    }

    /// A write adds its bytes to what a backend delivers.
    pub proof fn law_write_delivers(
        &self,
        s0: SessionSpec,
        written: Seq<u8>,
        taken: Seq<u8>,
        io0: SerialSpec,
        buf: Seq<u8>,
        io1: SerialSpec,
    )
        requires
            self.wf(),
            self.delivers(s0, written, taken, io0),
            self.writes(io0, buf, io1, Ok(())),
        ensures
            self.delivers(s0, written + buf, taken, io1),
    {
        let done = choose|c: Seq<Seq<u8>>| #[trigger]
            self.delivers_chunks(c, s0, written, taken, io0);
        let collected = io0.collecting(buf);
        assert(done.flatten() + collected.plaintext =~= written + buf);
        if collected.plaintext.contains(LF) {
            self.lemma_flush_continues(s0, done, taken, collected, io1, false);
        } else {
            assert(self.delivers_chunks(done, s0, written + buf, taken, io1));
        }
    }

    /// A flush changes nothing in what a backend delivers, and leaves nothing
    /// held.
    pub proof fn law_flush_delivers(
        &self,
        s0: SessionSpec,
        written: Seq<u8>,
        taken: Seq<u8>,
        io0: SerialSpec,
        io1: SerialSpec,
    )
        requires
            self.wf(),
            self.delivers(s0, written, taken, io0),
            self.flushes(io0, io1, true, Ok(())),
        ensures
            self.delivers(s0, written, taken, io1),
            io1.plaintext.len() == 0,
    {
        let done = choose|c: Seq<Seq<u8>>| #[trigger]
            self.delivers_chunks(c, s0, written, taken, io0);
        self.lemma_flush_continues(s0, done, taken, io0, io1, true);
        law_flush_keeps(io0.plaintext, self.max(), true);
    }

    /// Draining moves the first `n` queued bytes to the transport and changes
    /// nothing in what a backend delivers.
    pub proof fn law_drain_delivers(
        &self,
        s0: SessionSpec,
        written: Seq<u8>,
        taken: Seq<u8>,
        io: SerialSpec,
        n: int,
    )
        requires
            self.delivers(s0, written, taken, io),
            0 <= n <= io.output.len(),
        ensures
            self.delivers(
                s0,
                written,
                taken + io.output.take(n),
                SerialSpec { output: io.output.skip(n), ..io },
            ),
    {
        let done = choose|c: Seq<Seq<u8>>| #[trigger]
            self.delivers_chunks(c, s0, written, taken, io);
        let io1 = SerialSpec { output: io.output.skip(n), ..io };
        assert((taken + io.output.take(n)) + io1.output =~= taken + io.output);
        assert(self.delivers_chunks(done, s0, written, taken + io.output.take(n), io1));
    }

    /// In every state, what the transport took and what is queued decrypt to
    /// what was written but for what is still held, which follows it. After a
    /// flush that is everything.
    pub proof fn law_delivered_decrypts(
        &self,
        w: WriterModel<E>,
        r: ReaderModel,
        gks: Seq<u8>,
        s0: SessionSpec,
        written: Seq<u8>,
        taken: Seq<u8>,
        io: SerialSpec,
    )
        requires
            self.described_by(w),
            undoes(r, w, gks),
            self.derives(gks, s0.id, Ok(s0.key)),
            self.delivers(s0, written, taken, io),
        ensures
            readable(taken + io.output),
            r.lines_output(gks, readable_lines(taken + io.output)) + io.plaintext == written,
            io.plaintext.len() == 0 ==> r.lines_output(gks, readable_lines(taken + io.output))
                == written,
    {
        let done = choose|c: Seq<Seq<u8>>| #[trigger]
            self.delivers_chunks(c, s0, written, taken, io);
        self.law_sent_decrypts(w, r, gks, s0, io.session, done, taken + io.output, Ok(()));
        if io.plaintext.len() == 0 {
            assert(done.flatten() + io.plaintext =~= done.flatten());
        }
    }

    /// A flush that is done has handed everything to the transport: nothing is
    /// held and nothing queued, and what the transport took is the records of
    /// chunks that in a row are what was written, one number each. They decrypt
    /// to what was written.
    pub proof fn law_flush_done(
        &self,
        w: WriterModel<E>,
        r: ReaderModel,
        gks: Seq<u8>,
        s0: SessionSpec,
        written: Seq<u8>,
        taken: Seq<u8>,
        io0: SerialSpec,
        io1: SerialSpec,
        n: int,
        drained: Drained,
        answer: Answer,
    )
        requires
            self.wf(),
            self.described_by(w),
            undoes(r, w, gks),
            self.derives(gks, s0.id, Ok(s0.key)),
            self.delivers(s0, written, taken, io0),
            self.flushes(io0, io1, true, Ok(())),
            0 <= n <= io1.output.len(),
            drained is Done ==> n == io1.output.len(),
            flush_end(drained, answer) is Ready,
        ensures
            ({
                let all = taken + io1.output.take(n);
                let io2 = SerialSpec { output: io1.output.skip(n), ..io1 };
                &&& io2.plaintext.len() == 0
                &&& io2.output.len() == 0
                &&& exists|chunks: Seq<Seq<u8>>|
                    {
                        &&& #[trigger] self.sends(
                            s0,
                            io2.session,
                            chunks,
                            seq![LF],
                            Seq::empty(),
                            all,
                            Ok(()),
                        )
                        &&& chunks.flatten() == written
                        &&& chunks.len() == io2.session.seq - s0.seq
                    }
                &&& readable(all)
                &&& r.lines_output(gks, readable_lines(all)) == written
            }),
    {
        let all = taken + io1.output.take(n);
        let io2 = SerialSpec { output: io1.output.skip(n), ..io1 };
        self.law_flush_delivers(s0, written, taken, io0, io1);
        self.law_drain_delivers(s0, written, taken, io1, n);
        self.law_delivered_decrypts(w, r, gks, s0, written, all, io2);
        let chunks = choose|c: Seq<Seq<u8>>| #[trigger]
            self.delivers_chunks(c, s0, written, all, io2);
        assert(all + io2.output =~= all);
        assert(chunks.flatten() + io2.plaintext =~= chunks.flatten());
        assert(self.sends(s0, io2.session, chunks, seq![LF], Seq::empty(), all, Ok(())));
    }

    /// A flush of a backend that holds nothing makes no record and changes
    /// nothing.
    pub proof fn law_flush_again(
        &self,
        w: WriterModel<E>,
        io0: SerialSpec,
        io1: SerialSpec,
        result: Result<(), EncryptError<E>>,
    )
        requires
            self.described_by(w),
            io0.plaintext.len() == 0,
            self.flushes(io0, io1, true, result),
        ensures
            result is Ok,
            io1 == io0,
    {
        let chunks = flush_chunks(io0.plaintext, self.max(), true);
        lemma_line_end(io0.plaintext);
        assert(chunks =~= Seq::empty());
        let nonces = choose|n: Seq<Seq<u8>>| #[trigger]
            self.sends_under(
                n,
                io0.session,
                io1.session,
                chunks,
                seq![LF],
                io0.output,
                io1.output,
                result,
            );
        assert(w.encrypted(
            io0.session,
            nonces,
            chunks,
            seq![LF],
            0,
            io0.output,
            io1.output,
            result,
        ));
        assert(io1 =~= io0);
    }
}

} // verus!
