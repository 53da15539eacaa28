//! What an encrypting serial backend sends for what is written to it, and when.

use crate::encrypt::{chunks_of, EncryptError};
use crate::encrypt_laws::{frames, sent_exactly};
use crate::line_laws::{joined, lemma_joined_next, lemma_joined_push};
use crate::lines::{lemma_line_end_is, LF};
use crate::record::{
    GksKeyMaterial, Record, RecordWriter, WriterModel, AES_KEY_LEN, SESSION_ID_LEN,
};
use crate::serial::{
    close_step, drain_step, flush_chunks, flush_len, flush_rest, flush_step, Answer, CloseAction,
    CloseEvent, DrainAction, Drained, FlushAction, FlushEvent, SerialSpec, WriteOutcome,
};
use vstd::prelude::*;

verus! {

/// None of `lines` holds a line feed.
pub open spec fn without_line_feeds(lines: Seq<Seq<u8>>) -> bool {
    forall|i: int| 0 <= i < lines.len() ==> !(#[trigger] lines[i]).contains(10u8)
}

/// Lines, each with its line feed.
pub open spec fn whole_lines(lines: Seq<Seq<u8>>) -> Seq<Seq<u8>> {
    Seq::new(lines.len(), |i: int| lines[i] + seq![10u8])
}

/// The chunks of bytes without a line feed.
proof fn lemma_tail_chunks(tail: Seq<u8>, max: int, partial: bool)
    requires
        max > 0,
        !tail.contains(10u8),
    ensures
        flush_chunks(tail, max, partial) == (if partial {
            chunks_of(tail, max)
        } else {
            Seq::empty()
        }),
        flush_rest(tail, max, partial) == (if partial {
            Seq::empty()
        } else {
            tail
        }),
    decreases tail.len(),
{
    assert forall|i: int| 0 <= i < tail.len() implies tail[i] != LF by {
        assert(tail.contains(tail[i]));
    }
    lemma_line_end_is(tail, tail.len() as int);
    if partial && tail.len() > 0 {
        let n = flush_len(tail, max, partial);
        let rest = tail.skip(n);
        assert forall|b: u8| rest.contains(b) implies tail.contains(b) by {
            let i = choose|i: int| 0 <= i < rest.len() && rest[i] == b;
            assert(tail[n + i] == b);
        }
        lemma_tail_chunks(rest, max, partial);
        if tail.len() <= max {
            assert(tail.take(n) =~= tail);
            assert(rest =~= Seq::empty());
            assert(flush_chunks(tail, max, partial) =~= seq![tail]);
        }
    } else {
        assert(flush_chunks(tail, max, partial) =~= Seq::empty());
        if tail.len() == 0 {
            assert(tail =~= Seq::empty());
        }
    }
}

/// A flush sends every line with its line feed as one chunk, whatever its length,
/// and of what follows the last line feed nothing, so that it stays; or, where a
/// partial line is to be flushed too, all of it, in pieces as large as a record
/// holds.
pub proof fn law_flush_lines(lines: Seq<Seq<u8>>, tail: Seq<u8>, max: int, partial: bool)
    requires
        max > 0,
        without_line_feeds(lines),
        !tail.contains(10u8),
    ensures
        flush_chunks(joined(lines, seq![10u8]) + tail, max, partial) == whole_lines(lines) + (
        if partial {
            chunks_of(tail, max)
        } else {
            Seq::empty()
        }),
        flush_rest(joined(lines, seq![10u8]) + tail, max, partial) == (if partial {
            Seq::empty()
        } else {
            tail
        }),
    decreases lines.len(),
{
    let buf = joined(lines, seq![10u8]) + tail;
    let end = if partial {
        chunks_of(tail, max)
    } else {
        Seq::empty()
    };
    if lines.len() == 0 {
        lemma_tail_chunks(tail, max, partial);
        assert(buf =~= tail);
        assert(whole_lines(lines) + end =~= end);
    } else {
        let later = lines.drop_first();
        assert forall|i: int| 0 <= i < later.len() implies !(#[trigger] later[i]).contains(
            10u8,
        ) by {
            assert(later[i] == lines[i + 1]);
        }
        law_flush_lines(later, tail, max, partial);
        lemma_joined_next(lines, seq![10u8]);
        let line = lines[0];
        let rest = joined(later, seq![10u8]) + tail;
        assert(buf =~= line + seq![10u8] + rest);
        assert forall|i: int| 0 <= i < line.len() implies buf[i] != LF by {
            assert(line.contains(line[i]));
        }
        assert(buf[line.len() as int] == 10u8);
        lemma_line_end_is(buf, line.len() as int);
        assert(buf.take(line.len() as int + 1) =~= line + seq![10u8]);
        assert(buf.skip(line.len() as int + 1) =~= rest);
        assert(whole_lines(lines) + end =~= seq![line + seq![10u8]] + (whole_lines(later) + end));
    }
}

/// Any bytes are lines with their line feeds and then bytes without one.
pub proof fn law_lines_and_tail(s: Seq<u8>) -> (split: (Seq<Seq<u8>>, Seq<u8>))
    ensures
        s == joined(split.0, seq![10u8]) + split.1,
        without_line_feeds(split.0),
        !split.1.contains(10u8),
        s.contains(10u8) <==> split.0.len() > 0,
    decreases s.len(),
{
    if s.len() == 0 {
        let none = Seq::<Seq<u8>>::empty();
        assert(s =~= joined(none, seq![10u8]) + s);
        (none, s)
    } else {
        let (lines, tail) = law_lines_and_tail(s.drop_last());
        let b = s.last();
        assert(s =~= s.drop_last().push(b));
        if b == 10u8 {
            lemma_joined_push(lines, tail, seq![10u8]);
            let all = lines.push(tail);
            assert forall|i: int| 0 <= i < all.len() implies !(#[trigger] all[i]).contains(
                10u8,
            ) by {
                if i < lines.len() {
                    assert(all[i] == lines[i]);
                }
            }
            assert(s =~= joined(all, seq![10u8]) + Seq::<u8>::empty());
            assert(s[s.len() - 1] == 10u8);
            (all, Seq::empty())
        } else {
            let more = tail.push(b);
            assert(s =~= joined(lines, seq![10u8]) + more);
            assert forall|i: int| 0 <= i < more.len() implies more[i] != 10u8 by {
                if i < tail.len() {
                    assert(tail.contains(tail[i]));
                }
            }
            if s.contains(10u8) {
                let i = choose|i: int| 0 <= i < s.len() && s[i] == 10u8;
                assert(s.drop_last()[i] == 10u8);
            }
            if s.drop_last().contains(10u8) {
                let i = choose|i: int| 0 <= i < s.drop_last().len() && s.drop_last()[i] == 10u8;
                assert(s[i] == 10u8);
            }
            (lines, more)
        }
    }
}

/// Some of the parts, and the others behind.
proof fn lemma_joined_split(parts: Seq<Seq<u8>>, end: Seq<u8>, k: int)
    requires
        0 <= k <= parts.len(),
    ensures
        joined(parts, end) == joined(parts.take(k), end) + joined(parts.skip(k), end),
    decreases k,
{
    if k == 0 {
        assert(parts.take(0) =~= Seq::empty());
        assert(parts.skip(0) =~= parts);
        assert(joined(parts.take(0), end) =~= Seq::empty());
    } else {
        lemma_joined_split(parts, end, k - 1);
        assert(parts.take(k - 1).push(parts[k - 1]) =~= parts.take(k));
        lemma_joined_push(parts.take(k - 1), parts[k - 1], end);
        lemma_joined_next(parts.skip(k - 1), end);
        assert(parts.skip(k - 1).drop_first() =~= parts.skip(k));
        assert(joined(parts, end) =~= joined(parts.take(k), end) + joined(parts.skip(k), end));
    }
}

/// Lines with their line feeds in a row are those lines joined.
proof fn lemma_whole_lines_flatten(lines: Seq<Seq<u8>>)
    ensures
        whole_lines(lines).flatten() == joined(lines, seq![10u8]),
{
}

impl<const N: usize, E, K, S, T> RecordWriter<N, K, S, T> where
    K: Fn(&GksKeyMaterial, &[u8; SESSION_ID_LEN]) -> Result<[u8; AES_KEY_LEN], E>,
    S: Fn(&[u8; AES_KEY_LEN], &[u8; SESSION_ID_LEN], u64, &[u8; N], &[u8]) -> Result<
        (Vec<u8>, Vec<u8>),
        E,
    >,
    T: Fn(&Record<N>) -> Vec<u8>,
 {
    /// A flush of a backend that holds `lines` and then `tail` queues one record
    /// per line, sealing the whole line with its line feed, and behind them, where
    /// `partial` is set, the tail in pieces; a line feed follows every record.
    /// After a success the tail is held where it was not flushed, and nothing
    /// else; after a failure, what stands behind the chunk that failed.
    pub proof fn law_flush_sends(
        &self,
        w: WriterModel<E>,
        io0: SerialSpec,
        io1: SerialSpec,
        lines: Seq<Seq<u8>>,
        tail: Seq<u8>,
        partial: bool,
        r: Result<(), EncryptError<E>>,
    ) -> (sent: (Seq<Seq<u8>>, Seq<Seq<u8>>))
        requires
            self.wf(),
            self.described_by(w),
            self.flushes(io0, io1, partial, r),
            io0.plaintext == joined(lines, seq![10u8]) + tail,
            without_line_feeds(lines),
            !tail.contains(10u8),
        ensures
            sent_exactly(
                N as int,
                w,
                io0.session,
                io1.session,
                Seq::new(lines.len(), |i: int| lines[i] + seq![10u8]) + (if partial {
                    chunks_of(tail, self.max())
                } else {
                    Seq::empty()
                }),
                sent.0,
                sent.1,
                seq![10u8],
                io0.output,
                io1.output,
                r,
            ),
            r is Ok ==> io1.plaintext == (if partial {
                Seq::empty()
            } else {
                tail
            }),
            r is Err ==> io0.plaintext == (Seq::new(lines.len(), |i: int| lines[i] + seq![10u8]) + (
            if partial {
                chunks_of(tail, self.max())
            } else {
                Seq::empty()
            })).take(sent.1.len() as int + 1).flatten() + io1.plaintext,
            r is Err && sent.1.len() < lines.len() ==> io1.plaintext == joined(
                lines.skip(sent.1.len() as int + 1),
                seq![10u8],
            ) + tail,
    {
        law_flush_lines(lines, tail, self.max(), partial);
        let chunks = flush_chunks(io0.plaintext, self.max(), partial);
        let (nonces, texts) = self.law_sends_exactly(
            w,
            io0.session,
            io1.session,
            chunks,
            seq![LF],
            io0.output,
            io1.output,
            r,
        );
        if r is Err && texts.len() < lines.len() {
            let k = texts.len() as int + 1;
            assert(io1.session.seq - io0.session.seq == texts.len());
            assert(chunks.take(k) =~= whole_lines(lines.take(k)));
            lemma_whole_lines_flatten(lines.take(k));
            lemma_joined_split(lines, seq![10u8], k);
            let front = joined(lines.take(k), seq![10u8]);
            let back = joined(lines.skip(k), seq![10u8]) + tail;
            assert(io0.plaintext =~= front + back);
            assert(io0.plaintext == front + io1.plaintext);
            let n = front.len() as int;
            assert(io1.plaintext =~= (front + io1.plaintext).skip(n));
            assert(back =~= (front + back).skip(n));
        }
        (nonces, texts)
    }

    /// Output is buffered by lines: while what is held and what is written hold no
    /// line feed, a write only adds to what is held. It cannot fail, nothing is
    /// encrypted, and nothing is queued.
    pub proof fn law_write_holds(
        &self,
        io0: SerialSpec,
        buf: Seq<u8>,
        io1: SerialSpec,
        r: Result<(), EncryptError<E>>,
    )
        requires
            self.writes(io0, buf, io1, r),
            !(io0.plaintext + buf).contains(10u8),
        ensures
            r is Ok,
            io1.plaintext == io0.plaintext + buf,
            io1.output == io0.output,
            io1.session == io0.session,
    {
    }

    /// A write that completes lines queues one record for each, which seals the
    /// whole line, also what was held of it before, with its line feed; what
    /// follows the last line feed is held.
    pub proof fn law_write_sends_lines(
        &self,
        w: WriterModel<E>,
        io0: SerialSpec,
        buf: Seq<u8>,
        io1: SerialSpec,
        lines: Seq<Seq<u8>>,
        tail: Seq<u8>,
        r: Result<(), EncryptError<E>>,
    ) -> (sent: (Seq<Seq<u8>>, Seq<Seq<u8>>))
        requires
            self.wf(),
            self.described_by(w),
            self.writes(io0, buf, io1, r),
            io0.plaintext + buf == joined(lines, seq![10u8]) + tail,
            without_line_feeds(lines),
            !tail.contains(10u8),
        ensures
            sent_exactly(
                N as int,
                w,
                io0.session,
                io1.session,
                Seq::new(lines.len(), |i: int| lines[i] + seq![10u8]),
                sent.0,
                sent.1,
                seq![10u8],
                io0.output,
                io1.output,
                r,
            ),
            r is Ok ==> io1.plaintext == tail,
            r is Err ==> io1.plaintext == joined(lines.skip(sent.1.len() as int + 1), seq![10u8]) + tail,
    {
        let all = io0.plaintext + buf;
        let collected = io0.collecting(buf);
        if lines.len() == 0 {
            assert(all =~= tail);
            let none = Seq::<Seq<u8>>::empty();
            assert(Seq::new(lines.len(), |i: int| lines[i] + seq![10u8]) =~= none);
            assert(io0.output + joined(none, seq![10u8]) =~= io0.output);
            (none, none)
        } else {
            lemma_joined_next(lines, seq![10u8]);
            assert(all[lines[0].len() as int] == 10u8);
            assert(all.contains(10u8));
            let sent = self.law_flush_sends(w, collected, io1, lines, tail, false, r);
            assert(Seq::new(lines.len(), |i: int| lines[i] + seq![10u8]) + Seq::<
                Seq<u8>,
            >::empty() =~= Seq::new(lines.len(), |i: int| lines[i] + seq![10u8]));
            sent
        }
    }

    /// A line written in any number of pieces is one record: until the piece that
    /// ends it the session and the queue stay as they are, but for what the
    /// transport takes, and with that piece one record is queued, which seals the
    /// line and its line feed.
    pub proof fn law_line_is_one_record(
        &self,
        w: WriterModel<E>,
        pieces: Seq<Seq<u8>>,
        befores: Seq<SerialSpec>,
        afters: Seq<SerialSpec>,
        line: Seq<u8>,
    ) -> (sent: (Seq<u8>, Seq<u8>))
        requires
            self.wf(),
            self.described_by(w),
            pieces.len() > 0,
            befores.len() == pieces.len(),
            afters.len() == pieces.len(),
            befores[0].plaintext.len() == 0,
            forall|i: int|
                0 <= i < pieces.len() ==> self.writes(
                    befores[i],
                    #[trigger] pieces[i],
                    afters[i],
                    Ok(()),
                ),
            forall|i: int|
                0 < i < pieces.len() ==> (#[trigger] befores[i]).session == afters[i - 1].session
                    && befores[i].plaintext == afters[i - 1].plaintext,
            pieces.flatten() == line + seq![10u8],
            pieces.last().len() > 0,
            !line.contains(10u8),
        ensures
            forall|i: int|
                0 <= i < pieces.len() - 1 ==> {
                    &&& (#[trigger] afters[i]).session == befores[0].session
                    &&& afters[i].output == befores[i].output
                    &&& afters[i].plaintext == pieces.take(i + 1).flatten()
                },
            afters.last().plaintext.len() == 0,
            afters.last().session.seq == befores[0].session.seq + 1,
            afters.last().session.id == befores[0].session.id,
            afters.last().session.key == befores[0].session.key,
            frames(
                w,
                befores[0].session.key,
                befores[0].session.id,
                befores[0].session.seq,
                sent.0,
                line + seq![10u8],
                sent.1,
            ),
            afters.last().output == befores.last().output + sent.1 + seq![10u8],
    {
        let n = pieces.len() - 1;
        let last = pieces[n];
        let init = pieces.drop_last();
        init.lemma_flatten_push(last);
        assert(init.push(last) =~= pieces);
        let text = line + seq![10u8];
        assert(last[last.len() - 1] == text[text.len() - 1]);
        assert forall|i: int| 0 <= i < init.flatten().len() implies init.flatten()[i] != 10u8 by {
            assert(text[i] == init.flatten()[i]);
            assert(line[i] == text[i]);
            assert(line.contains(line[i]));
        }
        self.lemma_held(pieces, befores, afters, n);
        assert(pieces.take(n) =~= init);
        let held = befores[n].plaintext;
        assert(held + last =~= text);
        assert(pieces[n] == last);
        let lines = seq![line];
        lemma_joined_next(lines, seq![10u8]);
        assert(lines.drop_first() =~= Seq::empty());
        assert(joined(lines.drop_first(), seq![10u8]) =~= Seq::empty());
        assert(held + last =~= joined(lines, seq![10u8]) + Seq::<u8>::empty());
        let (nonces, texts) = self.law_write_sends_lines(
            w,
            befores[n],
            last,
            afters[n],
            lines,
            Seq::empty(),
            Ok(()),
        );
        assert(texts =~= seq![texts[0]]);
        lemma_joined_next(texts, seq![10u8]);
        assert(texts.drop_first() =~= Seq::empty());
        assert(joined(texts.drop_first(), seq![10u8]) =~= Seq::empty());
        assert(joined(texts, seq![10u8]) =~= texts[0] + seq![10u8]);
        assert(afters.last().output =~= befores.last().output + texts[0] + seq![10u8]);
        (nonces[0], texts[0])
    }

    /// What is held before the piece `k`, all pieces before it being without a
    /// line feed.
    proof fn lemma_held(
        &self,
        pieces: Seq<Seq<u8>>,
        befores: Seq<SerialSpec>,
        afters: Seq<SerialSpec>,
        k: int,
    )
        requires
            0 <= k < pieces.len(),
            befores.len() == pieces.len(),
            afters.len() == pieces.len(),
            befores[0].plaintext.len() == 0,
            forall|i: int|
                0 <= i < pieces.len() ==> self.writes(
                    befores[i],
                    #[trigger] pieces[i],
                    afters[i],
                    Ok(()),
                ),
            forall|i: int|
                0 < i < pieces.len() ==> (#[trigger] befores[i]).session == afters[i - 1].session
                    && befores[i].plaintext == afters[i - 1].plaintext,
            forall|i: int|
                0 <= i < pieces.take(k).flatten().len() ==> pieces.take(k).flatten()[i] != 10u8,
        ensures
            befores[k].plaintext == pieces.take(k).flatten(),
            befores[k].session == befores[0].session,
            forall|i: int|
                0 <= i < k ==> {
                    &&& (#[trigger] afters[i]).session == befores[0].session
                    &&& afters[i].output == befores[i].output
                    &&& afters[i].plaintext == pieces.take(i + 1).flatten()
                },
        decreases k,
    {
        if k == 0 {
            assert(pieces.take(0) =~= Seq::empty());
            assert(befores[0].plaintext =~= pieces.take(0).flatten());
        } else {
            let j = k - 1;
            assert(pieces.take(k) =~= pieces.take(j).push(pieces[j]));
            pieces.take(j).lemma_flatten_push(pieces[j]);
            let all = pieces.take(k).flatten();
            assert forall|i: int| 0 <= i < pieces.take(j).flatten().len() implies pieces.take(
                j,
            ).flatten()[i] != 10u8 by {
                assert(all[i] == pieces.take(j).flatten()[i]);
            }
            self.lemma_held(pieces, befores, afters, j);
            assert(befores[j].plaintext + pieces[j] =~= all);
            self.law_write_holds(befores[j], pieces[j], afters[j], Ok(()));
        }
    }
}

/// Draining hands the queue to the transport in order and loses nothing: the
/// bytes taken and those left are the queue. It is done exactly where nothing is
/// left, goes on while something is and the transport takes bytes, and else
/// passes on what the transport answered, with the queue as it was.
pub proof fn law_drain_step(output: Seq<u8>, last: Option<WriteOutcome>)
    requires
        last matches Some(WriteOutcome::Wrote(n)) ==> n <= output.len(),
    ensures
        ({
            let (left, action) = drain_step(output, last);
            &&& match last {
                Some(WriteOutcome::Wrote(n)) => output.take(n as int) + left == output && left.len()
                    == output.len() - n,
                _ => left == output,
            }
            &&& match last {
                Some(WriteOutcome::Pending) => action == DrainAction::Stop(Drained::Pending),
                Some(WriteOutcome::Failed) => action == DrainAction::Stop(Drained::Failed),
                _ => {
                    &&& action == DrainAction::Stop(Drained::Done) <==> left.len() == 0
                    &&& action == DrainAction::Write <==> left.len() > 0
                },
            }
        }),
{
    if let Some(WriteOutcome::Wrote(n)) = last {
        assert(output.take(n as int) + output.skip(n as int) =~= output);
    }
}

/// The second half of a flush flushes the transport exactly where everything was
/// drained; else it ends with what draining or the transport came to.
pub proof fn law_flush_step(drained: Drained, answer: Answer, a: FlushAction, b: FlushAction)
    requires
        call_ensures(flush_step, (FlushEvent::Drained(drained),), a),
        call_ensures(flush_step, (FlushEvent::Flushed(answer),), b),
    ensures
        a is FlushTransport <==> drained == Drained::Done,
        drained == Drained::Pending ==> a == FlushAction::Return(Answer::Pending),
        drained == Drained::Failed ==> a == FlushAction::Return(Answer::Failed),
        b == FlushAction::Return(answer),
{
}

/// A close closes the transport exactly where the flush before it was done; else
/// it ends with what the flush or the transport came to.
pub proof fn law_close_step(flushed: Answer, answer: Answer, a: CloseAction, b: CloseAction)
    requires
        call_ensures(close_step, (CloseEvent::Flushed(flushed),), a),
        call_ensures(close_step, (CloseEvent::Closed(answer),), b),
    ensures
        a is CloseTransport <==> flushed == Answer::Ready,
        flushed != Answer::Ready ==> a == CloseAction::Return(flushed),
        b == CloseAction::Return(answer),
{
}

} // verus!
