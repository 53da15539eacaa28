//! What is sent for given bytes: which records, in which order, and what each
//! one seals.

use crate::decrypt::NotUtf8;
use crate::encrypt::{chunks_of, EncryptError, SessionError, SessionSpec};
use crate::encrypt_stream::{chunk_result, line_chunks, StreamError};
use crate::laws::{law_chunks, undoes};
use crate::line_laws::{
    ends_line, ends_lines, joined, law_last_line, law_lines_read, law_unreadable_line, lemma_joined_push,
};
use crate::lines::{readable, readable_lines, LF};
use crate::random::{draw_fails, drawn};
use crate::record::{
    GksKeyMaterial, ReaderModel, Record, RecordReader, RecordSpec, RecordWriter, SentinelMatch,
    WriterModel, AES_KEY_LEN, SESSION_ID_LEN,
};
use vstd::prelude::*;
use vstd::utf8::valid_utf8;

verus! {

/// `text` frames the record that seals `plaintext` under the key, identifier and
/// number given, with the nonce given.
pub open spec fn frames<E>(
    w: WriterModel<E>,
    key: Seq<u8>,
    id: Seq<u8>,
    seq: int,
    nonce: Seq<u8>,
    plaintext: Seq<u8>,
    text: Seq<u8>,
) -> bool {
    match (w.seal)(key, id, seq as u64, nonce, plaintext) {
        Err(_) => false,
        Ok((ciphertext, tag)) => text == (w.encode)(
            RecordSpec { session_id: id, seq: seq as u64, nonce, ciphertext, tag },
        ),
    }
}

/// `texts` frame the first of `chunks`, one record each in the same order, all
/// under the key and identifier of `s0` and numbered in a row from its number on;
/// they were appended to `before` with `end` behind each. `s1` is `s0` with the
/// next number. Where `r` is a success all chunks were sent; else the next one
/// was not, and `r` says why.
pub open spec fn sent_exactly<E>(
    n: int,
    w: WriterModel<E>,
    s0: SessionSpec,
    s1: SessionSpec,
    chunks: Seq<Seq<u8>>,
    nonces: Seq<Seq<u8>>,
    texts: Seq<Seq<u8>>,
    end: Seq<u8>,
    before: Seq<u8>,
    after: Seq<u8>,
    r: Result<(), EncryptError<E>>,
) -> bool {
    &&& texts.len() <= chunks.len()
    &&& texts.len() <= nonces.len()
    &&& forall|i: int| 0 <= i < nonces.len() ==> (#[trigger] nonces[i]).len() == n
    &&& forall|i: int|
        0 <= i < texts.len() ==> frames(
            w,
            s0.key,
            s0.id,
            s0.seq + i,
            nonces[i],
            chunks[i],
            #[trigger] texts[i],
        )
    &&& after == before + joined(texts, end)
    &&& s1.key == s0.key && s1.id == s0.id && s1.seq == s0.seq + texts.len()
    &&& match r {
        Ok(()) => texts.len() == chunks.len(),
        Err(EncryptError::Nonce(_)) => texts.len() < chunks.len(),
        Err(EncryptError::Seal(e)) => {
            &&& texts.len() < chunks.len()
            &&& texts.len() < nonces.len()
            &&& (w.seal)(
                s0.key,
                s0.id,
                (s0.seq + texts.len()) as u64,
                nonces[texts.len() as int],
                chunks[texts.len() as int],
            ) == Err::<(Seq<u8>, Seq<u8>), E>(e)
        },
    }
}

/// Cutting into chunks is cutting at every `max` bytes: the chunks in a row are
/// the bytes, every chunk but the last holds `max` bytes, and the last at least
/// one and at most `max`. Bytes that fit are one chunk.
pub proof fn law_chunks_full(s: Seq<u8>, max: int)
    requires
        max > 0,
    ensures
        chunks_of(s, max).flatten() == s,
        forall|i: int|
            0 <= i < chunks_of(s, max).len() - 1 ==> (#[trigger] chunks_of(s, max)[i]).len() == max,
        s.len() > 0 ==> 0 < chunks_of(s, max).last().len() <= max,
        (chunks_of(s, max).len() == 0) == (s.len() == 0),
        0 < s.len() <= max ==> chunks_of(s, max) == seq![s],
    decreases s.len(),
{
    law_chunks(s, max);
    if s.len() > max {
        let rest = chunks_of(s.skip(max), max);
        law_chunks_full(s.skip(max), max);
        assert(chunks_of(s, max).last() == rest.last());
        assert forall|i: int| 0 <= i < chunks_of(s, max).len() - 1 implies (
        #[trigger] chunks_of(s, max)[i]).len() == max by {
            if i > 0 {
                assert(chunks_of(s, max)[i] == rest[i - 1]);
            }
        }
    }
}

/// The chunks of lines are those of each line with its line feed, line by line.
pub proof fn law_line_chunks_each(lines: Seq<Seq<u8>>, max: int)
    ensures
        line_chunks(lines, max) == Seq::new(
            lines.len(),
            |i: int| chunks_of(lines[i] + seq![10u8], max),
        ).flatten(),
    decreases lines.len(),
{
    let each = Seq::new(lines.len(), |i: int| chunks_of(lines[i] + seq![10u8], max));
    if lines.len() > 0 {
        let later = lines.drop_first();
        law_line_chunks_each(later, max);
        assert(each.drop_first() =~= Seq::new(
            later.len(),
            |i: int| chunks_of(later[i] + seq![10u8], max),
        ));
        assert(lines[0].push(LF) =~= lines[0] + seq![10u8]);
    }
}

/// Where every line with its line feed fits into a record, the chunks are the
/// lines, each with its line feed: one record per line.
pub proof fn law_short_lines(lines: Seq<Seq<u8>>, max: int)
    requires
        forall|i: int| 0 <= i < lines.len() ==> (#[trigger] lines[i]).len() < max,
    ensures
        line_chunks(lines, max) == Seq::new(lines.len(), |i: int| lines[i] + seq![10u8]),
    decreases lines.len(),
{
    let each = Seq::new(lines.len(), |i: int| lines[i] + seq![10u8]);
    if lines.len() > 0 {
        let later = lines.drop_first();
        assert(lines[0].len() < max);
        assert forall|i: int| 0 <= i < later.len() implies (#[trigger] later[i]).len() < max by {
            assert(later[i] == lines[i + 1]);
        }
        law_short_lines(later, max);
        law_chunks_full(lines[0] + seq![10u8], max);
        assert(lines[0].push(LF) =~= lines[0] + seq![10u8]);
        assert(line_chunks(lines, max) =~= each);
    } else {
        assert(line_chunks(lines, max) =~= each);
    }
}

impl<E> WriterModel<E> {
    /// The texts of sealed chunks, one by one.
    proof fn lemma_texts_joined(
        self,
        s0: SessionSpec,
        nonces: Seq<Seq<u8>>,
        chunks: Seq<Seq<u8>>,
        end: Seq<u8>,
        count: int,
    ) -> (texts: Seq<Seq<u8>>)
        requires
            0 <= count,
            self.seals(s0, nonces, chunks, count),
        ensures
            texts.len() == count,
            self.texts(s0, nonces, chunks, end, count) == joined(texts, end),
            forall|i: int|
                0 <= i < count ==> frames(
                    self,
                    s0.key,
                    s0.id,
                    s0.seq + i,
                    nonces[i],
                    chunks[i],
                    #[trigger] texts[i],
                ),
        decreases count,
    {
        if count == 0 {
            let none = Seq::<Seq<u8>>::empty();
            assert(joined(none, end) =~= Seq::empty());
            none
        } else {
            let init = self.lemma_texts_joined(s0, nonces, chunks, end, count - 1);
            assert(self.record_text(s0.later(count - 1), nonces[count - 1], chunks[count - 1])
                is Ok);
            let text = self.record_text(
                s0.later(count - 1),
                nonces[count - 1],
                chunks[count - 1],
            )->Ok_0;
            lemma_joined_push(init, text, end);
            let texts = init.push(text);
            assert forall|i: int| 0 <= i < count implies frames(
                self,
                s0.key,
                s0.id,
                s0.seq + i,
                nonces[i],
                chunks[i],
                #[trigger] texts[i],
            ) by {
                if i < count - 1 {
                    assert(texts[i] == init[i]);
                }
            }
            texts
        }
    }
}

/// The line feed or carriage return and line feed is taken off each line and a
/// line feed put behind it; nothing else changes.
pub proof fn law_streams_normalise<const N: usize, E, K, S, T, F, P, D, O>(
    writer: RecordWriter<N, K, S, T>,
    reader: RecordReader<F, P, D, O>,
    w: WriterModel<E>,
    r: ReaderModel,
    gks: Seq<u8>,
    lines: Seq<Seq<u8>>,
    end: Seq<u8>,
    last: Seq<u8>,
    encrypted: Seq<u8>,
    decrypted: Seq<u8>,
    result: Result<(), NotUtf8>,
) where
    K: Fn(&GksKeyMaterial, &[u8; SESSION_ID_LEN]) -> Result<[u8; AES_KEY_LEN], E>,
    S: Fn(&[u8; AES_KEY_LEN], &[u8; SESSION_ID_LEN], u64, &[u8; N], &[u8]) -> Result<
        (Vec<u8>, Vec<u8>),
        E,
    >,
    T: Fn(&Record<N>) -> Vec<u8>,
    F: Fn(&[u8], usize) -> SentinelMatch,
    P: Fn(&[u8]) -> Result<Record<N>, Vec<u8>>,
    D: Fn(&GksKeyMaterial, &[u8; SESSION_ID_LEN]) -> [u8; AES_KEY_LEN],
    O: Fn(&[u8; AES_KEY_LEN], &Record<N>) -> Result<Vec<u8>, Vec<u8>>,

    requires
        writer.wf(),
        writer.described_by(w),
        reader.described_by(r),
        undoes(r, w, gks),
        ends_lines(lines, end),
        forall|i: int| 0 <= i < lines.len() ==> valid_utf8(#[trigger] lines[i]),
        !last.contains(10u8),
        valid_utf8(last),
        writer.encrypts_stream(gks, joined(lines, end) + last, Seq::empty(), encrypted, Ok(())),
        reader.decrypts_stream(gks, encrypted, Seq::empty(), decrypted, result),
    ensures
        result is Ok,
        decrypted == joined(lines, seq![10u8]) + (if last.len() == 0 {
            Seq::empty()
        } else {
            last + seq![10u8]
        }),
{
    let input = joined(lines, end) + last;
    law_lines_read(lines, end, last);
    if last.len() > 0 {
        law_last_line(last);
    } else {
        assert(last =~= Seq::empty());
        assert(readable_lines(last) =~= Seq::empty());
    }
    let all = readable_lines(input);
    crate::laws::law_streams_pipe(
        writer,
        reader,
        w,
        r,
        gks,
        input,
        encrypted,
        decrypted,
        result,
    );
    lemma_with_line_feeds(all);
    if last.len() > 0 {
        assert(all =~= lines.push(last));
        lemma_joined_push(lines, last, seq![10u8]);
        assert(decrypted =~= joined(lines, seq![10u8]) + (last + seq![10u8]));
    } else {
        assert(all =~= lines);
        assert(decrypted =~= joined(lines, seq![10u8]) + Seq::<u8>::empty());
    }
}

/// Lines with line feeds are lines joined by them.
pub proof fn lemma_with_line_feeds(lines: Seq<Seq<u8>>)
    ensures
        crate::laws::with_line_feeds(lines) == joined(lines, seq![10u8]),
    decreases lines.len(),
{
    if lines.len() > 0 {
        lemma_with_line_feeds(lines.drop_first());
        crate::line_laws::lemma_joined_next(lines, seq![10u8]);
        assert(lines[0].push(LF) =~= lines[0] + seq![10u8]);
    } else {
        assert(joined(lines, seq![10u8]) =~= Seq::empty());
    }
}

impl<const N: usize, E, K, S, T> RecordWriter<N, K, S, T> where
    K: Fn(&GksKeyMaterial, &[u8; SESSION_ID_LEN]) -> Result<[u8; AES_KEY_LEN], E>,
    S: Fn(&[u8; AES_KEY_LEN], &[u8; SESSION_ID_LEN], u64, &[u8; N], &[u8]) -> Result<
        (Vec<u8>, Vec<u8>),
        E,
    >,
    T: Fn(&Record<N>) -> Vec<u8>,
 {
    /// Whatever says what each of the functions returns describes the writer.
    pub proof fn law_described(&self, m: WriterModel<E>)
        requires
            forall|gks: &GksKeyMaterial, id: &[u8; SESSION_ID_LEN], r: Result<[u8; AES_KEY_LEN], E>|
                call_ensures(self.derive, (gks, id), r) ==> match r {
                    Ok(key) => (m.derive)(gks@, id@) == Ok::<Seq<u8>, E>(key@),
                    Err(e) => (m.derive)(gks@, id@) == Err::<Seq<u8>, E>(e),
                },
            forall|
                key: &[u8; AES_KEY_LEN],
                id: &[u8; SESSION_ID_LEN],
                seq: u64,
                nonce: &[u8; N],
                plaintext: &[u8],
                r: Result<(Vec<u8>, Vec<u8>), E>,
            |
                call_ensures(self.seal, (key, id, seq, nonce, plaintext), r) ==> match r {
                    Ok((ciphertext, tag)) => (m.seal)(key@, id@, seq, nonce@, plaintext@) == Ok::<
                        (Seq<u8>, Seq<u8>),
                        E,
                    >((ciphertext@, tag@)),
                    Err(e) => (m.seal)(key@, id@, seq, nonce@, plaintext@) == Err::<
                        (Seq<u8>, Seq<u8>),
                        E,
                    >(e),
                },
            forall|record: &Record<N>, r: Vec<u8>|
                call_ensures(self.encode, (record,), r) ==> r@ == (m.encode)(record@),
        ensures
            self.described_by(m),
    {
    }

    /// Sending chunks is framing each in a record of its own.
    pub proof fn law_sends_exactly(
        &self,
        w: WriterModel<E>,
        s0: SessionSpec,
        s1: SessionSpec,
        chunks: Seq<Seq<u8>>,
        end: Seq<u8>,
        before: Seq<u8>,
        after: Seq<u8>,
        r: Result<(), EncryptError<E>>,
    ) -> (sent: (Seq<Seq<u8>>, Seq<Seq<u8>>))
        requires
            self.described_by(w),
            self.sends(s0, s1, chunks, end, before, after, r),
        ensures
            sent_exactly(N as int, w, s0, s1, chunks, sent.0, sent.1, end, before, after, r),
            forall|i: int| 0 <= i < sent.0.len() ==> drawn::<N>(#[trigger] sent.0[i]),
            r matches Err(EncryptError::Nonce(e)) ==> draw_fails::<N>(e),
    {
        let nonces = choose|n: Seq<Seq<u8>>| #[trigger]
            self.sends_under(n, s0, s1, chunks, end, before, after, r);
        let count = s1.seq - s0.seq;
        assert(w.encrypted(s0, nonces, chunks, end, count, before, after, r));
        let texts = w.lemma_texts_joined(s0, nonces, chunks, end, count);
        (nonces, texts)
    }

    /// What is sent for a stream whose readable lines are `lines`.
    proof fn lemma_stream_sends(
        &self,
        w: WriterModel<E>,
        gks: Seq<u8>,
        lines: Seq<Seq<u8>>,
        input: Seq<u8>,
        before: Seq<u8>,
        after: Seq<u8>,
        r: Result<(), StreamError<E>>,
    ) -> (sent: (SessionSpec, SessionSpec, Seq<Seq<u8>>, Seq<Seq<u8>>))
        requires
            self.described_by(w),
            readable_lines(input) == lines,
            self.encrypts_stream(gks, input, before, after, r),
            !(r matches Err(StreamError::Session(_))),
        ensures
            (w.derive)(gks, sent.0.id) == Ok::<Seq<u8>, E>(sent.0.key),
            sent.0.seq == 0,
            sent.0.id.len() == 16,
            drawn::<SESSION_ID_LEN>(sent.0.id),
            sent_exactly(
                N as int,
                w,
                sent.0,
                sent.1,
                Seq::new(
                    lines.len(),
                    |i: int| chunks_of(lines[i] + seq![10u8], self.max()),
                ).flatten(),
                sent.2,
                sent.3,
                seq![10u8],
                before,
                after,
                match r {
                    Err(StreamError::Encrypt(e)) => Err(e),
                    _ => Ok(()),
                },
            ),
    {
        law_line_chunks_each(lines, self.max());
        let chunks = line_chunks(lines, self.max());
        let (s0, s1) = choose|s0: SessionSpec, s1: SessionSpec| #[trigger]
            self.opens(gks, s0) && #[trigger] self.sends(
                s0,
                s1,
                chunks,
                seq![LF],
                before,
                after,
                chunk_result(r),
            );
        let (nonces, texts) = self.law_sends_exactly(
            w,
            s0,
            s1,
            chunks,
            seq![LF],
            before,
            after,
            chunk_result(r),
        );
        (s0, s1, nonces, texts)
    }

    /// Encrypting a text stream sends, for each of its lines, the line with a line
    /// feed, cut into chunks, under a new session; a line feed follows every
    /// record. A line is taken without its terminator and with nothing else taken
    /// off, and what stands behind the last terminator is a line too. A stream of
    /// UTF-8 never fails for not being that.
    pub proof fn law_stream_sends(
        &self,
        w: WriterModel<E>,
        gks: Seq<u8>,
        lines: Seq<Seq<u8>>,
        end: Seq<u8>,
        last: Seq<u8>,
        before: Seq<u8>,
        after: Seq<u8>,
        r: Result<(), StreamError<E>>,
    ) -> (sent: (SessionSpec, SessionSpec, Seq<Seq<u8>>, Seq<Seq<u8>>))
        requires
            self.described_by(w),
            ends_lines(lines, end),
            forall|i: int| 0 <= i < lines.len() ==> valid_utf8(#[trigger] lines[i]),
            !last.contains(10u8),
            valid_utf8(last),
            self.encrypts_stream(gks, joined(lines, end) + last, before, after, r),
            !(r matches Err(StreamError::Session(_))),
        ensures
            !(r matches Err(StreamError::NotUtf8)),
            (w.derive)(gks, sent.0.id) == Ok::<Seq<u8>, E>(sent.0.key),
            sent.0.seq == 0,
            sent.0.id.len() == 16,
            drawn::<SESSION_ID_LEN>(sent.0.id),
            ({
                let all = if last.len() == 0 {
                    lines
                } else {
                    lines.push(last)
                };
                sent_exactly(
                    N as int,
                    w,
                    sent.0,
                    sent.1,
                    Seq::new(
                        all.len(),
                        |i: int| chunks_of(all[i] + seq![10u8], self.max()),
                    ).flatten(),
                    sent.2,
                    sent.3,
                    seq![10u8],
                    before,
                    after,
                    match r {
                        Err(StreamError::Encrypt(e)) => Err(e),
                        _ => Ok(()),
                    },
                )
            }),
    {
        let input = joined(lines, end) + last;
        law_lines_read(lines, end, last);
        if last.len() == 0 {
            assert(last =~= Seq::empty());
            assert(readable(last));
            assert(readable_lines(last) =~= Seq::empty());
            assert(readable_lines(input) =~= lines);
            self.lemma_stream_sends(w, gks, lines, input, before, after, r)
        } else {
            law_last_line(last);
            assert(readable_lines(input) =~= lines.push(last));
            self.lemma_stream_sends(w, gks, lines.push(last), input, before, after, r)
        }
    }

    /// Of a stream with a line that is not UTF-8, the lines before it are sent, and
    /// encrypting fails for it or for an earlier chunk.
    pub proof fn law_stream_sends_until(
        &self,
        w: WriterModel<E>,
        gks: Seq<u8>,
        lines: Seq<Seq<u8>>,
        end: Seq<u8>,
        bad: Seq<u8>,
        bad_end: Seq<u8>,
        rest: Seq<u8>,
        before: Seq<u8>,
        after: Seq<u8>,
        r: Result<(), StreamError<E>>,
    ) -> (sent: (SessionSpec, SessionSpec, Seq<Seq<u8>>, Seq<Seq<u8>>))
        requires
            self.described_by(w),
            ends_lines(lines, end),
            forall|i: int| 0 <= i < lines.len() ==> valid_utf8(#[trigger] lines[i]),
            ends_line(bad, bad_end, rest),
            !valid_utf8(bad),
            self.encrypts_stream(
                gks,
                joined(lines, end) + (bad + bad_end + rest),
                before,
                after,
                r,
            ),
            !(r matches Err(StreamError::Session(_))),
        ensures
            r is Err,
            (w.derive)(gks, sent.0.id) == Ok::<Seq<u8>, E>(sent.0.key),
            sent.0.seq == 0,
            sent_exactly(
                N as int,
                w,
                sent.0,
                sent.1,
                Seq::new(
                    lines.len(),
                    |i: int| chunks_of(lines[i] + seq![10u8], self.max()),
                ).flatten(),
                sent.2,
                sent.3,
                seq![10u8],
                before,
                after,
                match r {
                    Err(StreamError::Encrypt(e)) => Err(e),
                    _ => Ok(()),
                },
            ),
    {
        let input = joined(lines, end) + (bad + bad_end + rest);
        law_lines_read(lines, end, bad + bad_end + rest);
        law_unreadable_line(bad, bad_end, rest);
        assert(readable_lines(input) =~= lines);
        self.lemma_stream_sends(w, gks, lines, input, before, after, r)
    }

    /// A session that does not open leaves the output as it was, and its error is
    /// that of the draw, or of the key derivation for a drawn identifier.
    pub proof fn law_session_fails(
        &self,
        w: WriterModel<E>,
        gks: Seq<u8>,
        input: Seq<u8>,
        before: Seq<u8>,
        after: Seq<u8>,
        e: SessionError<E>,
    )
        requires
            self.described_by(w),
            self.encrypts_stream(gks, input, before, after, Err(StreamError::Session(e))),
        ensures
            after == before,
            match e {
                SessionError::SessionId(why) => draw_fails::<SESSION_ID_LEN>(why),
                SessionError::DeriveKey(why) => exists|id: Seq<u8>| #[trigger]
                    drawn::<SESSION_ID_LEN>(id) && (w.derive)(gks, id) == Err::<Seq<u8>, E>(why),
            },
    {
        if let SessionError::DeriveKey(why) = e {
            let id = choose|id: Seq<u8>| #[trigger]
                drawn::<SESSION_ID_LEN>(id) && self.derives(gks, id, Err(why));
            assert(drawn::<SESSION_ID_LEN>(id) && (w.derive)(gks, id) == Err::<Seq<u8>, E>(why));
        }
    }
}

} // verus!
