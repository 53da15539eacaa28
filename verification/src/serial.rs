//! An encrypting serial backend.
//!
//! Console output is collected until a line is complete or a flush is asked
//! for, encrypted, and queued for the transport below. The transport itself is
//! driven from outside: it is handed bytes, and what it answers comes back as a
//! value.

use crate::encrypt::{EncryptError, EncryptSession, SessionError, SessionSpec};
use crate::lines;
use crate::lines::{line_end, LF};
use crate::record::{GksKeyMaterial, Record, RecordWriter, AES_KEY_LEN, SESSION_ID_LEN};
use std::sync::Arc;
use vstd::prelude::*;

verus! {

/// Opens encrypting backends. Holds the guest secret from which the key of each
/// backend's session is derived.
pub struct EncryptedSerialBackendResolver {
    pub gks: Arc<GksKeyMaterial>,
}

/// Encrypts what is written to it and queues the records for a transport.
pub struct EncryptingSerialIo {
    session: EncryptSession,
    plaintext_buf: Vec<u8>,
    output_buf: Vec<u8>,
}

/// What an [`EncryptingSerialIo`] holds.
#[verifier::ext_equal]
pub struct SerialSpec {
    pub session: SessionSpec,
    /// Bytes written but not encrypted yet.
    pub plaintext: Seq<u8>,
    /// Records that the transport has not taken yet.
    pub output: Seq<u8>,
}

impl View for EncryptingSerialIo {
    type V = SerialSpec;

    closed spec fn view(&self) -> SerialSpec {
        SerialSpec {
            session: self.session@,
            plaintext: self.plaintext_buf@,
            output: self.output_buf@,
        }
    }
}

impl SerialSpec {
    /// The backend with more bytes to encrypt.
    pub open spec fn collecting(self, buf: Seq<u8>) -> SerialSpec {
        SerialSpec { plaintext: self.plaintext + buf, ..self }
    }
}

/// Length of the chunk that a flush takes off the front of `buf`, or 0: the
/// first line with its line feed; else, where a partial line is to be flushed
/// too, as much of it as a record holds.
pub open spec fn flush_len(buf: Seq<u8>, max: int, partial: bool) -> int {
    if line_end(buf) < buf.len() {
        line_end(buf) + 1
    } else if !partial {
        0
    } else if buf.len() >= max {
        max
    } else {
        buf.len() as int
    }
}

/// The chunks that a flush takes off the front of `buf`, one by one.
pub open spec fn flush_chunks(buf: Seq<u8>, max: int, partial: bool) -> Seq<Seq<u8>>
    decreases buf.len(),
{
    let n = flush_len(buf, max, partial);
    if 0 < n <= buf.len() {
        seq![buf.take(n)] + flush_chunks(buf.skip(n), max, partial)
    } else {
        Seq::empty()
    }
}

/// What a flush leaves of `buf`.
pub open spec fn flush_rest(buf: Seq<u8>, max: int, partial: bool) -> Seq<u8>
    decreases buf.len(),
{
    let n = flush_len(buf, max, partial);
    if 0 < n <= buf.len() {
        flush_rest(buf.skip(n), max, partial)
    } else {
        buf
    }
}

/// What came of draining the queued output into the transport.
#[derive(Debug, Clone, Copy, PartialEq, Eq, Structural)]
pub enum Drained {
    /// Nothing is queued any more.
    Done,
    /// The transport takes nothing at the moment.
    Pending,
    /// The transport failed.
    Failed,
}

/// What the transport answered to a write.
#[derive(Debug, Clone, Copy, PartialEq, Eq, Structural)]
pub enum WriteOutcome {
    /// It took so many bytes.
    Wrote(usize),
    /// It takes nothing at the moment.
    Pending,
    /// It failed.
    Failed,
}

/// What draining does next.
#[derive(Debug, Clone, Copy, PartialEq, Eq, Structural)]
pub enum DrainAction {
    /// Hand the queued output to the transport.
    Write,
    /// Draining is over.
    Stop(Drained),
}

/// What became of a write to the backend.
pub enum WriteAction<E> {
    /// Nothing was taken, as the queued output could not be drained.
    Stop(Drained),
    /// All `taken` bytes were taken. Where `drain` is set, records were queued,
    /// and draining may begin whatever comes of it.
    Taken { taken: usize, drain: bool },
    /// The bytes were taken but could not be encrypted.
    Fail(EncryptError<E>),
}

/// The queued output and the action after one step of draining.
pub open spec fn drain_step(output: Seq<u8>, last: Option<WriteOutcome>) -> (
    Seq<u8>,
    DrainAction,
) {
    match last {
        Some(WriteOutcome::Pending) => (output, DrainAction::Stop(Drained::Pending)),
        Some(WriteOutcome::Failed) => (output, DrainAction::Stop(Drained::Failed)),
        Some(WriteOutcome::Wrote(n)) => (output.skip(n as int), next_drain(output.skip(n as int))),
        None => (output, next_drain(output)),
    }
}

/// What draining does while the transport takes bytes.
pub open spec fn next_drain(output: Seq<u8>) -> DrainAction {
    if output.len() == 0 {
        DrainAction::Stop(Drained::Done)
    } else {
        DrainAction::Write
    }
}

/// What the transport answered to a flush or a close, and what a flush or a
/// close of the backend answers.
#[derive(Debug, Clone, Copy, PartialEq, Eq, Structural)]
pub enum Answer {
    /// It is done.
    Ready,
    /// It is not done yet.
    Pending,
    /// It failed.
    Failed,
}

/// What is learned in the second half of a flush.
#[derive(Debug, Clone, Copy, PartialEq, Eq, Structural)]
pub enum FlushEvent {
    /// The queued output was drained, or not.
    Drained(Drained),
    /// The transport was flushed and answered.
    Flushed(Answer),
}

/// What the second half of a flush does next.
#[derive(Debug, Clone, Copy, PartialEq, Eq, Structural)]
pub enum FlushAction {
    /// Flush the transport.
    FlushTransport,
    /// The flush is over.
    Return(Answer),
}

/// What is learned in a close.
#[derive(Debug, Clone, Copy, PartialEq, Eq, Structural)]
pub enum CloseEvent {
    /// The backend was flushed and answered.
    Flushed(Answer),
    /// The transport was closed and answered.
    Closed(Answer),
}

/// What a close does next.
#[derive(Debug, Clone, Copy, PartialEq, Eq, Structural)]
pub enum CloseAction {
    /// Close the transport.
    CloseTransport,
    /// The close is over.
    Return(Answer),
}

/// What the second half of a flush does after an event.
pub open spec fn flush_step_spec(event: FlushEvent) -> FlushAction {
    match event {
        FlushEvent::Drained(Drained::Done) => FlushAction::FlushTransport,
        FlushEvent::Drained(Drained::Pending) => FlushAction::Return(Answer::Pending),
        FlushEvent::Drained(Drained::Failed) => FlushAction::Return(Answer::Failed),
        FlushEvent::Flushed(answer) => FlushAction::Return(answer),
    }
}

/// Decides what follows in the second half of a flush: the transport is flushed
/// exactly where nothing is queued any more.
pub fn flush_step(event: FlushEvent) -> (action: FlushAction)
    ensures
        action == flush_step_spec(event),
{
    match event {
        FlushEvent::Drained(Drained::Done) => FlushAction::FlushTransport,
        FlushEvent::Drained(Drained::Pending) => FlushAction::Return(Answer::Pending),
        FlushEvent::Drained(Drained::Failed) => FlushAction::Return(Answer::Failed),
        FlushEvent::Flushed(answer) => FlushAction::Return(answer),
    }
}

/// What a close does after an event.
pub open spec fn close_step_spec(event: CloseEvent) -> CloseAction {
    match event {
        CloseEvent::Flushed(Answer::Ready) => CloseAction::CloseTransport,
        CloseEvent::Flushed(answer) => CloseAction::Return(answer),
        CloseEvent::Closed(answer) => CloseAction::Return(answer),
    }
}

/// Decides what follows in a close: the transport is closed exactly where the
/// backend was flushed.
pub fn close_step(event: CloseEvent) -> (action: CloseAction)
    ensures
        action == close_step_spec(event),
{
    match event {
        CloseEvent::Flushed(Answer::Ready) => CloseAction::CloseTransport,
        CloseEvent::Flushed(answer) => CloseAction::Return(answer),
        CloseEvent::Closed(answer) => CloseAction::Return(answer),
    }
}

impl EncryptingSerialIo {
    /// A backend that holds nothing yet.
    pub fn new(aes_key: [u8; AES_KEY_LEN], session_id: [u8; SESSION_ID_LEN]) -> (io: Self)
        ensures
            io@ == (SerialSpec {
                session: SessionSpec { key: aes_key@, id: session_id@, seq: 0 },
                plaintext: Seq::empty(),
                output: Seq::empty(),
            }),
    {
        EncryptingSerialIo {
            session: EncryptSession::new(aes_key, session_id),
            plaintext_buf: Vec::new(),
            output_buf: Vec::new(),
        }
    }

    /// Encrypts one chunk and queues the record, with a line feed behind it.
    pub fn encrypt_and_enqueue<const N: usize, E, K, S, T>(
        &mut self,
        plaintext: &[u8],
        records: &RecordWriter<N, K, S, T>,
    ) -> (r: Result<(), EncryptError<E>>) where
        K: Fn(&GksKeyMaterial, &[u8; SESSION_ID_LEN]) -> Result<[u8; AES_KEY_LEN], E>,
        S: Fn(&[u8; AES_KEY_LEN], &[u8; SESSION_ID_LEN], u64, &[u8; N], &[u8]) -> Result<
            (Vec<u8>, Vec<u8>),
            E,
        >,
        T: Fn(&Record<N>) -> Vec<u8>,

        requires
            records.wf(),
            old(self)@.session.seq < u64::MAX,
        ensures
            final(self)@.plaintext == old(self)@.plaintext,
            records.sends(
                old(self)@.session,
                final(self)@.session,
                seq![plaintext@],
                seq![LF],
                old(self)@.output,
                final(self)@.output,
                r,
            ),
    {
        let terminator: [u8; 1] = [LF];
        assert(terminator@ =~= seq![LF]);
        records.encrypt_chunk(&mut self.session, plaintext, &terminator, &mut self.output_buf)
    }

    /// Encrypts and queues what is collected: every complete line and, where
    /// `flush_partial` is set, what remains, in pieces that a record holds.
    ///
    /// A chunk that cannot be encrypted is lost, and what follows it stays.
    pub fn flush_plaintext_to_output_inner<const N: usize, E, K, S, T>(
        &mut self,
        flush_partial: bool,
        records: &RecordWriter<N, K, S, T>,
    ) -> (r: Result<(), EncryptError<E>>) where
        K: Fn(&GksKeyMaterial, &[u8; SESSION_ID_LEN]) -> Result<[u8; AES_KEY_LEN], E>,
        S: Fn(&[u8; AES_KEY_LEN], &[u8; SESSION_ID_LEN], u64, &[u8; N], &[u8]) -> Result<
            (Vec<u8>, Vec<u8>),
            E,
        >,
        T: Fn(&Record<N>) -> Vec<u8>,

        requires
            records.wf(),
            old(self)@.session.seq + old(self)@.plaintext.len() <= u64::MAX,
        ensures
            records.flushes(old(self)@, final(self)@, flush_partial, r),
    {
        let ghost io0 = self@;
        let ghost max = records.max();
        let ghost all = flush_chunks(io0.plaintext, max, flush_partial);
        let ghost mut done: Seq<Seq<u8>> = Seq::empty();
        proof {
            records.lemma_sends_nothing(io0.session, seq![LF], io0.output);
            assert(done + all =~= all);
            assert(done.flatten() + io0.plaintext =~= io0.plaintext);
        }
        loop
            invariant
                records.wf(),
                io0 == old(self)@,
                max == records.max(),
                io0.session.seq + io0.plaintext.len() <= u64::MAX,
                all == flush_chunks(io0.plaintext, max, flush_partial),
                all == done + flush_chunks(self@.plaintext, max, flush_partial),
                flush_rest(io0.plaintext, max, flush_partial) == flush_rest(
                    self@.plaintext,
                    max,
                    flush_partial,
                ),
                io0.plaintext == done.flatten() + self@.plaintext,
                done.len() <= done.flatten().len(),
                self@.session.seq - io0.session.seq == done.len(),
                records.sends(
                    io0.session,
                    self@.session,
                    done,
                    seq![LF],
                    io0.output,
                    self@.output,
                    Ok(()),
                ),
            decreases self@.plaintext.len(),
        {
            let ghost io1 = self@;
            let len = self.plaintext_buf.len();
            let end = lines::find_line_end(self.plaintext_buf.as_slice(), 0);
            assert(self.plaintext_buf@.skip(0) =~= self.plaintext_buf@);
            let n = if end < len {
                end + 1
            } else if !flush_partial {
                0
            } else if len >= records.max_plaintext {
                records.max_plaintext
            } else {
                len
            };
            assert(n == flush_len(io1.plaintext, max, flush_partial));
            if n == 0 {
                proof {
                    assert(done =~= all);
                    assert(all.take(all.len() as int) =~= all);
                }
                return Ok(());
            }
            let mut chunk = self.plaintext_buf.split_off(n);
            std::mem::swap(&mut chunk, &mut self.plaintext_buf);
            let ghost tail = self.plaintext_buf@;
            proof {
                assert(chunk@ =~= io1.plaintext.take(n as int));
                assert(tail =~= io1.plaintext.skip(n as int));
                assert(all =~= done.push(chunk@) + flush_chunks(tail, max, flush_partial));
                done.lemma_flatten_push(chunk@);
                assert(io0.plaintext =~= done.push(chunk@).flatten() + tail);
            }
            let r = self.encrypt_and_enqueue(chunk.as_slice(), records);
            proof {
                records.lemma_sends_then(
                    io0.session,
                    io1.session,
                    self@.session,
                    done,
                    seq![chunk@],
                    seq![LF],
                    io0.output,
                    io1.output,
                    self@.output,
                    r,
                );
                assert(done + seq![chunk@] =~= done.push(chunk@));
            }
            match r {
                Err(e) => {
                    proof {
                        records.lemma_sends_fails(
                            io0.session,
                            self@.session,
                            done.push(chunk@),
                            flush_chunks(tail, max, flush_partial),
                            seq![LF],
                            io0.output,
                            self@.output,
                            e,
                        );
                        assert(all.take(done.len() as int + 1) =~= done.push(chunk@));
                    }
                    return Err(e);
                },
                Ok(()) => {
                    assert(r->Ok_0 == ());
                    proof {
                        done = done.push(chunk@);
                    }
                },
            }
        }
    }

    /// Encrypts and queues complete lines. What follows the last line feed stays,
    /// however long it is, until it is complete or flushed.
    pub fn flush_plaintext_to_output<const N: usize, E, K, S, T>(
        &mut self,
        records: &RecordWriter<N, K, S, T>,
    ) -> (r: Result<(), EncryptError<E>>) where
        K: Fn(&GksKeyMaterial, &[u8; SESSION_ID_LEN]) -> Result<[u8; AES_KEY_LEN], E>,
        S: Fn(&[u8; AES_KEY_LEN], &[u8; SESSION_ID_LEN], u64, &[u8; N], &[u8]) -> Result<
            (Vec<u8>, Vec<u8>),
            E,
        >,
        T: Fn(&Record<N>) -> Vec<u8>,

        requires
            records.wf(),
            old(self)@.session.seq + old(self)@.plaintext.len() <= u64::MAX,
        ensures
            records.flushes(old(self)@, final(self)@, false, r),
    {
        self.flush_plaintext_to_output_inner(false, records)
    }

    /// Encrypts and queues everything, a partial line at the end too.
    pub fn flush_all_plaintext_to_output<const N: usize, E, K, S, T>(
        &mut self,
        records: &RecordWriter<N, K, S, T>,
    ) -> (r: Result<(), EncryptError<E>>) where
        K: Fn(&GksKeyMaterial, &[u8; SESSION_ID_LEN]) -> Result<[u8; AES_KEY_LEN], E>,
        S: Fn(&[u8; AES_KEY_LEN], &[u8; SESSION_ID_LEN], u64, &[u8; N], &[u8]) -> Result<
            (Vec<u8>, Vec<u8>),
            E,
        >,
        T: Fn(&Record<N>) -> Vec<u8>,

        requires
            records.wf(),
            old(self)@.session.seq + old(self)@.plaintext.len() <= u64::MAX,
        ensures
            records.flushes(old(self)@, final(self)@, true, r),
    {
        self.flush_plaintext_to_output_inner(true, records)
    }

    /// One step of draining: takes note of what the transport answered to the
    /// last write, if there was one, and decides what follows.
    pub fn poll_drain_output(&mut self, last: Option<WriteOutcome>) -> (action: DrainAction)
        requires
            last matches Some(WriteOutcome::Wrote(n)) ==> n <= old(self)@.output.len(),
        ensures
            final(self)@ == (SerialSpec {
                output: match last {
                    Some(WriteOutcome::Wrote(n)) => old(self)@.output.skip(n as int),
                    _ => old(self)@.output,
                },
                ..old(self)@
            }),
            (final(self)@.output, action) == drain_step(old(self)@.output, last),
            action == match last {
                Some(WriteOutcome::Pending) => DrainAction::Stop(Drained::Pending),
                Some(WriteOutcome::Failed) => DrainAction::Stop(Drained::Failed),
                _ => if final(self)@.output.len() == 0 {
                    DrainAction::Stop(Drained::Done)
                } else {
                    DrainAction::Write
                },
            },
    {
        match last {
            Some(WriteOutcome::Pending) => {
                return DrainAction::Stop(Drained::Pending);
            },
            Some(WriteOutcome::Failed) => {
                return DrainAction::Stop(Drained::Failed);
            },
            Some(WriteOutcome::Wrote(n)) => {
                let rest = self.output_buf.split_off(n);
                self.output_buf = rest;
                assert(self.output_buf@ =~= old(self)@.output.skip(n as int));
            },
            None => {},
        }
        if self.output_buf.len() == 0 {
            DrainAction::Stop(Drained::Done)
        } else {
            DrainAction::Write
        }
    }

    /// A write to the backend, after its queued output was drained: where that
    /// succeeded, all bytes are taken, and complete lines are encrypted and
    /// queued.
    pub fn poll_write<const N: usize, E, K, S, T>(
        &mut self,
        drained: Drained,
        buf: &[u8],
        records: &RecordWriter<N, K, S, T>,
    ) -> (action: WriteAction<E>) where
        K: Fn(&GksKeyMaterial, &[u8; SESSION_ID_LEN]) -> Result<[u8; AES_KEY_LEN], E>,
        S: Fn(&[u8; AES_KEY_LEN], &[u8; SESSION_ID_LEN], u64, &[u8; N], &[u8]) -> Result<
            (Vec<u8>, Vec<u8>),
            E,
        >,
        T: Fn(&Record<N>) -> Vec<u8>,

        requires
            records.wf(),
            old(self)@.session.seq + old(self)@.plaintext.len() + buf@.len() <= u64::MAX,
        ensures
            drained != Drained::Done ==> {
                &&& action == WriteAction::<E>::Stop(drained)
                &&& final(self)@ == old(self)@
            },
            drained == Drained::Done ==> match action {
                WriteAction::Stop(_) => false,
                WriteAction::Taken { taken, drain } => {
                    &&& taken == buf@.len()
                    &&& drain == old(self)@.collecting(buf@).plaintext.contains(LF)
                    &&& records.writes(old(self)@, buf@, final(self)@, Ok(()))
                },
                WriteAction::Fail(e) => records.writes(old(self)@, buf@, final(self)@, Err(e)),
            },
            drained == Drained::Done && !(old(self)@.plaintext + buf@).contains(10u8) ==> {
                &&& action == WriteAction::<E>::Taken { taken: buf.len(), drain: false }
                &&& final(self)@.plaintext == old(self)@.plaintext + buf@
                &&& final(self)@.output == old(self)@.output
                &&& final(self)@.session == old(self)@.session
            },
    {
        match drained {
            Drained::Pending => {
                return WriteAction::Stop(Drained::Pending);
            },
            Drained::Failed => {
                return WriteAction::Stop(Drained::Failed);
            },
            Drained::Done => {},
        }
        self.plaintext_buf.extend_from_slice(buf);
        let ghost collected = self@;
        assert(collected =~= old(self)@.collecting(buf@));
        let at = lines::find_line_end(self.plaintext_buf.as_slice(), 0);
        proof {
            assert(collected.plaintext.skip(0) =~= collected.plaintext);
            lines::lemma_line_end(collected.plaintext);
        }
        if at == self.plaintext_buf.len() {
            assert(!collected.plaintext.contains(LF));
            return WriteAction::Taken { taken: buf.len(), drain: false };
        }
        assert(collected.plaintext[at as int] == LF);
        let r = self.flush_plaintext_to_output(records);
        match r {
            Ok(()) => {
                assert(r->Ok_0 == ());
                WriteAction::Taken { taken: buf.len(), drain: true }
            },
            Err(e) => WriteAction::Fail(e),
        }
    }

    /// The first half of a flush: encrypts and queues everything. The second
    /// half drains the queue and goes on by [`flush_step`].
    pub fn poll_flush<const N: usize, E, K, S, T>(&mut self, records: &RecordWriter<N, K, S, T>) -> (r:
        Result<(), EncryptError<E>>) where
        K: Fn(&GksKeyMaterial, &[u8; SESSION_ID_LEN]) -> Result<[u8; AES_KEY_LEN], E>,
        S: Fn(&[u8; AES_KEY_LEN], &[u8; SESSION_ID_LEN], u64, &[u8; N], &[u8]) -> Result<
            (Vec<u8>, Vec<u8>),
            E,
        >,
        T: Fn(&Record<N>) -> Vec<u8>,

        requires
            records.wf(),
            old(self)@.session.seq + old(self)@.plaintext.len() <= u64::MAX,
        ensures
            records.flushes(old(self)@, final(self)@, true, r),
    {
        self.flush_all_plaintext_to_output(records)
    }

    /// The records that the transport has not taken yet.
    pub fn output(&self) -> (out: &[u8])
        ensures
            out@ == self@.output,
    {
        self.output_buf.as_slice()
    }

    /// The number of records encrypted so far.
    pub fn seq(&self) -> (n: u64)
        ensures
            n == self@.session.seq,
    {
        self.session.records()
    }

    /// The number of bytes written but not encrypted yet.
    pub fn plaintext_pending(&self) -> (n: usize)
        ensures
            n == self@.plaintext.len(),
    {
        self.plaintext_buf.len()
    }

    /// The number of bytes that the transport has not taken yet.
    pub fn output_pending(&self) -> (n: usize)
        ensures
            n == self@.output.len(),
    {
        self.output_buf.len()
    }
}

impl EncryptedSerialBackendResolver {
    /// Opens a backend with a session of its own.
    pub fn resolve<const N: usize, E, K, S, T>(&self, records: &RecordWriter<N, K, S, T>) -> (r:
        Result<EncryptingSerialIo, SessionError<E>>) where
        K: Fn(&GksKeyMaterial, &[u8; SESSION_ID_LEN]) -> Result<[u8; AES_KEY_LEN], E>,
        S: Fn(&[u8; AES_KEY_LEN], &[u8; SESSION_ID_LEN], u64, &[u8; N], &[u8]) -> Result<
            (Vec<u8>, Vec<u8>),
            E,
        >,
        T: Fn(&Record<N>) -> Vec<u8>,

        requires
            records.wf(),
        ensures
            match r {
                Ok(io) => {
                    &&& records.opens(self.gks@, io@.session)
                    &&& io@.plaintext.len() == 0
                    &&& io@.output.len() == 0
                },
                Err(e) => records.fails_to_open(self.gks@, e),
            },
    {
        match records.open_session(&*self.gks) {
            Ok(session) => Ok(
                EncryptingSerialIo {
                    session,
                    plaintext_buf: Vec::new(),
                    output_buf: Vec::new(),
                },
            ),
            Err(e) => Err(e),
        }
    }
}

impl<const N: usize, E, K, S, T> RecordWriter<N, K, S, T> where
    K: Fn(&GksKeyMaterial, &[u8; SESSION_ID_LEN]) -> Result<[u8; AES_KEY_LEN], E>,
    S: Fn(&[u8; AES_KEY_LEN], &[u8; SESSION_ID_LEN], u64, &[u8; N], &[u8]) -> Result<
        (Vec<u8>, Vec<u8>),
        E,
    >,
    T: Fn(&Record<N>) -> Vec<u8>,
 {
    /// A flush takes a backend from `io0` to `io1` and ends with `r`: the chunks
    /// are sent in a row, and taken off the collected bytes up to the last that
    /// was tried.
    pub open spec fn flushes(
        &self,
        io0: SerialSpec,
        io1: SerialSpec,
        partial: bool,
        r: Result<(), EncryptError<E>>,
    ) -> bool {
        let chunks = flush_chunks(io0.plaintext, self.max(), partial);
        let sealed = io1.session.seq - io0.session.seq;
        &&& self.sends(io0.session, io1.session, chunks, seq![LF], io0.output, io1.output, r)
        &&& match r {
            Ok(()) => {
                &&& io1.plaintext == flush_rest(io0.plaintext, self.max(), partial)
                &&& io0.plaintext == chunks.flatten() + io1.plaintext
            },
            Err(_) => io0.plaintext == chunks.take(sealed + 1).flatten() + io1.plaintext,
        }
    }

    /// A write of `buf` takes a backend from `io0` to `io1` and ends with `r`:
    /// the bytes are collected, and flushed where a line is complete.
    pub open spec fn writes(
        &self,
        io0: SerialSpec,
        buf: Seq<u8>,
        io1: SerialSpec,
        r: Result<(), EncryptError<E>>,
    ) -> bool {
        let collected = io0.collecting(buf);
        if collected.plaintext.contains(LF) {
            self.flushes(collected, io1, false, r)
        } else {
            r is Ok && io1 == collected
        }
    }
}

} // verus!
