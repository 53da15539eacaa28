//! The two directions of a bridge between a terminal and a serial pipe, and the
//! waiting for the pipe.
//!
//! Each direction is a loop over reads; an empty read is the end of the stream.

use crate::encrypt::{chunks_of, EncryptError, EncryptSession, SessionError, SessionSpec};
use crate::encrypt_stream::lemma_chunk_count;
use crate::record::{GksKeyMaterial, Record, RecordWriter, AES_KEY_LEN, SESSION_ID_LEN};
use std::marker::PhantomData;
use vstd::prelude::*;

verus! {

/// The bytes of each of a sequence of reads.
pub open spec fn read_bytes(reads: Seq<Vec<u8>>) -> Seq<Seq<u8>> {
    Seq::new(reads.len(), |i: int| reads[i]@)
}

/// The reads before the first empty one.
pub open spec fn until_eof(reads: Seq<Seq<u8>>) -> Seq<Seq<u8>>
    decreases reads.len(),
{
    if reads.len() == 0 || reads[0].len() == 0 {
        Seq::empty()
    } else {
        seq![reads[0]] + until_eof(reads.drop_first())
    }
}

/// All reads but the first.
proof fn lemma_read_bytes_next(reads: Seq<Vec<u8>>, i: int)
    requires
        0 <= i < reads.len(),
    ensures
        read_bytes(reads).skip(i)[0] == reads[i]@,
        read_bytes(reads).skip(i).drop_first() == read_bytes(reads).skip(i + 1),
{
    assert(read_bytes(reads).skip(i).drop_first() =~= read_bytes(reads).skip(i + 1));
}

/// One more read and what follows.
proof fn lemma_until_eof_next(reads: Seq<Seq<u8>>)
    requires
        reads.len() > 0,
        reads[0].len() > 0,
    ensures
        until_eof(reads).drop_first() == until_eof(reads.drop_first()),
        until_eof(reads).flatten() == reads[0] + until_eof(reads.drop_first()).flatten(),
{
    assert(until_eof(reads).drop_first() =~= until_eof(reads.drop_first()));
}

/// The chunks of a sequence of reads: each read cut into pieces of `max` bytes.
pub open spec fn read_chunks(reads: Seq<Seq<u8>>, max: int) -> Seq<Seq<u8>>
    decreases reads.len(),
{
    if reads.len() == 0 {
        Seq::empty()
    } else {
        chunks_of(reads[0], max) + read_chunks(reads.drop_first(), max)
    }
}

/// The encrypting direction: a session, and the bytes read so far.
pub struct EncryptLoop {
    session: EncryptSession,
    total_in: u64,
}

/// What was read and sent when the encrypting direction ended.
#[derive(Debug, Clone, Copy, PartialEq, Eq, Structural)]
pub struct EncryptTotals {
    pub bytes_in: u64,
    pub records: u64,
}

/// Why the encrypting direction ended early.
pub enum EncryptLoopError<E> {
    /// The session could not be opened.
    Session(SessionError<E>),
    /// A chunk could not be encrypted.
    Encrypt(EncryptError<E>),
}

/// The part of `r` that is about chunks.
pub open spec fn loop_result<E>(r: Result<EncryptTotals, EncryptLoopError<E>>) -> Result<
    (),
    EncryptError<E>,
> {
    match r {
        Err(EncryptLoopError::Encrypt(e)) => Err(e),
        _ => Ok(()),
    }
}

impl EncryptLoop {
    /// The session as it stands.
    pub closed spec fn session(&self) -> SessionSpec {
        self.session@
    }

    /// The bytes read so far.
    pub closed spec fn bytes_in(&self) -> int {
        self.total_in as int
    }

    /// A record holds at least one byte.
    pub closed spec fn wf(&self) -> bool {
        self.session@.seq <= self.total_in
    }

    /// Opens a session for the encrypting direction.
    pub fn open<const N: usize, E, K, S, T>(
        gks: &GksKeyMaterial,
        records: &RecordWriter<N, K, S, T>,
    ) -> (r: Result<EncryptLoop, SessionError<E>>) where
        K: Fn(&GksKeyMaterial, &[u8; SESSION_ID_LEN]) -> Result<[u8; AES_KEY_LEN], E>,
        S: Fn(&[u8; AES_KEY_LEN], &[u8; SESSION_ID_LEN], u64, &[u8; N], &[u8]) -> Result<
            (Vec<u8>, Vec<u8>),
            E,
        >,
        T: Fn(&Record<N>) -> Vec<u8>,

        requires
            records.wf(),
        ensures
            match r {
                Ok(l) => l.wf() && records.opens(gks@, l.session()) && l.bytes_in() == 0,
                Err(e) => records.fails_to_open(gks@, e),
            },
    {
        match records.open_session(gks) {
            Ok(session) => Ok(EncryptLoop { session, total_in: 0 }),
            Err(e) => Err(e),
        }
    }

    /// Encrypts what one read returned, with nothing between the records, and
    /// returns whether the stream has ended.
    pub fn on_read<const N: usize, E, K, S, T>(
        &mut self,
        data: &[u8],
        records: &RecordWriter<N, K, S, T>,
        out: &mut Vec<u8>,
    ) -> (r: Result<bool, EncryptError<E>>) where
        K: Fn(&GksKeyMaterial, &[u8; SESSION_ID_LEN]) -> Result<[u8; AES_KEY_LEN], E>,
        S: Fn(&[u8; AES_KEY_LEN], &[u8; SESSION_ID_LEN], u64, &[u8; N], &[u8]) -> Result<
            (Vec<u8>, Vec<u8>),
            E,
        >,
        T: Fn(&Record<N>) -> Vec<u8>,

        requires
            records.wf(),
            old(self).wf(),
            old(self).bytes_in() + data@.len() <= u64::MAX,
        ensures
            final(self).wf(),
            final(self).bytes_in() == old(self).bytes_in() + data@.len(),
            r matches Ok(ended) ==> ended == (data@.len() == 0),
            records.sends(
                old(self).session(),
                final(self).session(),
                chunks_of(data@, records.max()),
                Seq::empty(),
                old(out)@,
                final(out)@,
                match r {
                    Ok(_) => Ok(()),
                    Err(e) => Err(e),
                },
            ),
    {
        if data.len() == 0 {
            proof {
                records.lemma_sends_nothing(self.session@, Seq::empty(), out@);
            }
            return Ok(true);
        }
        self.total_in = self.total_in + data.len() as u64;
        let terminator: [u8; 0] = [];
        assert(terminator@ =~= Seq::empty());
        proof {
            lemma_chunk_count(data@, records.max());
        }
        let r = records.encrypt_chunks(&mut self.session, data, &terminator, out);
        match r {
            Ok(()) => {
                assert(r->Ok_0 == ());
                Ok(false)
            },
            Err(e) => Err(e),
        }
    }

    /// The identifier of the session.
    pub fn session_id(&self) -> (id: &[u8; SESSION_ID_LEN])
        ensures
            id@ == self.session().id,
    {
        self.session.session_id()
    }

    /// The totals so far.
    pub fn totals(&self) -> (t: EncryptTotals)
        ensures
            t.bytes_in == self.bytes_in(),
            t.records == self.session().seq,
    {
        EncryptTotals { bytes_in: self.total_in, records: self.session.records() }
    }
}

impl<const N: usize, E, K, S, T> RecordWriter<N, K, S, T> where
    K: Fn(&GksKeyMaterial, &[u8; SESSION_ID_LEN]) -> Result<[u8; AES_KEY_LEN], E>,
    S: Fn(&[u8; AES_KEY_LEN], &[u8; SESSION_ID_LEN], u64, &[u8; N], &[u8]) -> Result<
        (Vec<u8>, Vec<u8>),
        E,
    >,
    T: Fn(&Record<N>) -> Vec<u8>,
 {
    /// Encrypting `reads` until they end takes the output from `before` to
    /// `after` and ends with `r`: a session is opened, and every read is sent
    /// with nothing between the records.
    pub open spec fn encrypts_reads(
        &self,
        gks: Seq<u8>,
        reads: Seq<Seq<u8>>,
        before: Seq<u8>,
        after: Seq<u8>,
        r: Result<EncryptTotals, EncryptLoopError<E>>,
    ) -> bool {
        &&& match r {
            Err(EncryptLoopError::Session(e)) => after == before && self.fails_to_open(gks, e),
            _ => exists|s0: SessionSpec, s1: SessionSpec| #[trigger]
                self.opens(gks, s0) && #[trigger] self.sends(
                    s0,
                    s1,
                    read_chunks(until_eof(reads), self.max()),
                    Seq::empty(),
                    before,
                    after,
                    loop_result(r),
                ),
        }
        &&& r matches Ok(t) ==> {
            &&& t.bytes_in == until_eof(reads).flatten().len()
            &&& t.records == read_chunks(until_eof(reads), self.max()).len()
        }
    }
}

/// The encrypting direction as a whole: opens a session and encrypts each read
/// until the stream ends.
pub fn encrypt_loop<const N: usize, E, K, S, T>(
    gks: &GksKeyMaterial,
    reads: &[Vec<u8>],
    writer: &mut Vec<u8>,
    records: &RecordWriter<N, K, S, T>,
) -> (r: Result<EncryptTotals, EncryptLoopError<E>>) where
    K: Fn(&GksKeyMaterial, &[u8; SESSION_ID_LEN]) -> Result<[u8; AES_KEY_LEN], E>,
    S: Fn(&[u8; AES_KEY_LEN], &[u8; SESSION_ID_LEN], u64, &[u8; N], &[u8]) -> Result<
        (Vec<u8>, Vec<u8>),
        E,
    >,
    T: Fn(&Record<N>) -> Vec<u8>,

    requires
        records.wf(),
        until_eof(read_bytes(reads@)).flatten().len() <= u64::MAX,
    ensures
        records.encrypts_reads(gks@, read_bytes(reads@), old(writer)@, final(writer)@, r),
{
    match EncryptLoop::open(gks, records) {
        Err(e) => Err(EncryptLoopError::Session(e)),
        Ok(state) => {
            let mut state = state;
            let ghost s0 = state.session();
            let ghost out0 = writer@;
            let ghost bytes = read_bytes(reads@);
            let ghost all = read_chunks(until_eof(bytes), records.max());
            let ghost mut done: Seq<Seq<u8>> = Seq::empty();
            let ghost mut left = until_eof(bytes);
            let mut ended = false;
            let mut i: usize = 0;
            proof {
                records.lemma_sends_nothing(s0, Seq::empty(), out0);
                assert(bytes.skip(0) =~= bytes);
                assert(done + all =~= all);
            }
            while !ended && i < reads.len()
                invariant
                    records.wf(),
                    i <= reads@.len(),
                    records.opens(gks@, s0),
                    out0 == old(writer)@,
                    state.wf(),
                    bytes == read_bytes(reads@),
                    until_eof(bytes).flatten().len() <= u64::MAX,
                    left == if ended {
                        Seq::empty()
                    } else {
                        until_eof(bytes.skip(i as int))
                    },
                    state.bytes_in() + left.flatten().len() == until_eof(bytes).flatten().len(),
                    all == read_chunks(until_eof(bytes), records.max()),
                    all == done + read_chunks(left, records.max()),
                    state.session().seq == done.len(),
                    records.sends(s0, state.session(), done, Seq::empty(), out0, writer@, Ok(())),
                decreases reads@.len() - i,
            {
                let ghost rest = bytes.skip(i as int);
                let ghost s1 = state.session();
                let ghost out1 = writer@;
                let ghost now = chunks_of(reads@[i as int]@, records.max());
                let ghost later = read_chunks(until_eof(bytes.skip(i + 1)), records.max());
                proof {
                    lemma_read_bytes_next(reads@, i as int);
                    if rest[0].len() > 0 {
                        lemma_until_eof_next(rest);
                        assert(read_chunks(until_eof(rest), records.max()) == now + later);
                    }
                }
                let r = state.on_read(reads[i].as_slice(), records, writer);
                match r {
                    Err(e) => {
                        proof {
                            records.lemma_sends_then(
                                s0,
                                s1,
                                state.session(),
                                done,
                                now,
                                Seq::empty(),
                                out0,
                                out1,
                                writer@,
                                Err(e),
                            );
                            records.lemma_sends_fails(
                                s0,
                                state.session(),
                                done + now,
                                later,
                                Seq::empty(),
                                out0,
                                writer@,
                                e,
                            );
                            assert(all =~= done + now + later);
                        }
                        return Err(EncryptLoopError::Encrypt(e));
                    },
                    Ok(end) => {
                        ended = end;
                        proof {
                            records.lemma_sends_then(
                                s0,
                                s1,
                                state.session(),
                                done,
                                now,
                                Seq::empty(),
                                out0,
                                out1,
                                writer@,
                                Ok(()),
                            );
                            done = done + now;
                            if !ended {
                                left = until_eof(bytes.skip(i + 1));
                            }
                            assert(all =~= done + read_chunks(left, records.max()));
                        }
                    },
                }
                i += 1;
            }
            proof {
                assert(done =~= all);
            }
            Ok(state.totals())
        },
    }
}

/// An incremental scanner for records as mathematics. `S` is its state, `E` the
/// error with which it gives up.
#[verifier::reject_recursive_types(S)]
pub struct ScannerModel<S, E> {
    /// The state with more bytes to scan.
    pub extend: spec_fn(S, Seq<u8>) -> S,
    /// The state after scanning, or the error, and the plaintext that came out
    /// before. The flag says that no more bytes will follow.
    pub drain: spec_fn(S, Seq<u8>, bool) -> (Result<S, E>, Seq<u8>),
}

/// The functions of an incremental scanner for records.
pub struct Scanner<S, X, D> {
    pub extend: X,
    pub drain: D,
    pub state: PhantomData<S>,
}

/// What became of one read of the decrypting direction.
pub enum ScanStep<S> {
    /// The stream goes on.
    More(S),
    /// The stream has ended.
    End(S),
}

impl<S> ScanStep<S> {
    /// The state of the scanner after the read.
    pub open spec fn state(self) -> S {
        match self {
            ScanStep::More(state) => state,
            ScanStep::End(state) => state,
        }
    }
}

/// What was read and written when the decrypting direction ended.
#[derive(Debug, Clone, Copy, PartialEq, Eq, Structural)]
pub struct DecryptTotals {
    pub bytes_in: u64,
    pub bytes_out: u64,
}

impl<S, E> ScannerModel<S, E> {
    /// What scanning one read gives: an empty one is the end, and draws out what
    /// the scanner still holds back.
    pub open spec fn scan(self, state: S, gks: Seq<u8>, read: Seq<u8>) -> (Result<S, E>, Seq<u8>) {
        if read.len() == 0 {
            (self.drain)(state, gks, true)
        } else {
            (self.drain)((self.extend)(state, read), gks, false)
        }
    }

    /// What the decrypting direction writes for a sequence of reads, and the
    /// error with which it ends, if any. A sequence without an empty read ends
    /// where it ends.
    pub open spec fn run(self, state: S, gks: Seq<u8>, reads: Seq<Seq<u8>>) -> (
        Seq<u8>,
        Option<E>,
    )
        decreases reads.len(),
    {
        if reads.len() == 0 || reads[0].len() == 0 {
            let (end, plaintext) = self.scan(state, gks, Seq::empty());
            (plaintext, end.err())
        } else {
            let (next, plaintext) = self.scan(state, gks, reads[0]);
            match next {
                Err(e) => (plaintext, Some(e)),
                Ok(next) => {
                    let rest = self.run(next, gks, reads.drop_first());
                    (plaintext + rest.0, rest.1)
                },
            }
        }
    }
}

impl<S, E, X, D> Scanner<S, X, D> where
    X: Fn(S, &[u8]) -> S,
    D: Fn(S, &GksKeyMaterial, bool) -> (Result<S, E>, Vec<u8>),
 {
    /// Both functions may be called on everything.
    pub open spec fn wf(&self) -> bool {
        &&& forall|state: S, read: &[u8]| #[trigger] self.extend.requires((state, read))
        &&& forall|state: S, gks: &GksKeyMaterial, at_eof: bool| #[trigger]
            self.drain.requires((state, gks, at_eof))
    }

    /// `m` says what each of the functions returns.
    pub open spec fn described_by(&self, m: ScannerModel<S, E>) -> bool {
        &&& forall|state: S, read: &[u8], r: S| #[trigger]
            self.extend.ensures((state, read), r) ==> r == (m.extend)(state, read@)
        &&& forall|state: S, gks: &GksKeyMaterial, at_eof: bool, r: (Result<S, E>, Vec<u8>)|
         #[trigger]
            self.drain.ensures((state, gks, at_eof), r) ==> (r.0, r.1@) == (m.drain)(
                state,
                gks@,
                at_eof,
            )
    }

    /// Scanning `reads` until they end, from the state `start` on, takes the
    /// output from `before` to `after` and ends with `r`.
    pub open spec fn decrypts_reads(
        &self,
        start: S,
        gks: Seq<u8>,
        reads: Seq<Seq<u8>>,
        before: Seq<u8>,
        after: Seq<u8>,
        r: Result<DecryptTotals, E>,
    ) -> bool {
        &&& forall|m: ScannerModel<S, E>| #[trigger]
            self.described_by(m) ==> {
                let ran = m.run(start, gks, reads);
                &&& after == before + ran.0
                &&& r.err() == ran.1
            }
        &&& r matches Ok(t) ==> {
            &&& t.bytes_in == until_eof(reads).flatten().len()
            &&& t.bytes_out == after.len() - before.len()
        }
    }

    /// Scans what one read returned and appends the plaintext that came out,
    /// also where the scan failed after that.
    pub fn on_read(
        &self,
        gks: &GksKeyMaterial,
        state: S,
        read: &[u8],
        out: &mut Vec<u8>,
    ) -> (r: Result<ScanStep<S>, E>)
        requires
            self.wf(),
        ensures
            old(out)@.is_prefix_of(final(out)@),
            r matches Ok(step) ==> (step is End <==> read@.len() == 0),
            forall|m: ScannerModel<S, E>| #[trigger]
                self.described_by(m) ==> {
                    let (next, plaintext) = m.scan(state, gks@, read@);
                    &&& final(out)@ == old(out)@ + plaintext
                    &&& match next {
                        Err(e) => r == Err::<ScanStep<S>, E>(e),
                        Ok(next) => r is Ok && r->Ok_0.state() == next,
                    }
                },
            forall|m: ScannerModel<S, E>| #[trigger]
                self.described_by(m) ==> {
                    let (next, plaintext) = if read@.len() > 0 {
                        (m.drain)((m.extend)(state, read@), gks@, false)
                    } else {
                        (m.drain)(state, gks@, true)
                    };
                    &&& final(out)@ == old(out)@ + plaintext
                    &&& r matches Ok(step) ==> next == Ok::<S, E>(step.state())
                    &&& r matches Err(e) ==> next == Err::<S, E>(e)
                },
    {
        let ended = read.len() == 0;
        let extended = if ended {
            state
        } else {
            (self.extend)(state, read)
        };
        let (next, plaintext) = (self.drain)(extended, gks, ended);
        out.extend_from_slice(plaintext.as_slice());
        assert(out@ =~= old(out)@ + plaintext@);
        match next {
            Err(e) => Err(e),
            Ok(next) => {
                if ended {
                    Ok(ScanStep::End(next))
                } else {
                    Ok(ScanStep::More(next))
                }
            },
        }
    }
}

/// The decrypting direction as a whole: scans every read until the stream ends
/// and writes the plaintext that comes out.
pub fn decrypt_loop<S, E, X, D>(
    gks: &GksKeyMaterial,
    reads: &[Vec<u8>],
    writer: &mut Vec<u8>,
    start: S,
    scanner: &Scanner<S, X, D>,
) -> (r: Result<DecryptTotals, E>) where
    X: Fn(S, &[u8]) -> S,
    D: Fn(S, &GksKeyMaterial, bool) -> (Result<S, E>, Vec<u8>),

    requires
        scanner.wf(),
        until_eof(read_bytes(reads@)).flatten().len() <= u64::MAX,
    ensures
        scanner.decrypts_reads(start, gks@, read_bytes(reads@), old(writer)@, final(writer)@, r),
{
    let ghost out0 = writer@;
    let ghost bytes = read_bytes(reads@);
    let before = writer.len();
    let mut state = start;
    let mut total_in: u64 = 0;
    let mut i: usize = 0;
    assert(bytes.skip(0) =~= bytes);
    while i < reads.len() && reads[i].len() > 0
        invariant
            scanner.wf(),
            i <= reads@.len(),
            out0 == old(writer)@,
            before == out0.len(),
            before <= writer@.len(),
            bytes == read_bytes(reads@),
            until_eof(bytes).flatten().len() <= u64::MAX,
            total_in + until_eof(bytes.skip(i as int)).flatten().len() == until_eof(
                bytes,
            ).flatten().len(),
            forall|m: ScannerModel<S, E>| #[trigger]
                scanner.described_by(m) ==> {
                    let whole = m.run(start, gks@, bytes);
                    let rest = m.run(state, gks@, bytes.skip(i as int));
                    &&& out0 + whole.0 == writer@ + rest.0
                    &&& whole.1 == rest.1
                },
        decreases reads@.len() - i,
    {
        let ghost rest = bytes.skip(i as int);
        proof {
            lemma_read_bytes_next(reads@, i as int);
            lemma_until_eof_next(rest);
        }
        total_in = total_in + reads[i].len() as u64;
        match scanner.on_read(gks, state, reads[i].as_slice(), writer) {
            Err(e) => {
                assert(writer@ + Seq::<u8>::empty() =~= writer@);
                return Err(e);
            },
            Ok(ScanStep::More(next)) => {
                state = next;
            },
            Ok(ScanStep::End(next)) => {
                state = next;
            },
        }
        i += 1;
    }
    proof {
        if i < reads@.len() {
            lemma_read_bytes_next(reads@, i as int);
        }
        assert(until_eof(bytes.skip(i as int)).flatten().len() == 0);
    }
    let end: [u8; 0] = [];
    assert(end@ =~= Seq::empty());
    match scanner.on_read(gks, state, &end, writer) {
        Err(e) => {
            assert(writer@ + Seq::<u8>::empty() =~= writer@);
            Err(e)
        },
        Ok(_) => Ok(
            DecryptTotals { bytes_in: total_in, bytes_out: (writer.len() - before) as u64 },
        ),
    }
}

/// How often the opening of a pipe has failed, and whether to try again.
#[derive(Debug, Clone, Copy, PartialEq, Eq, Structural)]
pub struct PipeWait {
    pub wait: bool,
    pub tries: u64,
}

/// What is said about a failed try.
#[derive(Debug, Clone, Copy, PartialEq, Eq, Structural)]
pub enum RetryNotice {
    /// The pipe is not there yet: the first failure.
    Waiting,
    /// A reminder that the wait goes on.
    StillWaiting,
    /// A detail that only a debug log shows.
    Retry,
}

/// What to do after a failed try.
#[derive(Debug, Clone, Copy, PartialEq, Eq, Structural)]
pub enum PipeAction {
    /// Give up with the error of the try.
    Fail,
    /// Say so, sleep, and try again.
    Retry { notice: RetryNotice, sleep_ms: u64 },
}

/// Milliseconds between two tries.
pub const RETRY_SLEEP_MS: u64 = 500;

/// Every so many tries a reminder is due.
pub const TRIES_PER_REMINDER: u64 = 20;

/// The wait and the action after a failed try.
pub open spec fn failure_step(w: PipeWait) -> (PipeWait, PipeAction) {
    if !w.wait {
        (w, PipeAction::Fail)
    } else {
        (
            PipeWait { wait: true, tries: (w.tries + 1) as u64 },
            PipeAction::Retry {
                notice: if w.tries == 0 {
                    RetryNotice::Waiting
                } else if w.tries % TRIES_PER_REMINDER == 0 {
                    RetryNotice::StillWaiting
                } else {
                    RetryNotice::Retry
                },
                sleep_ms: RETRY_SLEEP_MS,
            },
        )
    }
}

impl PipeWait {
    /// Before the first try.
    pub fn new(wait: bool) -> (w: PipeWait)
        ensures
            w == (PipeWait { wait, tries: 0 }),
    {
        PipeWait { wait, tries: 0 }
    }

    /// Decides what follows a failed try: the error where no wait was asked for,
    /// and else another try, whatever the error was.
    pub fn on_failure(&mut self) -> (action: PipeAction)
        requires
            old(self).tries < u64::MAX,
        ensures
            (*final(self), action) == failure_step(*old(self)),
            final(self).wait == old(self).wait,
            !old(self).wait ==> action == PipeAction::Fail && *final(self) == *old(self),
            old(self).wait ==> {
                &&& final(self).tries == old(self).tries + 1
                &&& action == PipeAction::Retry {
                    notice: if old(self).tries == 0 {
                        RetryNotice::Waiting
                    } else if old(self).tries % TRIES_PER_REMINDER == 0 {
                        RetryNotice::StillWaiting
                    } else {
                        RetryNotice::Retry
                    },
                    sleep_ms: RETRY_SLEEP_MS,
                }
                &&& action->sleep_ms == 500
                &&& action->notice is Waiting <==> old(self).tries == 0
                &&& action->notice is StillWaiting <==> old(self).tries > 0 && old(self).tries
                    % 20 == 0
            },
    {
        if !self.wait {
            return PipeAction::Fail;
        }
        let notice = if self.tries == 0 {
            RetryNotice::Waiting
        } else if self.tries % TRIES_PER_REMINDER == 0 {
            RetryNotice::StillWaiting
        } else {
            RetryNotice::Retry
        };
        self.tries = self.tries + 1;
        PipeAction::Retry { notice, sleep_ms: RETRY_SLEEP_MS }
    }

    /// Whether a successful try ends a wait, which is then worth saying.
    pub fn announces_success(&self) -> (r: bool)
        ensures
            r == (self.tries > 0),
    {
        self.tries > 0
    }
}

} // verus!
