//! The sending side: from plaintext to a stream of records.

use crate::random::{draw_fails, drawn, random_array};
use crate::record::{
    GksKeyMaterial, Record, RecordSpec, RecordWriter, WriterModel, AES_KEY_LEN, SESSION_ID_LEN,
};
use vstd::prelude::*;

verus! {

/// A sending session: its key, its identifier, and the number of records sealed.
pub struct EncryptSession {
    aes_key: [u8; AES_KEY_LEN],
    session_id: [u8; SESSION_ID_LEN],
    seq: u64,
}

/// What an [`EncryptSession`] says.
#[verifier::ext_equal]
pub struct SessionSpec {
    pub key: Seq<u8>,
    pub id: Seq<u8>,
    pub seq: int,
}

impl View for EncryptSession {
    type V = SessionSpec;

    closed spec fn view(&self) -> SessionSpec {
        SessionSpec { key: self.aes_key@, id: self.session_id@, seq: self.seq as int }
    }
}

impl EncryptSession {
    /// A session in which nothing was sealed yet.
    pub fn new(aes_key: [u8; AES_KEY_LEN], session_id: [u8; SESSION_ID_LEN]) -> (s: EncryptSession)
        ensures
            s@ == (SessionSpec { key: aes_key@, id: session_id@, seq: 0 }),
    {
        EncryptSession { aes_key, session_id, seq: 0 }
    }

    /// The number of records sealed so far, which numbers the next one.
    pub fn records(&self) -> (n: u64)
        ensures
            n == self@.seq,
    {
        self.seq
    }

    /// The identifier of the session.
    pub fn session_id(&self) -> (id: &[u8; SESSION_ID_LEN])
        ensures
            id@ == self@.id,
    {
        &self.session_id
    }
}

impl SessionSpec {
    /// The session `n` records later.
    pub open spec fn later(self, n: int) -> SessionSpec {
        SessionSpec { seq: self.seq + n, ..self }
    }
}

/// Why a session could not be opened.
pub enum SessionError<E> {
    /// No session identifier could be drawn.
    SessionId(getrandom::Error),
    /// The key of the session could not be derived.
    DeriveKey(E),
}

/// Why a chunk could not be encrypted.
pub enum EncryptError<E> {
    /// No nonce could be drawn.
    Nonce(getrandom::Error),
    /// The cipher refused the chunk.
    Seal(E),
}

/// `s` cut into pieces of `max` bytes, the last one possibly shorter.
pub open spec fn chunks_of(s: Seq<u8>, max: int) -> Seq<Seq<u8>>
    decreases s.len(),
{
    if s.len() == 0 || max <= 0 {
        Seq::empty()
    } else if s.len() <= max {
        seq![s]
    } else {
        seq![s.take(max)] + chunks_of(s.skip(max), max)
    }
}

impl<E> WriterModel<E> {
    /// The next record of a session.
    pub open spec fn record(
        self,
        session: SessionSpec,
        nonce: Seq<u8>,
        plaintext: Seq<u8>,
    ) -> Result<RecordSpec, E> {
        match (self.seal)(session.key, session.id, session.seq as u64, nonce, plaintext) {
            Err(e) => Err(e),
            Ok((ciphertext, tag)) => Ok(
                RecordSpec {
                    session_id: session.id,
                    seq: session.seq as u64,
                    nonce,
                    ciphertext,
                    tag,
                },
            ),
        }
    }

    /// The framed text of the next record of a session.
    pub open spec fn record_text(
        self,
        session: SessionSpec,
        nonce: Seq<u8>,
        plaintext: Seq<u8>,
    ) -> Result<Seq<u8>, E> {
        match self.record(session, nonce, plaintext) {
            Err(e) => Err(e),
            Ok(record) => Ok((self.encode)(record)),
        }
    }

    /// The first `count` chunks are sealed in a row, each under its nonce.
    pub open spec fn seals(
        self,
        session: SessionSpec,
        nonces: Seq<Seq<u8>>,
        chunks: Seq<Seq<u8>>,
        count: int,
    ) -> bool {
        forall|i: int|
            0 <= i < count ==> self.record_text(
                session.later(i),
                nonces[i],
                #[trigger] chunks[i],
            ) is Ok
    }

    /// The texts of the first `count` chunks, each with `terminator` behind it.
    pub open spec fn texts(
        self,
        session: SessionSpec,
        nonces: Seq<Seq<u8>>,
        chunks: Seq<Seq<u8>>,
        terminator: Seq<u8>,
        count: int,
    ) -> Seq<u8>
        decreases count,
    {
        if count <= 0 {
            Seq::empty()
        } else {
            let last = self.record_text(
                session.later(count - 1),
                nonces[count - 1],
                chunks[count - 1],
            );
            self.texts(session, nonces, chunks, terminator, count - 1) + last->Ok_0 + terminator
        }
    }

    /// Encrypting `chunks` in a row ends so: the first `count` are sealed and
    /// their texts appended to `before`. All of them are, or the next one fails
    /// with the error of `r`.
    pub open spec fn encrypted(
        self,
        session: SessionSpec,
        nonces: Seq<Seq<u8>>,
        chunks: Seq<Seq<u8>>,
        terminator: Seq<u8>,
        count: int,
        before: Seq<u8>,
        after: Seq<u8>,
        r: Result<(), EncryptError<E>>,
    ) -> bool {
        &&& self.seals(session, nonces, chunks, count)
        &&& after == before + self.texts(session, nonces, chunks, terminator, count)
        &&& r matches Err(EncryptError::Seal(e)) ==> self.record_text(
            session.later(count),
            nonces[count],
            chunks[count],
        ) == Err::<Seq<u8>, E>(e)
    }

    /// The texts of chunks sealed in two runs, one after the other.
    proof fn lemma_texts_concat(
        self,
        session: SessionSpec,
        n1: Seq<Seq<u8>>,
        c1: Seq<Seq<u8>>,
        n2: Seq<Seq<u8>>,
        c2: Seq<Seq<u8>>,
        terminator: Seq<u8>,
        count: int,
    )
        requires
            n1.len() == c1.len(),
            0 <= count <= c2.len(),
            count <= n2.len(),
        ensures
            self.texts(session, n1 + n2, c1 + c2, terminator, c1.len() + count) == self.texts(
                session,
                n1,
                c1,
                terminator,
                c1.len() as int,
            ) + self.texts(session.later(c1.len() as int), n2, c2, terminator, count),
        decreases count,
    {
        if count == 0 {
            self.lemma_texts_prefix(session, n1, c1, n2, c2, terminator, c1.len() as int);
            assert(self.texts(session.later(c1.len() as int), n2, c2, terminator, 0)
                =~= Seq::empty());
        } else {
            self.lemma_texts_concat(session, n1, c1, n2, c2, terminator, count - 1);
            let k = c1.len() + count - 1;
            assert((n1 + n2)[k] == n2[count - 1]);
            assert((c1 + c2)[k] == c2[count - 1]);
            assert(session.later(c1.len() as int).later(count - 1) == session.later(k));
        }
    }

    /// The texts of the first chunks do not depend on those behind them.
    proof fn lemma_texts_prefix(
        self,
        session: SessionSpec,
        n1: Seq<Seq<u8>>,
        c1: Seq<Seq<u8>>,
        n2: Seq<Seq<u8>>,
        c2: Seq<Seq<u8>>,
        terminator: Seq<u8>,
        count: int,
    )
        requires
            count <= n1.len(),
            count <= c1.len(),
        ensures
            self.texts(session, n1 + n2, c1 + c2, terminator, count) == self.texts(
                session,
                n1,
                c1,
                terminator,
                count,
            ),
        decreases count,
    {
        if count > 0 {
            self.lemma_texts_prefix(session, n1, c1, n2, c2, terminator, count - 1);
            assert((n1 + n2)[count - 1] == n1[count - 1]);
            assert((c1 + c2)[count - 1] == c1[count - 1]);
        }
    }
}

/// How many chunks are sealed and how many nonces are drawn where encrypting
/// `chunks` in a row ends with `r`: a chunk takes one nonce, and so does one that
/// the cipher refuses.
pub open spec fn counts_fit<E>(
    nonces: Seq<Seq<u8>>,
    chunks: Seq<Seq<u8>>,
    count: int,
    r: Result<(), EncryptError<E>>,
) -> bool {
    match r {
        Ok(()) => count == chunks.len() && nonces.len() == count,
        Err(EncryptError::Nonce(_)) => 0 <= count < chunks.len() && nonces.len() == count,
        Err(EncryptError::Seal(_)) => 0 <= count < chunks.len() && nonces.len() == count + 1,
    }
}

impl<const N: usize, E, K, S, T> RecordWriter<N, K, S, T> where
    K: Fn(&GksKeyMaterial, &[u8; SESSION_ID_LEN]) -> Result<[u8; AES_KEY_LEN], E>,
    S: Fn(&[u8; AES_KEY_LEN], &[u8; SESSION_ID_LEN], u64, &[u8; N], &[u8]) -> Result<
        (Vec<u8>, Vec<u8>),
        E,
    >,
    T: Fn(&Record<N>) -> Vec<u8>,
 {
    /// Encrypting `chunks` in a row under `nonces`, each drawn at random, takes a
    /// session from `s0` to `s1` and the output from `before` to `after`, and
    /// ends with `r`.
    pub open spec fn sends_under(
        &self,
        nonces: Seq<Seq<u8>>,
        s0: SessionSpec,
        s1: SessionSpec,
        chunks: Seq<Seq<u8>>,
        terminator: Seq<u8>,
        before: Seq<u8>,
        after: Seq<u8>,
        r: Result<(), EncryptError<E>>,
    ) -> bool {
        let count = s1.seq - s0.seq;
        &&& s1 == s0.later(count)
        &&& counts_fit(nonces, chunks, count, r)
        &&& forall|i: int|
            0 <= i < nonces.len() ==> (#[trigger] nonces[i]).len() == N && drawn::<N>(nonces[i])
        &&& r matches Err(EncryptError::Nonce(e)) ==> draw_fails::<N>(e)
        &&& forall|m: WriterModel<E>| #[trigger]
            self.described_by(m) ==> m.encrypted(
                s0,
                nonces,
                chunks,
                terminator,
                count,
                before,
                after,
                r,
            )
    }

    /// As [`Self::sends_under`], under some nonces.
    pub open spec fn sends(
        &self,
        s0: SessionSpec,
        s1: SessionSpec,
        chunks: Seq<Seq<u8>>,
        terminator: Seq<u8>,
        before: Seq<u8>,
        after: Seq<u8>,
        r: Result<(), EncryptError<E>>,
    ) -> bool {
        exists|nonces: Seq<Seq<u8>>| #[trigger]
            self.sends_under(nonces, s0, s1, chunks, terminator, before, after, r)
    }

    /// Sending nothing.
    pub proof fn lemma_sends_nothing(&self, s: SessionSpec, terminator: Seq<u8>, out: Seq<u8>)
        ensures
            self.sends(s, s, Seq::empty(), terminator, out, out, Ok(())),
    {
        assert(s =~= s.later(0));
        assert(out =~= out + Seq::<u8>::empty());
        assert(self.sends_under(
            Seq::empty(),
            s,
            s,
            Seq::empty(),
            terminator,
            out,
            out,
            Ok(()),
        ));
    }

    /// Sending one sequence of chunks and then another is sending both in a row.
    pub proof fn lemma_sends_then(
        &self,
        s0: SessionSpec,
        s1: SessionSpec,
        s2: SessionSpec,
        c1: Seq<Seq<u8>>,
        c2: Seq<Seq<u8>>,
        terminator: Seq<u8>,
        before: Seq<u8>,
        mid: Seq<u8>,
        after: Seq<u8>,
        r: Result<(), EncryptError<E>>,
    )
        requires
            self.sends(s0, s1, c1, terminator, before, mid, Ok(())),
            self.sends(s1, s2, c2, terminator, mid, after, r),
        ensures
            self.sends(s0, s2, c1 + c2, terminator, before, after, r),
    {
        let n1 = choose|n: Seq<Seq<u8>>| #[trigger]
            self.sends_under(n, s0, s1, c1, terminator, before, mid, Ok(()));
        let n2 = choose|n: Seq<Seq<u8>>| #[trigger]
            self.sends_under(n, s1, s2, c2, terminator, mid, after, r);
        let count = s2.seq - s1.seq;
        assert(s2 =~= s0.later(c1.len() + count));
        assert forall|i: int| 0 <= i < (n1 + n2).len() implies (#[trigger] (n1 + n2)[i]).len()
            == N && drawn::<N>((n1 + n2)[i]) by {
            if i < n1.len() {
                assert((n1 + n2)[i] == n1[i]);
            } else {
                assert((n1 + n2)[i] == n2[i - n1.len()]);
            }
        }
        assert forall|m: WriterModel<E>| #[trigger] self.described_by(m) implies m.encrypted(
            s0,
            n1 + n2,
            c1 + c2,
            terminator,
            c1.len() + count,
            before,
            after,
            r,
        ) by {
            m.lemma_texts_concat(s0, n1, c1, n2, c2, terminator, count);
            assert forall|i: int| 0 <= i < c1.len() + count implies m.record_text(
                s0.later(i),
                (n1 + n2)[i],
                #[trigger] (c1 + c2)[i],
            ) is Ok by {
                if i < c1.len() {
                    assert((n1 + n2)[i] == n1[i] && (c1 + c2)[i] == c1[i]);
                } else {
                    let j = i - c1.len();
                    assert((n1 + n2)[i] == n2[j] && (c1 + c2)[i] == c2[j]);
                    assert(s1.later(j) =~= s0.later(i));
                }
            }
            if r matches Err(EncryptError::Seal(e)) {
                assert((n1 + n2)[c1.len() + count] == n2[count]);
                assert((c1 + c2)[c1.len() + count] == c2[count]);
                assert(s1.later(count) =~= s0.later(c1.len() + count));
            }
            assert(after =~= before + m.texts(
                s0,
                n1 + n2,
                c1 + c2,
                terminator,
                c1.len() + count,
            ));
        }
        assert(self.sends_under(n1 + n2, s0, s2, c1 + c2, terminator, before, after, r));
    }

    /// A failure is the same whatever was to follow.
    pub proof fn lemma_sends_fails(
        &self,
        s0: SessionSpec,
        s1: SessionSpec,
        c1: Seq<Seq<u8>>,
        c2: Seq<Seq<u8>>,
        terminator: Seq<u8>,
        before: Seq<u8>,
        after: Seq<u8>,
        e: EncryptError<E>,
    )
        requires
            self.sends(s0, s1, c1, terminator, before, after, Err(e)),
        ensures
            self.sends(s0, s1, c1 + c2, terminator, before, after, Err(e)),
    {
        let r: Result<(), EncryptError<E>> = Err(e);
        let n = choose|n: Seq<Seq<u8>>| #[trigger]
            self.sends_under(n, s0, s1, c1, terminator, before, after, r);
        let count = s1.seq - s0.seq;
        assert forall|m: WriterModel<E>| #[trigger] self.described_by(m) implies m.encrypted(
            s0,
            n,
            c1 + c2,
            terminator,
            count,
            before,
            after,
            r,
        ) by {
            m.lemma_texts_prefix(s0, n, c1, Seq::empty(), c2, terminator, count);
            assert(n + Seq::<Seq<u8>>::empty() =~= n);
            assert forall|i: int| 0 <= i < count implies m.record_text(
                s0.later(i),
                n[i],
                #[trigger] (c1 + c2)[i],
            ) is Ok by {
                assert((c1 + c2)[i] == c1[i]);
            }
            assert((c1 + c2)[count] == c1[count]);
        }
        assert(self.sends_under(n, s0, s1, c1 + c2, terminator, before, after, r));
    }

    /// The key derivation that this writer holds gives `key` for a session.
    pub open spec fn derives(&self, gks: Seq<u8>, id: Seq<u8>, key: Result<Seq<u8>, E>) -> bool {
        forall|m: WriterModel<E>| #[trigger] self.described_by(m) ==> (m.derive)(gks, id) == key
    }

    /// `session` is a new session of this writer under `gks`, with an identifier
    /// drawn at random.
    pub open spec fn opens(&self, gks: Seq<u8>, session: SessionSpec) -> bool {
        &&& self.derives(gks, session.id, Ok(session.key))
        &&& drawn::<SESSION_ID_LEN>(session.id)
        &&& session.id.len() == SESSION_ID_LEN
        &&& session.seq == 0
    }

    /// A session of this writer under `gks` may fail to open with `e`.
    pub open spec fn fails_to_open(&self, gks: Seq<u8>, e: SessionError<E>) -> bool {
        match e {
            SessionError::SessionId(e) => draw_fails::<SESSION_ID_LEN>(e),
            SessionError::DeriveKey(e) => exists|id: Seq<u8>| #[trigger]
                drawn::<SESSION_ID_LEN>(id) && self.derives(gks, id, Err(e)),
        }
    }

    /// Opens a session under a given identifier.
    pub fn session(&self, gks: &GksKeyMaterial, session_id: [u8; SESSION_ID_LEN]) -> (r: Result<
        EncryptSession,
        E,
    >)
        requires
            self.wf(),
        ensures
            match r {
                Ok(session) => {
                    &&& self.derives(gks@, session_id@, Ok(session@.key))
                    &&& session@.id == session_id@
                    &&& session@.seq == 0
                },
                Err(e) => self.derives(gks@, session_id@, Err(e)),
            },
    {
        match (self.derive)(gks, &session_id) {
            Ok(aes_key) => Ok(EncryptSession::new(aes_key, session_id)),
            Err(e) => Err(e),
        }
    }

    /// Opens a session under a random identifier.
    pub fn open_session(&self, gks: &GksKeyMaterial) -> (r: Result<EncryptSession, SessionError<E>>)
        requires
            self.wf(),
        ensures
            match r {
                Ok(session) => self.opens(gks@, session@),
                Err(e) => self.fails_to_open(gks@, e),
            },
    {
        match random_array::<SESSION_ID_LEN>() {
            Err(e) => Err(SessionError::SessionId(e)),
            Ok(session_id) => {
                assert(session_id@.len() == SESSION_ID_LEN);
                match self.session(gks, session_id) {
                    Ok(session) => Ok(session),
                    Err(e) => Err(SessionError::DeriveKey(e)),
                }
            },
        }
    }

    /// Seals the next record of a session under a given nonce and returns its
    /// framed text.
    pub fn seal_record(
        &self,
        session: &mut EncryptSession,
        nonce: [u8; N],
        plaintext: &[u8],
    ) -> (r: Result<Vec<u8>, E>)
        requires
            self.wf(),
            old(session)@.seq < u64::MAX,
        ensures
            final(session)@ == old(session)@.later(
                if r is Ok {
                    1
                } else {
                    0
                },
            ),
            forall|m: WriterModel<E>| #[trigger]
                self.described_by(m) ==> text_or_error(r) == m.record_text(
                    old(session)@,
                    nonce@,
                    plaintext@,
                ),
    {
        match (self.seal)(&session.aes_key, &session.session_id, session.seq, &nonce, plaintext) {
            Err(e) => Err(e),
            Ok((ciphertext, tag)) => {
                let record = Record {
                    session_id: session.session_id,
                    seq: session.seq,
                    nonce,
                    ciphertext,
                    tag,
                };
                session.seq = session.seq + 1;
                Ok((self.encode)(&record))
            },
        }
    }

    /// Encrypts one chunk under a random nonce and appends its framed text and
    /// `terminator`.
    pub fn encrypt_chunk(
        &self,
        session: &mut EncryptSession,
        plaintext: &[u8],
        terminator: &[u8],
        out: &mut Vec<u8>,
    ) -> (r: Result<(), EncryptError<E>>)
        requires
            self.wf(),
            old(session)@.seq < u64::MAX,
        ensures
            self.sends(
                old(session)@,
                final(session)@,
                seq![plaintext@],
                terminator@,
                old(out)@,
                final(out)@,
                r,
            ),
    {
        let ghost s0 = session@;
        let ghost before = out@;
        let ghost chunks = seq![plaintext@];
        match random_array::<N>() {
            Err(e) => {
                proof {
                    assert(s0 =~= s0.later(0));
                    assert(before =~= before + Seq::<u8>::empty());
                    assert(self.sends_under(
                        Seq::empty(),
                        s0,
                        s0,
                        chunks,
                        terminator@,
                        before,
                        before,
                        Err(EncryptError::Nonce(e)),
                    ));
                }
                Err(EncryptError::Nonce(e))
            },
            Ok(nonce) => {
                let ghost nonces = seq![nonce@];
                assert(nonce@.len() == N);
                assert(s0 =~= s0.later(0));
                match self.seal_record(session, nonce, plaintext) {
                    Err(e) => {
                        proof {
                            assert(before =~= before + Seq::<u8>::empty());
                            assert(self.sends_under(
                                nonces,
                                s0,
                                s0,
                                chunks,
                                terminator@,
                                before,
                                before,
                                Err(EncryptError::Seal(e)),
                            ));
                        }
                        Err(EncryptError::Seal(e))
                    },
                    Ok(text) => {
                        out.extend_from_slice(text.as_slice());
                        out.extend_from_slice(terminator);
                        proof {
                            assert forall|m: WriterModel<E>| #[trigger]
                                self.described_by(m) implies m.encrypted(
                                s0,
                                nonces,
                                chunks,
                                terminator@,
                                1,
                                before,
                                out@,
                                Ok(()),
                            ) by {
                                assert(m.texts(s0, nonces, chunks, terminator@, 0) =~= Seq::empty());
                                assert(out@ =~= before + m.texts(
                                    s0,
                                    nonces,
                                    chunks,
                                    terminator@,
                                    1,
                                ));
                            }
                            assert(self.sends_under(
                                nonces,
                                s0,
                                session@,
                                chunks,
                                terminator@,
                                before,
                                out@,
                                Ok(()),
                            ));
                        }
                        Ok(())
                    },
                }
            },
        }
    }
}

/// The view of a framed text.
pub open spec fn text_or_error<E>(r: Result<Vec<u8>, E>) -> Result<Seq<u8>, E> {
    match r {
        Ok(text) => Ok(text@),
        Err(e) => Err(e),
    }
}

} // verus!
