//! Encrypted records and the functions that frame and encrypt them.
//!
//! A record carries one chunk of console output: the session that produced it,
//! its sequence number, the nonce, and the ciphertext with its tag. How a
//! record looks on the wire and which cipher protects it is not decided here:
//! [`RecordReader`] and [`RecordWriter`] hold the functions that find, parse,
//! decrypt, encrypt and encode, and [`ReaderModel`] and [`WriterModel`] are
//! their mathematical counterparts, over which every contract is stated.

use vstd::prelude::*;

verus! {

/// Length of a session identifier in bytes.
pub const SESSION_ID_LEN: usize = 16;

/// Length of an AES-256 key in bytes.
pub const AES_KEY_LEN: usize = 32;

/// Length of the guest secret in bytes.
pub const GKS_LEN: usize = 2048;

/// The guest secret from which the key of every session is derived.
pub struct GksKeyMaterial(pub [u8; GKS_LEN]);

impl View for GksKeyMaterial {
    type V = Seq<u8>;

    open spec fn view(&self) -> Seq<u8> {
        self.0@
    }
}

/// One encrypted chunk. `N` is the length of the cipher's nonce.
#[derive(Debug, Clone, PartialEq, Eq)]
pub struct Record<const N: usize> {
    pub session_id: [u8; SESSION_ID_LEN],
    pub seq: u64,
    pub nonce: [u8; N],
    pub ciphertext: Vec<u8>,
    pub tag: Vec<u8>,
}

/// What a [`Record`] says, as sequences of bytes.
#[verifier::ext_equal]
pub struct RecordSpec {
    pub session_id: Seq<u8>,
    pub seq: u64,
    pub nonce: Seq<u8>,
    pub ciphertext: Seq<u8>,
    pub tag: Seq<u8>,
}

impl<const N: usize> View for Record<N> {
    type V = RecordSpec;

    open spec fn view(&self) -> RecordSpec {
        RecordSpec {
            session_id: self.session_id@,
            seq: self.seq,
            nonce: self.nonce@,
            ciphertext: self.ciphertext@,
            tag: self.tag@,
        }
    }
}

/// Result of searching a line for the next framed record.
#[derive(Debug, Clone, PartialEq, Eq)]
pub enum SentinelMatch {
    /// A framed record occupies `start..end`; `payload` is what it frames.
    Found { start: usize, end: usize, payload: Vec<u8> },
    /// Something that begins like a record at `start` but is none.
    Malformed { start: usize },
    /// No record in the rest of the line.
    NotFound,
}

/// What a [`SentinelMatch`] says.
pub enum MatchSpec {
    Found { start: int, end: int, payload: Seq<u8> },
    Malformed { start: int },
    NotFound,
}

impl View for SentinelMatch {
    type V = MatchSpec;

    open spec fn view(&self) -> MatchSpec {
        match self {
            SentinelMatch::Found { start, end, payload } => MatchSpec::Found {
                start: *start as int,
                end: *end as int,
                payload: payload@,
            },
            SentinelMatch::Malformed { start } => MatchSpec::Malformed { start: *start as int },
            SentinelMatch::NotFound => MatchSpec::NotFound,
        }
    }
}

impl MatchSpec {
    /// A search from `from` in a line of `len` bytes may return this match:
    /// it lies in the line and carries the search forward.
    pub open spec fn usable(self, from: int, len: int) -> bool {
        match self {
            MatchSpec::Found { start, end, .. } => start <= len && from < end,
            MatchSpec::Malformed { start } => from <= start < usize::MAX,
            MatchSpec::NotFound => true,
        }
    }
}

/// The bytes of a result that are either output or the text of an error.
pub open spec fn bytes_or_text(r: Result<Vec<u8>, Vec<u8>>) -> Result<Seq<u8>, Seq<u8>> {
    match r {
        Ok(bytes) => Ok(bytes@),
        Err(text) => Err(text@),
    }
}

/// The view of a parse result.
pub open spec fn record_or_text<const N: usize>(r: Result<Record<N>, Vec<u8>>) -> Result<
    RecordSpec,
    Seq<u8>,
> {
    match r {
        Ok(record) => Ok(record@),
        Err(text) => Err(text@),
    }
}

/// The functions of the receiving side as mathematics.
pub struct ReaderModel {
    /// The next framed record in a line, from a position on.
    pub find: spec_fn(Seq<u8>, int) -> MatchSpec,
    /// The record that a payload holds, or why it holds none.
    pub parse: spec_fn(Seq<u8>) -> Result<RecordSpec, Seq<u8>>,
    /// The key of a session, from the guest secret and the session identifier.
    pub derive: spec_fn(Seq<u8>, Seq<u8>) -> Seq<u8>,
    /// The plaintext of a record under a key, or why it does not decrypt.
    pub open: spec_fn(Seq<u8>, RecordSpec) -> Result<Seq<u8>, Seq<u8>>,
}

/// The functions of the receiving side.
///
/// - `find` searches a line from a position on for the next framed record.
/// - `parse` turns the payload of a framed record into the record.
/// - `derive` gives the key of a session.
/// - `open` authenticates and decrypts a record under a key.
///
/// The two that can fail give the text of the error, which goes into the
/// decrypted stream.
pub struct RecordReader<F, P, K, O> {
    pub find: F,
    pub parse: P,
    pub derive: K,
    pub open: O,
}

impl<const N: usize, F, P, K, O> RecordReader<F, P, K, O> where
    F: Fn(&[u8], usize) -> SentinelMatch,
    P: Fn(&[u8]) -> Result<Record<N>, Vec<u8>>,
    K: Fn(&GksKeyMaterial, &[u8; SESSION_ID_LEN]) -> [u8; AES_KEY_LEN],
    O: Fn(&[u8; AES_KEY_LEN], &Record<N>) -> Result<Vec<u8>, Vec<u8>>,
 {
    /// Every function may be called on everything, and a search returns only
    /// usable matches.
    pub open spec fn wf(&self) -> bool {
        &&& forall|line: &[u8], from: usize| #[trigger] self.find.requires((line, from))
        &&& forall|line: &[u8], from: usize, m: SentinelMatch|
            from < line@.len() && #[trigger] self.find.ensures((line, from), m) ==> m@.usable(
                from as int,
                line@.len() as int,
            )
        &&& forall|payload: &[u8]| #[trigger] self.parse.requires((payload,))
        &&& forall|gks: &GksKeyMaterial, id: &[u8; SESSION_ID_LEN]| #[trigger]
            self.derive.requires((gks, id))
        &&& forall|key: &[u8; AES_KEY_LEN], record: &Record<N>| #[trigger]
            self.open.requires((key, record))
    }

    /// `m` says what each of the functions returns.
    pub open spec fn described_by(&self, m: ReaderModel) -> bool {
        &&& forall|line: &[u8], from: usize, r: SentinelMatch| #[trigger]
            self.find.ensures((line, from), r) ==> r@ == (m.find)(line@, from as int)
        &&& forall|payload: &[u8], r: Result<Record<N>, Vec<u8>>| #[trigger]
            self.parse.ensures((payload,), r) ==> record_or_text(r) == (m.parse)(payload@)
        &&& forall|gks: &GksKeyMaterial, id: &[u8; SESSION_ID_LEN], r: [u8; AES_KEY_LEN]|
         #[trigger]
            self.derive.ensures((gks, id), r) ==> r@ == (m.derive)(gks@, id@)
        &&& forall|key: &[u8; AES_KEY_LEN], record: &Record<N>, r: Result<Vec<u8>, Vec<u8>>|
         #[trigger]
            self.open.ensures((key, record), r) ==> bytes_or_text(r) == (m.open)(key@, record@)
    }
}

/// The functions of the sending side as mathematics. `E` is their error.
pub struct WriterModel<E> {
    /// The key of a session, from the guest secret and the session identifier.
    pub derive: spec_fn(Seq<u8>, Seq<u8>) -> Result<Seq<u8>, E>,
    /// Ciphertext and tag, from key, session, sequence number, nonce, plaintext.
    pub seal: spec_fn(Seq<u8>, Seq<u8>, u64, Seq<u8>, Seq<u8>) -> Result<(Seq<u8>, Seq<u8>), E>,
    /// The framed text of a record.
    pub encode: spec_fn(RecordSpec) -> Seq<u8>,
}

/// The functions of the sending side, and the most bytes of plaintext that one
/// record holds.
///
/// - `derive` gives the key of a session.
/// - `seal` encrypts a plaintext under a key, a session, a sequence number and
///   a nonce into ciphertext and tag.
/// - `encode` frames a record as text.
pub struct RecordWriter<const N: usize, K, S, T> {
    pub max_plaintext: usize,
    pub derive: K,
    pub seal: S,
    pub encode: T,
}

/// The view of a key derivation.
pub open spec fn key_or_error<E>(r: Result<[u8; AES_KEY_LEN], E>) -> Result<Seq<u8>, E> {
    match r {
        Ok(key) => Ok(key@),
        Err(e) => Err(e),
    }
}

/// The view of an encryption.
pub open spec fn sealed_or_error<E>(r: Result<(Vec<u8>, Vec<u8>), E>) -> Result<
    (Seq<u8>, Seq<u8>),
    E,
> {
    match r {
        Ok((ciphertext, tag)) => Ok((ciphertext@, tag@)),
        Err(e) => Err(e),
    }
}

impl<const N: usize, E, K, S, T> RecordWriter<N, K, S, T> where
    K: Fn(&GksKeyMaterial, &[u8; SESSION_ID_LEN]) -> Result<[u8; AES_KEY_LEN], E>,
    S: Fn(&[u8; AES_KEY_LEN], &[u8; SESSION_ID_LEN], u64, &[u8; N], &[u8]) -> Result<
        (Vec<u8>, Vec<u8>),
        E,
    >,
    T: Fn(&Record<N>) -> Vec<u8>,
 {
    /// The most bytes of plaintext that one record holds.
    pub open spec fn max(&self) -> int {
        self.max_plaintext as int
    }

    /// A record holds something, and every function may be called on
    /// everything.
    pub open spec fn wf(&self) -> bool {
        &&& self.max_plaintext > 0
        &&& forall|gks: &GksKeyMaterial, id: &[u8; SESSION_ID_LEN]| #[trigger]
            self.derive.requires((gks, id))
        &&& forall|
            key: &[u8; AES_KEY_LEN],
            id: &[u8; SESSION_ID_LEN],
            seq: u64,
            nonce: &[u8; N],
            plaintext: &[u8],
        | #[trigger]
            self.seal.requires((key, id, seq, nonce, plaintext))
        &&& forall|record: &Record<N>| #[trigger] self.encode.requires((record,))
    }

    /// `m` says what each of the functions returns.
    pub open spec fn described_by(&self, m: WriterModel<E>) -> bool {
        &&& forall|
            gks: &GksKeyMaterial,
            id: &[u8; SESSION_ID_LEN],
            r: Result<[u8; AES_KEY_LEN], E>,
        | #[trigger]
            self.derive.ensures((gks, id), r) ==> key_or_error(r) == (m.derive)(gks@, id@)
        &&& forall|
            key: &[u8; AES_KEY_LEN],
            id: &[u8; SESSION_ID_LEN],
            seq: u64,
            nonce: &[u8; N],
            plaintext: &[u8],
            r: Result<(Vec<u8>, Vec<u8>), E>,
        | #[trigger]
            self.seal.ensures((key, id, seq, nonce, plaintext), r) ==> sealed_or_error(r) == (
            m.seal)(key@, id@, seq, nonce@, plaintext@)
        &&& forall|record: &Record<N>, r: Vec<u8>| #[trigger]
            self.encode.ensures((record,), r) ==> r@ == (m.encode)(record@)
    }
}

} // verus!
