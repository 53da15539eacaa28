//! Encrypting streams: text by lines, and raw reads.

use crate::encrypt::{chunks_of, EncryptError, EncryptSession, SessionError, SessionSpec};
use crate::lines;
use crate::lines::LF;
use crate::record::{GksKeyMaterial, Record, RecordWriter, AES_KEY_LEN, SESSION_ID_LEN};
use vstd::prelude::*;

verus! {

/// There are at most as many chunks as bytes.
pub proof fn lemma_chunk_count(s: Seq<u8>, max: int)
    ensures
        chunks_of(s, max).len() <= s.len(),
    decreases s.len(),
{
    if s.len() > max && max > 0 {
        lemma_chunk_count(s.skip(max), max);
    }
}

/// The chunks of a sequence of lines: each line with its line feed, cut into
/// pieces of `max` bytes. No chunk spans two lines.
pub open spec fn line_chunks(lines: Seq<Seq<u8>>, max: int) -> Seq<Seq<u8>>
    decreases lines.len(),
{
    if lines.len() == 0 {
        Seq::empty()
    } else {
        chunks_of(lines[0].push(LF), max) + line_chunks(lines.drop_first(), max)
    }
}

/// Why a text stream could not be encrypted.
pub enum StreamError<E> {
    /// The session could not be opened.
    Session(SessionError<E>),
    /// The input holds a line that is not UTF-8.
    NotUtf8,
    /// A chunk could not be encrypted.
    Encrypt(EncryptError<E>),
}

/// The part of `r` that is about chunks: a line that cannot be read ends the
/// stream after everything before it was encrypted.
pub open spec fn chunk_result<E>(r: Result<(), StreamError<E>>) -> Result<(), EncryptError<E>> {
    match r {
        Err(StreamError::Encrypt(e)) => Err(e),
        _ => Ok(()),
    }
}

impl<const N: usize, E, K, S, T> RecordWriter<N, K, S, T> where
    K: Fn(&GksKeyMaterial, &[u8; SESSION_ID_LEN]) -> Result<[u8; AES_KEY_LEN], E>,
    S: Fn(&[u8; AES_KEY_LEN], &[u8; SESSION_ID_LEN], u64, &[u8; N], &[u8]) -> Result<
        (Vec<u8>, Vec<u8>),
        E,
    >,
    T: Fn(&Record<N>) -> Vec<u8>,
 {
    /// Encrypts `data` in chunks as large as a record holds, the last one possibly
    /// shorter, each into a record of its own with `terminator` behind it.
    pub fn encrypt_chunks(
        &self,
        session: &mut EncryptSession,
        data: &[u8],
        terminator: &[u8],
        out: &mut Vec<u8>,
    ) -> (r: Result<(), EncryptError<E>>)
        requires
            self.wf(),
            old(session)@.seq + data@.len() <= u64::MAX,
        ensures
            self.sends(
                old(session)@,
                final(session)@,
                chunks_of(data@, self.max()),
                terminator@,
                old(out)@,
                final(out)@,
                r,
            ),
    {
        let ghost s0 = session@;
        let ghost out0 = out@;
        let ghost all = chunks_of(data@, self.max());
        let ghost mut done: Seq<Seq<u8>> = Seq::empty();
        let mut pos: usize = 0;
        proof {
            self.lemma_sends_nothing(s0, terminator@, out0);
            assert(data@.skip(0) =~= data@);
            assert(done + all =~= all);
        }
        while pos < data.len()
            invariant
                self.wf(),
                pos <= data@.len(),
                s0 == old(session)@,
                out0 == old(out)@,
                s0.seq + data@.len() <= u64::MAX,
                all == chunks_of(data@, self.max()),
                all == done + chunks_of(data@.skip(pos as int), self.max()),
                session@.seq - s0.seq <= pos,
                self.sends(s0, session@, done, terminator@, out0, out@, Ok(())),
            decreases data@.len() - pos,
        {
            let ghost rest = data@.skip(pos as int);
            let ghost s1 = session@;
            let ghost out1 = out@;
            let end = if data.len() - pos > self.max_plaintext {
                pos + self.max_plaintext
            } else {
                data.len()
            };
            let chunk = vstd::slice::slice_subrange(data, pos, end);
            proof {
                if rest.len() > self.max() {
                    assert(chunk@ =~= rest.take(self.max()));
                    assert(rest.skip(self.max()) =~= data@.skip(end as int));
                } else {
                    assert(chunk@ =~= rest);
                    assert(data@.skip(end as int) =~= Seq::empty());
                }
                assert(chunks_of(rest, self.max()) =~= seq![chunk@] + chunks_of(
                    data@.skip(end as int),
                    self.max(),
                ));
            }
            let r = self.encrypt_chunk(session, chunk, terminator, out);
            proof {
                self.lemma_sends_then(
                    s0,
                    s1,
                    session@,
                    done,
                    seq![chunk@],
                    terminator@,
                    out0,
                    out1,
                    out@,
                    r,
                );
                done = done + seq![chunk@];
                assert(all =~= done + chunks_of(data@.skip(end as int), self.max()));
            }
            match r {
                Err(e) => {
                    proof {
                        self.lemma_sends_fails(
                            s0,
                            session@,
                            done,
                            chunks_of(data@.skip(end as int), self.max()),
                            terminator@,
                            out0,
                            out@,
                            e,
                        );
                    }
                    return Err(e);
                },
                Ok(()) => {
                    assert(r->Ok_0 == ());
                },
            }
            pos = end;
        }
        proof {
            assert(data@.skip(pos as int) =~= Seq::empty());
            assert(done =~= all);
        }
        Ok(())
    }

    /// Encrypts one line, given without its terminator: a line feed is put back
    /// behind it before it is cut into chunks. Every record ends its own line.
    pub fn encrypt_line(
        &self,
        session: &mut EncryptSession,
        line: &[u8],
        out: &mut Vec<u8>,
    ) -> (r: Result<(), EncryptError<E>>)
        requires
            self.wf(),
            old(session)@.seq + line@.len() < u64::MAX,
        ensures
            self.sends(
                old(session)@,
                final(session)@,
                chunks_of(line@.push(LF), self.max()),
                seq![LF],
                old(out)@,
                final(out)@,
                r,
            ),
    {
        let mut plaintext: Vec<u8> = Vec::new();
        plaintext.extend_from_slice(line);
        plaintext.push(LF);
        assert(plaintext@ =~= line@.push(LF));
        let terminator: [u8; 1] = [LF];
        assert(terminator@ =~= seq![LF]);
        self.encrypt_chunks(session, plaintext.as_slice(), &terminator, out)
    }

    /// Encrypts the lines of `input` up to the first that is not UTF-8.
    pub fn encrypt_lines(
        &self,
        session: &mut EncryptSession,
        input: &[u8],
        out: &mut Vec<u8>,
    ) -> (r: Result<(), StreamError<E>>)
        requires
            self.wf(),
            old(session)@.seq + input@.len() < u64::MAX,
        ensures
            self.sends(
                old(session)@,
                final(session)@,
                line_chunks(lines::readable_lines(input@), self.max()),
                seq![LF],
                old(out)@,
                final(out)@,
                chunk_result(r),
            ),
            match r {
                Ok(()) => lines::readable(input@),
                Err(StreamError::NotUtf8) => !lines::readable(input@),
                Err(StreamError::Encrypt(_)) => true,
                Err(StreamError::Session(_)) => false,
            },
    {
        let ghost s0 = session@;
        let ghost out0 = out@;
        let ghost all = line_chunks(lines::readable_lines(input@), self.max());
        let ghost mut done: Seq<Seq<u8>> = Seq::empty();
        let mut pos: usize = 0;
        proof {
            self.lemma_sends_nothing(s0, seq![LF], out0);
            assert(input@.skip(0) =~= input@);
            assert(done + all =~= all);
        }
        while pos < input.len()
            invariant
                self.wf(),
                pos <= input@.len(),
                s0 == old(session)@,
                out0 == old(out)@,
                s0.seq + input@.len() < u64::MAX,
                pos < input@.len() ==> session@.seq - s0.seq <= pos,
                lines::readable(input@) == lines::readable(input@.skip(pos as int)),
                all == line_chunks(lines::readable_lines(input@), self.max()),
                all == done + line_chunks(
                    lines::readable_lines(input@.skip(pos as int)),
                    self.max(),
                ),
                self.sends(s0, session@, done, seq![LF], out0, out@, Ok(())),
            decreases input@.len() - pos,
        {
            let ghost rest = input@.skip(pos as int);
            let ghost s1 = session@;
            let ghost out1 = out@;
            let (line, next) = lines::next_line(input, pos);
            if !lines::is_utf8(line) {
                assert(done =~= all);
                return Err(StreamError::NotUtf8);
            }
            let ghost now = chunks_of(line@.push(LF), self.max());
            let ghost later = line_chunks(
                lines::readable_lines(input@.skip(next as int)),
                self.max(),
            );
            proof {
                let ls = lines::readable_lines(rest);
                assert(ls.drop_first() =~= lines::readable_lines(lines::after_line(rest)));
                assert(line_chunks(ls, self.max()) == now + later);
                lemma_chunk_count(line@.push(LF), self.max());
            }
            let r = self.encrypt_line(session, line, out);
            proof {
                self.lemma_sends_then(
                    s0,
                    s1,
                    session@,
                    done,
                    now,
                    seq![LF],
                    out0,
                    out1,
                    out@,
                    r,
                );
                done = done + now;
                assert(all =~= done + later);
            }
            match r {
                Err(e) => {
                    proof {
                        self.lemma_sends_fails(
                            s0,
                            session@,
                            done,
                            later,
                            seq![LF],
                            out0,
                            out@,
                            e,
                        );
                    }
                    return Err(StreamError::Encrypt(e));
                },
                Ok(()) => {
                    assert(r->Ok_0 == ());
                },
            }
            pos = next;
        }
        proof {
            assert(input@.skip(pos as int) =~= Seq::empty());
            assert(done =~= all);
        }
        Ok(())
    }

    /// Encrypting the text stream `input` under `gks` takes the output from
    /// `before` to `after` and ends with `r`: a session is opened, and every line
    /// is sent up to the first that is not UTF-8.
    pub open spec fn encrypts_stream(
        &self,
        gks: Seq<u8>,
        input: Seq<u8>,
        before: Seq<u8>,
        after: Seq<u8>,
        r: Result<(), StreamError<E>>,
    ) -> bool {
        &&& match r {
            Err(StreamError::Session(e)) => after == before && self.fails_to_open(gks, e),
            _ => exists|s0: SessionSpec, s1: SessionSpec| #[trigger]
                self.opens(gks, s0) && #[trigger] self.sends(
                    s0,
                    s1,
                    line_chunks(lines::readable_lines(input), self.max()),
                    seq![LF],
                    before,
                    after,
                    chunk_result(r),
                ),
        }
        &&& r is Ok ==> lines::readable(input)
        &&& r matches Err(StreamError::NotUtf8) ==> !lines::readable(input)
    }
}

/// Encrypts a text stream: opens a session and encrypts every line of `input`,
/// up to the first that is not UTF-8. Every record is a line of the output.
pub fn stream_encrypt_io<const N: usize, E, K, S, T>(
    gks: &GksKeyMaterial,
    input: &[u8],
    writer: &mut Vec<u8>,
    records: &RecordWriter<N, K, S, T>,
) -> (r: Result<(), StreamError<E>>) where
    K: Fn(&GksKeyMaterial, &[u8; SESSION_ID_LEN]) -> Result<[u8; AES_KEY_LEN], E>,
    S: Fn(&[u8; AES_KEY_LEN], &[u8; SESSION_ID_LEN], u64, &[u8; N], &[u8]) -> Result<
        (Vec<u8>, Vec<u8>),
        E,
    >,
    T: Fn(&Record<N>) -> Vec<u8>,

    requires
        records.wf(),
        input@.len() < usize::MAX,
    ensures
        records.encrypts_stream(gks@, input@, old(writer)@, final(writer)@, r),
{
    match records.open_session(gks) {
        Err(e) => Err(StreamError::Session(e)),
        Ok(session) => {
            let mut session = session;
            let ghost s0 = session@;
            assert(records.opens(gks@, s0));
            let r = records.encrypt_lines(&mut session, input, writer);
            assert(records.sends(
                s0,
                session@,
                line_chunks(lines::readable_lines(input@), records.max()),
                seq![LF],
                old(writer)@,
                writer@,
                chunk_result(r),
            ));
            r
        },
    }
}

} // verus!
