//! The receiving side: from a stream of text with records in it to plaintext.

use crate::lines;
use crate::lines::LF;
use crate::record::{
    GksKeyMaterial, MatchSpec, ReaderModel, Record, RecordReader, SentinelMatch, AES_KEY_LEN,
    SESSION_ID_LEN,
};
use vstd::prelude::*;
use vstd::string::*;

verus! {

/// What takes the place of a record whose payload does not parse.
pub open spec fn parse_failed(text: Seq<u8>) -> Seq<u8> {
    "<<parse failed: ".spec_bytes() + text + ">>".spec_bytes()
}

/// What takes the place of a record that does not decrypt.
pub open spec fn decrypt_failed(text: Seq<u8>) -> Seq<u8> {
    "<<decrypt failed: ".spec_bytes() + text + ">>".spec_bytes()
}

/// Where the bytes end that pass through before a search goes on behind
/// something malformed at `start`.
pub open spec fn malformed_end(start: int, len: int) -> int {
    if start + 1 < len {
        start + 1
    } else {
        len
    }
}

impl ReaderModel {
    /// What a framed record puts into the output, and whether it decrypted.
    pub open spec fn record_output(self, gks: Seq<u8>, payload: Seq<u8>) -> (Seq<u8>, bool) {
        match (self.parse)(payload) {
            Err(text) => (parse_failed(text), false),
            Ok(record) => match (self.open)((self.derive)(gks, record.session_id), record) {
                Err(text) => (decrypt_failed(text), false),
                Ok(plaintext) => (plaintext, true),
            },
        }
    }

    /// What the rest of a line from `cursor` on puts into the output, and
    /// whether a record in it decrypted. Bytes that belong to no record pass
    /// through.
    pub open spec fn line_body(self, gks: Seq<u8>, line: Seq<u8>, cursor: int) -> (Seq<u8>, bool)
        decreases
                if cursor < line.len() {
                    line.len() - cursor
                } else {
                    0
                },
    {
        if cursor >= line.len() || !(self.find)(line, cursor).usable(cursor, line.len() as int) {
            (Seq::empty(), false)
        } else {
            match (self.find)(line, cursor) {
                MatchSpec::Found { start, end, payload } => {
                    let before = if start > cursor {
                        line.subrange(cursor, start)
                    } else {
                        Seq::empty()
                    };
                    let here = self.record_output(gks, payload);
                    let rest = self.line_body(gks, line, end);
                    (before + here.0 + rest.0, here.1 || rest.1)
                },
                MatchSpec::Malformed { start } => {
                    let end = malformed_end(start, line.len() as int);
                    let rest = self.line_body(gks, line, end);
                    (line.subrange(cursor, end) + rest.0, rest.1)
                },
                MatchSpec::NotFound => (line.skip(cursor), false),
            }
        }
    }

    /// The output for one line. The line feed that reading took away comes back
    /// only where no record decrypted: a record carries its own terminator.
    pub open spec fn line_output(self, gks: Seq<u8>, line: Seq<u8>) -> Seq<u8> {
        let body = self.line_body(gks, line, 0);
        if body.1 {
            body.0
        } else {
            body.0.push(LF)
        }
    }

    /// The output for a sequence of lines.
    pub open spec fn lines_output(self, gks: Seq<u8>, lines: Seq<Seq<u8>>) -> Seq<u8>
        decreases lines.len(),
    {
        if lines.len() == 0 {
            Seq::empty()
        } else {
            self.line_output(gks, lines[0]) + self.lines_output(gks, lines.drop_first())
        }
    }
}

/// The input holds a line that is not UTF-8.
#[derive(Debug, Clone, Copy, PartialEq, Eq, Structural)]
pub struct NotUtf8;

/// The session keys derived so far, one per session.
pub struct SessionKeys {
    entries: Vec<([u8; SESSION_ID_LEN], [u8; AES_KEY_LEN])>,
}

/// The key of each session in a list of entries.
pub open spec fn keys_map(entries: Seq<([u8; SESSION_ID_LEN], [u8; AES_KEY_LEN])>) -> Map<
    Seq<u8>,
    Seq<u8>,
>
    decreases entries.len(),
{
    if entries.len() == 0 {
        Map::empty()
    } else {
        keys_map(entries.drop_last()).insert(entries.last().0@, entries.last().1@)
    }
}

impl View for SessionKeys {
    type V = Map<Seq<u8>, Seq<u8>>;

    closed spec fn view(&self) -> Map<Seq<u8>, Seq<u8>> {
        keys_map(self.entries@)
    }
}

/// Whether two session identifiers are equal.
fn same_session(a: &[u8; SESSION_ID_LEN], b: &[u8; SESSION_ID_LEN]) -> (r: bool)
    ensures
        r == (a@ == b@),
{
    let mut i: usize = 0;
    while i < SESSION_ID_LEN
        invariant
            i <= SESSION_ID_LEN,
            forall|j: int| 0 <= j < i ==> a@[j] == b@[j],
        decreases SESSION_ID_LEN - i,
    {
        if a[i] != b[i] {
            return false;
        }
        i += 1;
    }
    assert(a@ =~= b@);
    true
}

/// A session is in the map of a list without repetitions exactly where an entry
/// holds it, and maps to that entry's key.
proof fn lemma_keys_map(entries: Seq<([u8; SESSION_ID_LEN], [u8; AES_KEY_LEN])>)
    requires
        distinct_sessions(entries),
    ensures
        forall|i: int|
            0 <= i < entries.len() ==> {
                &&& keys_map(entries).contains_key(#[trigger] entries[i].0@)
                &&& keys_map(entries)[entries[i].0@] == entries[i].1@
            },
        forall|id: Seq<u8>| #[trigger]
            keys_map(entries).contains_key(id) ==> exists|i: int|
                0 <= i < entries.len() && (#[trigger] entries[i]).0@ == id,
    decreases entries.len(),
{
    if entries.len() > 0 {
        let init = entries.drop_last();
        assert forall|i: int, j: int| 0 <= i < j < init.len() implies #[trigger] init[i].0@
            != #[trigger] init[j].0@ by {
            assert(init[i] == entries[i] && init[j] == entries[j]);
        }
        lemma_keys_map(init);
        assert forall|i: int| 0 <= i < entries.len() implies {
            &&& keys_map(entries).contains_key(#[trigger] entries[i].0@)
            &&& keys_map(entries)[entries[i].0@] == entries[i].1@
        } by {
            if i < init.len() {
                assert(init[i] == entries[i]);
                assert(keys_map(init).contains_key(init[i].0@));
            }
        }
        assert forall|id: Seq<u8>| #[trigger] keys_map(entries).contains_key(id) implies exists|
            i: int,
        |
            0 <= i < entries.len() && (#[trigger] entries[i]).0@ == id by {
            if id == entries.last().0@ {
                assert(entries[entries.len() - 1].0@ == id);
            } else {
                assert(keys_map(init).contains_key(id));
                let i = choose|i: int| 0 <= i < init.len() && (#[trigger] init[i]).0@ == id;
                assert(entries[i].0@ == id);
            }
        }
    }
}

/// No session has two entries.
pub open spec fn distinct_sessions(
    entries: Seq<([u8; SESSION_ID_LEN], [u8; AES_KEY_LEN])>,
) -> bool {
    forall|i: int, j: int|
        0 <= i < j < entries.len() ==> #[trigger] entries[i].0@ != #[trigger] entries[j].0@
}

impl SessionKeys {
    /// No session has two entries.
    pub closed spec fn wf(&self) -> bool {
        distinct_sessions(self.entries@)
    }

    /// Every key is the one that `m` derives for its session.
    pub open spec fn derived_by(&self, m: ReaderModel, gks: Seq<u8>) -> bool {
        forall|id: Seq<u8>| #[trigger]
            self@.contains_key(id) ==> self@[id] == (m.derive)(gks, id)
    }

    /// No keys yet.
    pub fn new() -> (keys: SessionKeys)
        ensures
            keys.wf(),
            keys@ == Map::<Seq<u8>, Seq<u8>>::empty(),
    {
        SessionKeys { entries: Vec::new() }
    }

    /// The key kept for a session, if any.
    fn lookup(&self, id: &[u8; SESSION_ID_LEN]) -> (r: Option<[u8; AES_KEY_LEN]>)
        requires
            self.wf(),
        ensures
            match r {
                Some(key) => self@.contains_key(id@) && self@[id@] == key@,
                None => !self@.contains_key(id@),
            },
    {
        proof {
            lemma_keys_map(self.entries@);
        }
        let mut i: usize = 0;
        while i < self.entries.len()
            invariant
                i <= self.entries@.len(),
                forall|j: int| 0 <= j < i ==> (#[trigger] self.entries@[j]).0@ != id@,
                self.wf(),
            decreases self.entries@.len() - i,
        {
            if same_session(&self.entries[i].0, id) {
                proof {
                    lemma_keys_map(self.entries@);
                }
                return Some(self.entries[i].1);
            }
            i += 1;
        }
        None
    }
}

/// Appends bytes.
fn put(out: &mut Vec<u8>, bytes: &[u8])
    ensures
        final(out)@ == old(out)@ + bytes@,
{
    out.extend_from_slice(bytes);
    assert(out@ =~= old(out)@ + bytes@);
}

impl<const N: usize, F, P, K, O> RecordReader<F, P, K, O> where
    F: Fn(&[u8], usize) -> SentinelMatch,
    P: Fn(&[u8]) -> Result<Record<N>, Vec<u8>>,
    K: Fn(&GksKeyMaterial, &[u8; SESSION_ID_LEN]) -> [u8; AES_KEY_LEN],
    O: Fn(&[u8; AES_KEY_LEN], &Record<N>) -> Result<Vec<u8>, Vec<u8>>,
 {
    /// Decrypting the stream `input` under `gks` takes the output from `before`
    /// to `after` and ends with `r`.
    pub open spec fn decrypts_stream(
        &self,
        gks: Seq<u8>,
        input: Seq<u8>,
        before: Seq<u8>,
        after: Seq<u8>,
        r: Result<(), NotUtf8>,
    ) -> bool {
        &&& r is Ok <==> lines::readable(input)
        &&& forall|m: ReaderModel| #[trigger]
            self.described_by(m) ==> after == before + m.lines_output(
                gks,
                lines::readable_lines(input),
            )
    }

    /// The key of a session: the one kept, or else one derived and kept.
    fn session_key(
        &self,
        gks: &GksKeyMaterial,
        keys: &mut SessionKeys,
        id: &[u8; SESSION_ID_LEN],
    ) -> (key: [u8; AES_KEY_LEN])
        requires
            self.wf(),
            old(keys).wf(),
        ensures
            final(keys).wf(),
            final(keys)@ == old(keys)@.insert(id@, key@),
            old(keys)@.contains_key(id@) ==> key@ == old(keys)@[id@],
            !old(keys)@.contains_key(id@) ==> self.derive.ensures((gks, id), key),
    {
        match keys.lookup(id) {
            Some(key) => {
                assert(keys@ =~= keys@.insert(id@, key@));
                key
            },
            None => {
                let key = (self.derive)(gks, id);
                let ghost before = keys.entries@;
                proof {
                    lemma_keys_map(before);
                }
                keys.entries.push((*id, key));
                assert(keys.entries@.drop_last() =~= before);
                key
            },
        }
    }

    /// Writes what a framed record puts into the output: its plaintext, or a
    /// marker with the reason where it does not parse or decrypt. Returns
    /// whether it decrypted.
    pub fn write_record(
        &self,
        gks: &GksKeyMaterial,
        keys: &mut SessionKeys,
        payload: &[u8],
        out: &mut Vec<u8>,
    ) -> (decrypted: bool)
        requires
            self.wf(),
            old(keys).wf(),
        ensures
            final(keys).wf(),
            forall|m: ReaderModel| #[trigger]
                self.described_by(m) && old(keys).derived_by(m, gks@) ==> {
                    &&& final(keys).derived_by(m, gks@)
                    &&& final(out)@ == old(out)@ + m.record_output(gks@, payload@).0
                    &&& decrypted == m.record_output(gks@, payload@).1
                },
    {
        match (self.parse)(payload) {
            Err(text) => {
                put(out, "<<parse failed: ".as_bytes());
                put(out, text.as_slice());
                put(out, ">>".as_bytes());
                assert(out@ =~= old(out)@ + parse_failed(text@));
                false
            },
            Ok(record) => {
                let key = self.session_key(gks, keys, &record.session_id);
                match (self.open)(&key, &record) {
                    Ok(plaintext) => {
                        put(out, plaintext.as_slice());
                        true
                    },
                    Err(text) => {
                        put(out, "<<decrypt failed: ".as_bytes());
                        put(out, text.as_slice());
                        put(out, ">>".as_bytes());
                        assert(out@ =~= old(out)@ + decrypt_failed(text@));
                        false
                    },
                }
            },
        }
    }

    /// Writes the output for one line, which is given without its terminator.
    pub fn decrypt_line(
        &self,
        gks: &GksKeyMaterial,
        keys: &mut SessionKeys,
        line: &[u8],
        out: &mut Vec<u8>,
    )
        requires
            self.wf(),
            old(keys).wf(),
        ensures
            final(keys).wf(),
            forall|m: ReaderModel| #[trigger]
                self.described_by(m) && old(keys).derived_by(m, gks@) ==> {
                    &&& final(keys).derived_by(m, gks@)
                    &&& final(out)@ == old(out)@ + m.line_output(gks@, line@)
                },
    {
        let ghost keys0 = *keys;
        let ghost out0 = out@;
        let mut cursor: usize = 0;
        let mut found_record = false;
        while cursor < line.len()
            invariant
                self.wf(),
                keys.wf(),
                forall|m: ReaderModel| #[trigger]
                    self.described_by(m) && keys0.derived_by(m, gks@) ==> {
                        let whole = m.line_body(gks@, line@, 0);
                        let rest = m.line_body(gks@, line@, cursor as int);
                        &&& keys.derived_by(m, gks@)
                        &&& out0 + whole.0 == out@ + rest.0
                        &&& whole.1 == (found_record || rest.1)
                    },
            decreases
                    if cursor < line@.len() {
                        line@.len() - cursor
                    } else {
                        0
                    },
        {
            match (self.find)(line, cursor) {
                SentinelMatch::Found { start, end, payload } => {
                    if start > cursor {
                        put(out, vstd::slice::slice_subrange(line, cursor, start));
                    }
                    let decrypted = self.write_record(gks, keys, payload.as_slice(), out);
                    if decrypted {
                        found_record = true;
                    }
                    cursor = end;
                },
                SentinelMatch::Malformed { start } => {
                    let end = if start + 1 < line.len() {
                        start + 1
                    } else {
                        line.len()
                    };
                    put(out, vstd::slice::slice_subrange(line, cursor, end));
                    cursor = end;
                },
                SentinelMatch::NotFound => {
                    put(out, vstd::slice::slice_subrange(line, cursor, line.len()));
                    cursor = line.len();
                },
            }
        }
        if !found_record {
            out.push(LF);
        }
    }

    /// Writes the output for the lines of `input`, up to the first that is not
    /// UTF-8, with the keys of the sessions seen before.
    pub fn decrypt_lines(
        &self,
        gks: &GksKeyMaterial,
        keys: &mut SessionKeys,
        input: &[u8],
        out: &mut Vec<u8>,
    ) -> (r: Result<(), NotUtf8>)
        requires
            self.wf(),
            old(keys).wf(),
        ensures
            final(keys).wf(),
            r is Ok <==> lines::readable(input@),
            forall|m: ReaderModel| #[trigger]
                self.described_by(m) && old(keys).derived_by(m, gks@) ==> {
                    &&& final(keys).derived_by(m, gks@)
                    &&& final(out)@ == old(out)@ + m.lines_output(
                        gks@,
                        lines::readable_lines(input@),
                    )
                },
    {
        let ghost keys0 = *keys;
        let ghost out0 = out@;
        let ghost all = lines::readable_lines(input@);
        let mut pos: usize = 0;
        assert(input@.skip(0) =~= input@);
        while pos < input.len()
            invariant
                self.wf(),
                keys.wf(),
                pos <= input@.len(),
                keys0 == *old(keys),
                out0 == old(out)@,
                lines::readable(input@) == lines::readable(input@.skip(pos as int)),
                all == lines::readable_lines(input@),
                forall|m: ReaderModel| #[trigger]
                    self.described_by(m) && keys0.derived_by(m, gks@) ==> {
                        &&& keys.derived_by(m, gks@)
                        &&& out0 + m.lines_output(gks@, all) == out@ + m.lines_output(
                            gks@,
                            lines::readable_lines(input@.skip(pos as int)),
                        )
                    },
            decreases input@.len() - pos,
        {
            let ghost rest = input@.skip(pos as int);
            let (line, next) = lines::next_line(input, pos);
            if !lines::is_utf8(line) {
                assert(out@ + Seq::<u8>::empty() =~= out@);
                return Err(NotUtf8);
            }
            self.decrypt_line(gks, keys, line, out);
            proof {
                let ls = lines::readable_lines(rest);
                assert(ls.drop_first() =~= lines::readable_lines(lines::after_line(rest)));
                assert forall|m: ReaderModel| #[trigger]
                    self.described_by(m) && keys0.derived_by(m, gks@) implies out0
                    + m.lines_output(gks@, all) == out@ + m.lines_output(
                    gks@,
                    lines::readable_lines(input@.skip(next as int)),
                ) by {
                    assert(m.lines_output(gks@, ls) == m.line_output(gks@, line@)
                        + m.lines_output(gks@, ls.drop_first()));
                }
            }
            pos = next;
        }
        Ok(())
    }
}

/// Decrypts a stream: writes the output for every line of `input`, up to the
/// first that is not UTF-8.
///
/// A record puts its plaintext into the output, which carries the terminator of
/// the line that was encrypted; everything else passes through, and a line
/// without a record that decrypts gets its line feed back.
pub fn stream_decrypt_io<const N: usize, F, P, K, O>(
    gks: &GksKeyMaterial,
    input: &[u8],
    writer: &mut Vec<u8>,
    reader: &RecordReader<F, P, K, O>,
) -> (r: Result<(), NotUtf8>) where
    F: Fn(&[u8], usize) -> SentinelMatch,
    P: Fn(&[u8]) -> Result<Record<N>, Vec<u8>>,
    K: Fn(&GksKeyMaterial, &[u8; SESSION_ID_LEN]) -> [u8; AES_KEY_LEN],
    O: Fn(&[u8; AES_KEY_LEN], &Record<N>) -> Result<Vec<u8>, Vec<u8>>,

    requires
        reader.wf(),
    ensures
        reader.decrypts_stream(gks@, input@, old(writer)@, final(writer)@, r),
{
    let mut keys = SessionKeys::new();
    reader.decrypt_lines(gks, &mut keys, input, writer)
}

} // verus!
