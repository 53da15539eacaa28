//! What the two directions of a bridge do with what they read.

use crate::back_to_back::sealed_as;
use crate::bridge::{
    failure_step, loop_result, read_bytes, read_chunks, until_eof, DecryptTotals,
    EncryptLoopError, EncryptTotals, PipeAction, PipeWait, Scanner, ScannerModel,
};
use crate::encrypt::{chunks_of, SessionSpec};
use crate::encrypt_laws::{law_chunks_full, sent_exactly};
use crate::random::drawn;
use crate::record::{
    GksKeyMaterial, Record, RecordSpec, RecordWriter, WriterModel, AES_KEY_LEN, SESSION_ID_LEN,
};
use vstd::prelude::*;
use vstd::seq_lib::lemma_flatten_concat;

verus! {

/// The bytes of reads are those of each, one by one.
pub proof fn law_read_bytes(reads: Seq<Vec<u8>>)
    ensures
        read_bytes(reads).len() == reads.len(),
        forall|i: int| 0 <= i < reads.len() ==> #[trigger] read_bytes(reads)[i] == reads[i]@,
{
}

/// Reads that hold something are all read; the first empty one ends the stream,
/// whatever follows it.
pub proof fn law_until_eof(reads: Seq<Seq<u8>>, rest: Seq<Seq<u8>>)
    requires
        forall|i: int| 0 <= i < reads.len() ==> (#[trigger] reads[i]).len() > 0,
    ensures
        until_eof(reads) == reads,
        until_eof(reads + seq![Seq::<u8>::empty()] + rest) == reads,
    decreases reads.len(),
{
    let all = reads + seq![Seq::<u8>::empty()] + rest;
    if reads.len() == 0 {
        assert(all[0].len() == 0);
        assert(until_eof(reads) =~= reads);
        assert(until_eof(all) =~= reads);
    } else {
        let later = reads.drop_first();
        assert forall|i: int| 0 <= i < later.len() implies (#[trigger] later[i]).len() > 0 by {
            assert(later[i] == reads[i + 1]);
        }
        law_until_eof(later, rest);
        assert(reads[0].len() > 0);
        assert(all[0] == reads[0]);
        assert(all.drop_first() =~= later + seq![Seq::<u8>::empty()] + rest);
        assert(seq![reads[0]] + later =~= reads);
    }
}

/// The chunks of reads are those of each read, read by read.
pub proof fn law_read_chunks_each(reads: Seq<Seq<u8>>, max: int)
    ensures
        read_chunks(reads, max) == Seq::new(
            reads.len(),
            |i: int| chunks_of(reads[i], max),
        ).flatten(),
    decreases reads.len(),
{
    let each = Seq::new(reads.len(), |i: int| chunks_of(reads[i], max));
    if reads.len() > 0 {
        let later = reads.drop_first();
        law_read_chunks_each(later, max);
        assert(each.drop_first() =~= Seq::new(later.len(), |i: int| chunks_of(later[i], max)));
    }
}

/// Where every read holds something and fits into a record, each read is one
/// record: a line of a terminal, or a keystroke.
pub proof fn law_one_record_per_read(reads: Seq<Seq<u8>>, max: int)
    requires
        forall|i: int| 0 <= i < reads.len() ==> 0 < (#[trigger] reads[i]).len() <= max,
    ensures
        read_chunks(reads, max) == reads,
    decreases reads.len(),
{
    if reads.len() > 0 {
        let later = reads.drop_first();
        assert(0 < reads[0].len() <= max);
        assert forall|i: int| 0 <= i < later.len() implies 0 < (#[trigger] later[i]).len()
            <= max by {
            assert(later[i] == reads[i + 1]);
        }
        law_one_record_per_read(later, max);
        law_chunks_full(reads[0], max);
        assert(seq![reads[0]] + later =~= reads);
    } else {
        assert(read_chunks(reads, max) =~= reads);
    }
}

impl<const N: usize, E, K, S, T> RecordWriter<N, K, S, T> where
    K: Fn(&GksKeyMaterial, &[u8; SESSION_ID_LEN]) -> Result<[u8; AES_KEY_LEN], E>,
    S: Fn(&[u8; AES_KEY_LEN], &[u8; SESSION_ID_LEN], u64, &[u8; N], &[u8]) -> Result<
        (Vec<u8>, Vec<u8>),
        E,
    >,
    T: Fn(&Record<N>) -> Vec<u8>,
 {
    /// The encrypting direction sends each read before the first empty one, cut
    /// into chunks, with nothing between the records, under a new session; the
    /// totals count the bytes read and the records sent.
    pub proof fn law_bridge_sends(
        &self,
        w: WriterModel<E>,
        gks: Seq<u8>,
        reads: Seq<Seq<u8>>,
        rest: Seq<Seq<u8>>,
        before: Seq<u8>,
        after: Seq<u8>,
        r: Result<EncryptTotals, EncryptLoopError<E>>,
    ) -> (sent: (SessionSpec, SessionSpec, Seq<Seq<u8>>, Seq<Seq<u8>>))
        requires
            self.described_by(w),
            forall|i: int| 0 <= i < reads.len() ==> (#[trigger] reads[i]).len() > 0,
            self.encrypts_reads(gks, reads + seq![Seq::<u8>::empty()] + rest, before, after, r),
            !(r matches Err(EncryptLoopError::Session(_))),
        ensures
            (w.derive)(gks, sent.0.id) == Ok::<Seq<u8>, E>(sent.0.key),
            sent.0.seq == 0,
            sent.0.id.len() == 16,
            drawn::<SESSION_ID_LEN>(sent.0.id),
            sent_exactly(
                N as int,
                w,
                sent.0,
                sent.1,
                Seq::new(reads.len(), |i: int| chunks_of(reads[i], self.max())).flatten(),
                sent.2,
                sent.3,
                Seq::empty(),
                before,
                after,
                match r {
                    Err(EncryptLoopError::Encrypt(e)) => Err(e),
                    _ => Ok(()),
                },
            ),
            r matches Ok(t) ==> t.bytes_in == reads.flatten().len() && t.records == sent.3.len(),
    {
        law_until_eof(reads, rest);
        law_read_chunks_each(reads, self.max());
        let chunks = read_chunks(reads, self.max());
        let (s0, s1) = choose|s0: SessionSpec, s1: SessionSpec| #[trigger]
            self.opens(gks, s0) && #[trigger] self.sends(
                s0,
                s1,
                chunks,
                Seq::empty(),
                before,
                after,
                loop_result(r),
            );
        let (nonces, texts) = self.law_sends_exactly(
            w,
            s0,
            s1,
            chunks,
            Seq::empty(),
            before,
            after,
            loop_result(r),
        );
        (s0, s1, nonces, texts)
    }
}

/// `states` and `outs` are what a scanner comes to and gives out when each read is
/// added to what it holds and what is ready is drawn out at once.
pub open spec fn scans_live<Q, X>(
    m: ScannerModel<Q, X>,
    gks: Seq<u8>,
    reads: Seq<Seq<u8>>,
    states: Seq<Q>,
    outs: Seq<Seq<u8>>,
) -> bool {
    &&& states.len() == reads.len() + 1
    &&& outs.len() == reads.len()
    &&& forall|i: int|
        0 <= i < reads.len() ==> (#[trigger] reads[i]).len() > 0 && (m.drain)(
            (m.extend)(states[i], reads[i]),
            gks,
            false,
        ) == (Ok::<Q, X>(states[i + 1]), outs[i])
}

impl<Q, X> ScannerModel<Q, X> {
    /// A read that holds something is added and what is ready is drawn out; an
    /// empty one draws out what is held back.
    pub proof fn law_scan(self, state: Q, gks: Seq<u8>, read: Seq<u8>)
        ensures
            read.len() > 0 ==> self.scan(state, gks, read) == (self.drain)(
                (self.extend)(state, read),
                gks,
                false,
            ),
            read.len() == 0 ==> self.scan(state, gks, read) == (self.drain)(state, gks, true),
    {
    }

    /// The decrypting direction writes what each read made ready, in order, and
    /// at the end of the stream what was held back; the end is an empty read or
    /// where the reads end. Its error is that of the last scan.
    pub proof fn law_run(
        self,
        gks: Seq<u8>,
        reads: Seq<Seq<u8>>,
        rest: Seq<Seq<u8>>,
        states: Seq<Q>,
        outs: Seq<Seq<u8>>,
    )
        requires
            scans_live(self, gks, reads, states, outs),
        ensures
            ({
                let (end, last) = (self.drain)(states.last(), gks, true);
                let ran = (
                    outs.flatten() + last,
                    match end {
                        Ok(_) => None::<X>,
                        Err(e) => Some(e),
                    },
                );
                &&& self.run(states[0], gks, reads) == ran
                &&& self.run(states[0], gks, reads + seq![Seq::<u8>::empty()] + rest) == ran
            }),
        decreases reads.len(),
    {
        let all = reads + seq![Seq::<u8>::empty()] + rest;
        let last = (self.drain)(states.last(), gks, true).1;
        if reads.len() == 0 {
            assert(all[0].len() == 0);
            assert(outs.flatten() + last =~= last);
        } else {
            self.lemma_next(gks, reads, states, outs);
            self.law_run(gks, reads.drop_first(), rest, states.drop_first(), outs.drop_first());
            assert(all[0] == reads[0]);
            assert(all.drop_first() =~= reads.drop_first() + seq![Seq::<u8>::empty()] + rest);
            assert(states.drop_first().last() == states.last());
            assert(outs[0] + (outs.drop_first().flatten() + last) =~= outs.flatten() + last);
        }
    }

    /// Where a scan fails, what came out before stays written, also that of the
    /// failed scan, and the error is passed on; nothing more is read.
    pub proof fn law_run_fails(
        self,
        gks: Seq<u8>,
        reads: Seq<Seq<u8>>,
        bad: Seq<u8>,
        rest: Seq<Seq<u8>>,
        states: Seq<Q>,
        outs: Seq<Seq<u8>>,
        e: X,
        out: Seq<u8>,
    )
        requires
            scans_live(self, gks, reads, states, outs),
            bad.len() > 0,
            (self.drain)((self.extend)(states.last(), bad), gks, false) == (Err::<Q, X>(e), out),
        ensures
            self.run(states[0], gks, reads + seq![bad] + rest) == (outs.flatten() + out, Some(e)),
        decreases reads.len(),
    {
        let all = reads + seq![bad] + rest;
        if reads.len() == 0 {
            assert(all[0] == bad);
            assert(outs.flatten() + out =~= out);
        } else {
            self.lemma_next(gks, reads, states, outs);
            self.law_run_fails(
                gks,
                reads.drop_first(),
                bad,
                rest,
                states.drop_first(),
                outs.drop_first(),
                e,
                out,
            );
            assert(all[0] == reads[0]);
            assert(all.drop_first() =~= reads.drop_first() + seq![bad] + rest);
            assert(outs[0] + (outs.drop_first().flatten() + out) =~= outs.flatten() + out);
        }
    }

    /// The reads after the first.
    proof fn lemma_next(
        self,
        gks: Seq<u8>,
        reads: Seq<Seq<u8>>,
        states: Seq<Q>,
        outs: Seq<Seq<u8>>,
    )
        requires
            reads.len() > 0,
            scans_live(self, gks, reads, states, outs),
        ensures
            scans_live(self, gks, reads.drop_first(), states.drop_first(), outs.drop_first()),
            reads[0].len() > 0,
            self.scan(states[0], gks, reads[0]) == (Ok::<Q, X>(states[1]), outs[0]),
            states.drop_first()[0] == states[1],
            states.drop_first().last() == states.last(),
    {
        assert(reads[0].len() > 0);
        let later = reads.drop_first();
        assert forall|i: int| 0 <= i < later.len() implies (#[trigger] later[i]).len() > 0 && (
        self.drain)((self.extend)(states.drop_first()[i], later[i]), gks, false) == (
            Ok::<Q, X>(states.drop_first()[i + 1]),
            outs.drop_first()[i],
        ) by {
            assert(later[i] == reads[i + 1]);
            assert(states.drop_first()[i] == states[i + 1]);
            assert(states.drop_first()[i + 1] == states[i + 2]);
            assert(outs.drop_first()[i] == outs[i + 1]);
        }
    }
}

/// The decrypting direction appends what the scanner gives out for each read and
/// at the end, and its totals count the bytes read and written.
pub proof fn law_bridge_writes<Q, X, Y, D>(
    scanner: Scanner<Q, Y, D>,
    m: ScannerModel<Q, X>,
    gks: Seq<u8>,
    reads: Seq<Seq<u8>>,
    rest: Seq<Seq<u8>>,
    states: Seq<Q>,
    outs: Seq<Seq<u8>>,
    before: Seq<u8>,
    after: Seq<u8>,
    r: Result<DecryptTotals, X>,
) where Y: Fn(Q, &[u8]) -> Q, D: Fn(Q, &GksKeyMaterial, bool) -> (Result<Q, X>, Vec<u8>)
    requires
        scanner.described_by(m),
        scans_live(m, gks, reads, states, outs),
        scanner.decrypts_reads(
            states[0],
            gks,
            reads + seq![Seq::<u8>::empty()] + rest,
            before,
            after,
            r,
        ),
    ensures
        after == before + outs.flatten() + (m.drain)(states.last(), gks, true).1,
        match (m.drain)(states.last(), gks, true).0 {
            Ok(_) => r is Ok,
            Err(e) => r matches Err(why) && why == e,
        },
        r matches Ok(t) ==> {
            &&& t.bytes_in == reads.flatten().len()
            &&& t.bytes_out == after.len() - before.len()
        },
{
    m.law_run(gks, reads, rest, states, outs);
    assert forall|i: int| 0 <= i < reads.len() implies (#[trigger] reads[i]).len() > 0 by {}
    law_until_eof(reads, rest);
    let last = (m.drain)(states.last(), gks, true).1;
    assert(before + (outs.flatten() + last) =~= before + outs.flatten() + last);
}

/// `bytes` are whole records that seal `plain`, in order, and then `tail`, which
/// is less than a record.
pub open spec fn holds_whole<E>(
    w: WriterModel<E>,
    gks: Seq<u8>,
    bytes: Seq<u8>,
    plain: Seq<Seq<u8>>,
    tail: Seq<u8>,
) -> bool {
    &&& exists|records: Seq<RecordSpec>|
        {
            &&& #[trigger] records.len() == plain.len()
            &&& all_sealed(w, gks, records, plain)
            &&& bytes == record_texts(w, records).flatten() + tail
        }
    &&& tail.len() == 0 || exists|record: RecordSpec, plaintext: Seq<u8>|
        {
            &&& #[trigger] sealed_as(w, gks, record, plaintext)
            &&& tail.len() < (w.encode)(record).len()
            &&& tail == (w.encode)(record).take(tail.len() as int)
        }
}

/// `records` seal `plain`, one by one.
pub open spec fn all_sealed<E>(
    w: WriterModel<E>,
    gks: Seq<u8>,
    records: Seq<RecordSpec>,
    plain: Seq<Seq<u8>>,
) -> bool {
    &&& records.len() == plain.len()
    &&& forall|i: int|
        0 <= i < records.len() ==> sealed_as(w, gks, #[trigger] records[i], plain[i]) && (w.encode)(
            records[i],
        ).len() > 0
}

/// The framed texts of records.
pub open spec fn record_texts<E>(w: WriterModel<E>, records: Seq<RecordSpec>) -> Seq<Seq<u8>> {
    Seq::new(records.len(), |i: int| (w.encode)(records[i]))
}

/// The scanner `m` gives out whole records: `held` says which bytes a state holds
/// back, a read adds to them, and drawing out what is ready gives the plaintexts
/// of the whole records among them and leaves the rest.
pub open spec fn gives_out<Q, X, E>(
    m: ScannerModel<Q, X>,
    held: spec_fn(Q) -> Seq<u8>,
    w: WriterModel<E>,
    gks: Seq<u8>,
) -> bool {
    &&& forall|state: Q, read: Seq<u8>|
        held(#[trigger] (m.extend)(state, read)) == held(state) + read
    &&& forall|state: Q, plain: Seq<Seq<u8>>, tail: Seq<u8>| #[trigger]
        holds_whole(w, gks, held(state), plain, tail) ==> {
            let (next, out) = (m.drain)(state, gks, false);
            &&& next is Ok
            &&& out == plain.flatten()
            &&& held(next->Ok_0) == tail
        }
}

/// `bytes` begin with the first `k` of `texts`, and `tail`, which is less than
/// the next, follows.
pub open spec fn cuts(texts: Seq<Seq<u8>>, bytes: Seq<u8>, k: int, tail: Seq<u8>) -> bool {
    &&& 0 <= k <= texts.len()
    &&& bytes == texts.take(k).flatten() + tail
    &&& tail.len() == 0 || {
        &&& k < texts.len()
        &&& tail.len() < texts[k].len()
        &&& tail == texts[k].take(tail.len() as int)
    }
}

/// Texts up to one position and from there up to another.
proof fn lemma_take_flatten(texts: Seq<Seq<u8>>, j: int, k: int)
    requires
        0 <= j <= k <= texts.len(),
    ensures
        texts.take(k).flatten() == texts.take(j).flatten() + texts.subrange(j, k).flatten(),
{
    assert(texts.take(k) =~= texts.take(j) + texts.subrange(j, k));
    lemma_flatten_concat(texts.take(j), texts.subrange(j, k));
}

/// One text more.
proof fn lemma_take_next(texts: Seq<Seq<u8>>, k: int)
    requires
        0 <= k < texts.len(),
    ensures
        texts.take(k + 1).flatten() == texts.take(k).flatten() + texts[k],
{
    lemma_take_flatten(texts, k, k + 1);
    assert(texts.subrange(k, k + 1) =~= seq![texts[k]]);
    seq![texts[k]].lemma_flatten_one_element();
}

/// Any part of texts in a row, from the front, is so many whole texts and less
/// than the next.
proof fn lemma_cut(texts: Seq<Seq<u8>>, len: int) -> (cut: (int, Seq<u8>))
    requires
        0 <= len <= texts.flatten().len(),
    ensures
        cuts(texts, texts.flatten().take(len), cut.0, cut.1),
    decreases texts.len(),
{
    let bytes = texts.flatten().take(len);
    if texts.len() == 0 {
        assert(texts.take(0) =~= Seq::empty());
        assert(bytes =~= texts.take(0).flatten() + Seq::<u8>::empty());
        (0, Seq::empty())
    } else if len < texts[0].len() {
        assert(texts.take(0) =~= Seq::empty());
        assert(bytes =~= texts.take(0).flatten() + bytes);
        assert(bytes =~= texts[0].take(bytes.len() as int));
        (0, bytes)
    } else {
        let later = texts.drop_first();
        let (k, tail) = lemma_cut(later, len - texts[0].len());
        assert(texts.take(k + 1).drop_first() =~= later.take(k));
        assert(texts.take(k + 1).flatten() == texts[0] + later.take(k).flatten());
        assert(bytes =~= texts[0] + later.flatten().take(len - texts[0].len()));
        assert(bytes =~= texts.take(k + 1).flatten() + tail);
        if tail.len() > 0 {
            assert(later[k] == texts[k + 1]);
        }
        (k + 1, tail)
    }
}

/// The first texts in a row come first in all of them.
proof fn lemma_cut_is_prefix(texts: Seq<Seq<u8>>, bytes: Seq<u8>, k: int, tail: Seq<u8>)
    requires
        cuts(texts, bytes, k, tail),
    ensures
        bytes.len() <= texts.flatten().len(),
        bytes == texts.flatten().take(bytes.len() as int),
{
    let n = texts.len() as int;
    lemma_take_flatten(texts, k, n);
    assert(texts.take(n) =~= texts);
    if tail.len() > 0 {
        lemma_take_next(texts, k);
        lemma_take_flatten(texts, k + 1, n);
    }
    assert(bytes =~= texts.flatten().take(bytes.len() as int));
}

/// The console is live: after reads that hold the first `k` records whole and
/// less than the next, whatever the pieces they came in, the plaintexts of those
/// `k` records are in the output, though the stream has not ended. No scan failed.
pub proof fn law_live<Q, X, E>(
    m: ScannerModel<Q, X>,
    held: spec_fn(Q) -> Seq<u8>,
    w: WriterModel<E>,
    gks: Seq<u8>,
    records: Seq<RecordSpec>,
    plain: Seq<Seq<u8>>,
    reads: Seq<Seq<u8>>,
    states: Seq<Q>,
    outs: Seq<Seq<u8>>,
    k: int,
    tail: Seq<u8>,
)
    requires
        gives_out(m, held, w, gks),
        all_sealed(w, gks, records, plain),
        cuts(record_texts(w, records), reads.flatten(), k, tail),
        states.len() == reads.len() + 1,
        outs.len() == reads.len(),
        held(states[0]).len() == 0,
        forall|i: int|
            0 <= i < reads.len() ==> {
                &&& (#[trigger] reads[i]).len() > 0
                &&& states[i + 1] == m.scan(states[i], gks, reads[i]).0->Ok_0
                &&& outs[i] == m.scan(states[i], gks, reads[i]).1
            },
    ensures
        forall|i: int|
            0 <= i < reads.len() ==> m.scan(states[i], gks, #[trigger] reads[i]).0 is Ok,
        outs.flatten() == plain.take(k).flatten(),
        held(states.last()) == tail,
    decreases reads.len(),
{
    let texts = record_texts(w, records);
    let bytes = reads.flatten();
    if reads.len() == 0 {
        assert(bytes =~= Seq::empty());
        if k > 0 {
            lemma_take_flatten(texts, 1, k);
            lemma_take_next(texts, 0);
            assert(sealed_as(w, gks, records[0], plain[0]));
            assert(texts[0].len() > 0);
        }
        assert(plain.take(0) =~= Seq::empty());
        assert(held(states[0]) =~= tail);
    } else {
        let n = reads.len() - 1;
        let init = reads.drop_last();
        let last = reads[n];
        assert(last.len() > 0);
        init.lemma_flatten_push(last);
        assert(init.push(last) =~= reads);
        lemma_cut_is_prefix(texts, bytes, k, tail);
        let (j, before) = lemma_cut(texts, init.flatten().len() as int);
        assert(init.flatten() =~= texts.flatten().take(init.flatten().len() as int));
        assert(j <= k) by {
            if j > k {
                lemma_take_next(texts, k);
                lemma_take_flatten(texts, k + 1, j);
                assert(sealed_as(w, gks, records[k], plain[k]));
                assert(texts[k].len() > 0);
            }
        }
        assert forall|i: int| 0 <= i < init.len() implies {
            &&& (#[trigger] init[i]).len() > 0
            &&& states.drop_last()[i + 1] == m.scan(
                states.drop_last()[i],
                gks,
                init[i],
            ).0->Ok_0
            &&& outs.drop_last()[i] == m.scan(states.drop_last()[i], gks, init[i]).1
        } by {
            assert(init[i] == reads[i]);
        }
        law_live(
            m,
            held,
            w,
            gks,
            records,
            plain,
            init,
            states.drop_last(),
            outs.drop_last(),
            j,
            before,
        );
        let s = states[n];
        assert(states.drop_last().last() == s);
        let extended = (m.extend)(s, last);
        let some = records.subrange(j, k);
        let now = plain.subrange(j, k);
        lemma_take_flatten(texts, j, k);
        assert(record_texts(w, some) =~= texts.subrange(j, k));
        assert(held(extended) == before + last);
        assert(before + last =~= texts.subrange(j, k).flatten() + tail) by {
            let front = texts.take(j).flatten();
            let a = front + (before + last);
            let b = front + (texts.subrange(j, k).flatten() + tail);
            assert(a =~= bytes);
            assert(b =~= bytes);
            let c = front.len() as int;
            assert(before + last =~= a.skip(c));
            assert(texts.subrange(j, k).flatten() + tail =~= b.skip(c));
        }
        assert forall|i: int| 0 <= i < some.len() implies sealed_as(
            w,
            gks,
            #[trigger] some[i],
            now[i],
        ) && (w.encode)(some[i]).len() > 0 by {
            assert(some[i] == records[j + i]);
            assert(now[i] == plain[j + i]);
        }
        assert(some.len() == now.len());
        if tail.len() > 0 {
            assert(texts[k] == (w.encode)(records[k]));
            assert(sealed_as(w, gks, records[k], plain[k]));
        }
        assert(holds_whole(w, gks, held(extended), now, tail));
        m.law_scan(s, gks, last);
        assert(m.scan(s, gks, last).0 is Ok);
        assert forall|i: int| 0 <= i < reads.len() implies m.scan(
            states[i],
            gks,
            #[trigger] reads[i],
        ).0 is Ok by {
            if i < n {
                assert(init[i] == reads[i]);
                assert(states.drop_last()[i] == states[i]);
            }
        }
        assert(reads[n] == last);
        assert(outs[n] == now.flatten());
        outs.drop_last().lemma_flatten_push(outs[n]);
        assert(outs.drop_last().push(outs[n]) =~= outs);
        lemma_take_flatten(plain, j, k);
        assert(states.last() == states[n + 1]);
    }
}

/// The wait after `n` failed tries.
pub open spec fn after_failures(w: PipeWait, n: nat) -> PipeWait
    decreases n,
{
    if n == 0 {
        w
    } else {
        failure_step(after_failures(w, (n - 1) as nat)).0
    }
}

/// Without a wait the first failure is final, whatever follows. With one, every
/// try is followed by another after half a second: the first failure is told,
/// then one in every twenty, and the others only in detail.
pub proof fn law_pipe_wait(wait: bool, n: nat)
    requires
        n < u64::MAX,
    ensures
        ({
            let w = after_failures(PipeWait { wait, tries: 0 }, n);
            let action = failure_step(w).1;
            &&& !wait ==> action == PipeAction::Fail
            &&& wait ==> {
                &&& w.tries == n
                &&& action is Retry
                &&& action->sleep_ms == 500
                &&& action->notice is Waiting <==> n == 0
                &&& action->notice is StillWaiting <==> n > 0 && n % 20 == 0
                &&& action->notice is Retry <==> n % 20 != 0
            }
            &&& w.wait == wait
        }),
    decreases n,
{
    if n > 0 {
        law_pipe_wait(wait, (n - 1) as nat);
    }
}

/// Only a wait that saw a failure is worth a word when it ends.
pub proof fn law_pipe_success(w: PipeWait, r: bool)
    requires
        call_ensures(PipeWait::announces_success, (&w,), r),
    ensures
        r <==> w.tries > 0,
{
}

impl<Q, X, Y, D> Scanner<Q, Y, D> where
    Y: Fn(Q, &[u8]) -> Q,
    D: Fn(Q, &GksKeyMaterial, bool) -> (Result<Q, X>, Vec<u8>),
 {
    /// Whatever says what each of the functions returns describes the scanner.
    pub proof fn law_described(&self, m: ScannerModel<Q, X>)
        requires
            forall|state: Q, read: &[u8], r: Q|
                call_ensures(self.extend, (state, read), r) ==> r == (m.extend)(state, read@),
            forall|state: Q, gks: &GksKeyMaterial, at_eof: bool, r: (Result<Q, X>, Vec<u8>)|
                call_ensures(self.drain, (state, gks, at_eof), r) ==> (m.drain)(state, gks@, at_eof)
                    == (r.0, r.1@),
        ensures
            self.described_by(m),
    {
    }
}

} // verus!
