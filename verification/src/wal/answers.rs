//! What the log answers: when it takes a record, what a flush makes durable, what a reader makes
//! of torn and damaged records, and what opening a log gives.

use crate::bytes::{
    lemma_same_u16, lemma_same_u32, lemma_same_u64, same, u32_at, u32_bytes, u64_at, u64_bytes,
};
use crate::crc::{crc32_of, law_changed_byte_changes_checksum};
use crate::error::{IoError, WalError};
use crate::page::Lsn;
use crate::wal::names::last_end;
use crate::wal::record::{
    found_at, law_record_is_read_back, lemma_record_size, opt_range, parse_block, parse_blocks,
    record_bytes, record_readable, tells, BlockView, Found, ReadOutcome, RecordView, WalRecordType,
};
use crate::wal::segment::{
    lemma_whole_segment, placed, read_all, scan, settled_at, whole, written, SegmentView,
};
use crate::wal::{
    absorb, appended, cut_last, exhausted, flushed_up_to, law_absorb, new_record, opens, recovery,
    Recovery, Wal, WalView,
};
use vstd::prelude::*;

verus! {

broadcast use crate::bytes::group_int_bytes;

/// A record is taken exactly where a segment and the ring can hold it, there is a number for it,
/// no flush has failed, and the ring has that many bytes free. It gets the next number and waits
/// behind the others, as the bytes of the record that was asked for. Where it is not taken, the
/// error says why, and nothing that waits changes.
pub proof fn law_append_answers(
    w: WalView,
    kind: WalRecordType,
    txn_id: u64,
    blocks: Seq<BlockView>,
    main: Option<Seq<u8>>,
    rec: RecordView,
)
    requires
        w.wf(),
        rec.lsn == w.next,
        rec.rec_len == record_bytes(rec).len() as u32,
        rec.kind == kind,
        rec.txn_id == txn_id,
        rec.blocks == blocks,
        rec.main == main,
    ensures
        ({
            let n = record_bytes(rec).len() as int;
            let (r, after) = appended(w, kind, txn_id, blocks, main);
            let too_large = n > w.segment_size || n > w.capacity;
            let sized = n <= usize::MAX && w.capacity <= usize::MAX && 0 <= w.segment_size
                <= usize::MAX;
            &&& r is Ok <==> !too_large && w.next < u64::MAX && w.error is None && n <= w.free
            &&& r matches Ok(lsn) ==> {
                &&& lsn == w.next
                &&& after.next == w.next + 1
                &&& after.waiting == w.waiting.push((w.next, record_bytes(rec)))
                &&& after.free == w.free - n
            }
            &&& r is Err ==> after.waiting == w.waiting && after.free == w.free
            &&& after.flushed == w.flushed
            &&& after.error == w.error
            &&& after.segments == w.segments
            &&& after.capacity == w.capacity
            &&& after.segment_size == w.segment_size
            &&& after.broken == w.broken
            &&& r matches Err(e) ==> {
                &&& e is RecordTooLarge <==> too_large
                &&& too_large && sized ==> e->record_len == n && e->capacity == (if n > w.segment_size {
                    w.segment_size
                } else {
                    w.capacity
                })
                &&& e is InvalidLsn <==> !too_large && w.next == u64::MAX
                &&& e is RecordTooLarge || e is InvalidLsn ==> after.next == w.next
                &&& !(e is RecordTooLarge || e is InvalidLsn) ==> after.next == w.next + 1
                &&& !too_large && w.next < u64::MAX && w.error is Some ==> e
                    == WalError::FlushFailed(w.error->0)
                &&& !too_large && w.next < u64::MAX && w.error is None ==> {
                    &&& e matches WalError::BufferFull { needed, available }
                    &&& sized ==> needed == n && available == w.free
                }
            }
        }),
{
    lemma_record_size(rec, 0);
    assert(new_record(w, kind, txn_id, blocks, main) == rec);
}

/// A flush has something to do exactly where a number up to the given one was handed out that is
/// not durable yet. It fails exactly where a flush has failed before. One that succeeds leaves no
/// record waiting, frees the ring, and makes the numbers up to the last that waited durable.
pub proof fn law_flush_answers(w: WalView, lsn: Lsn, n: Lsn)
    requires
        w.wf(),
        0 < n <= lsn,
        n < w.next,
        w.flushed matches Some(f) ==> f < n,
    ensures
        ({
            let (r, after) = flushed_up_to(w, lsn);
            &&& r is Ok <==> w.error is None
            &&& w.error matches Some(e) ==> r == Err::<(), WalError>(WalError::FlushFailed(e))
                && after == w
            &&& w.error is None && w.waiting.len() > 0 ==> {
                &&& after.waiting.len() == 0
                &&& after.free == w.capacity
                &&& after.flushed == Some(w.waiting.last().0)
                &&& after.segments == written(w.segments, w.segment_size, w.waiting)
            }
            &&& w.waiting.len() == 0 ==> after == w
            &&& after.next == w.next
            &&& after.error == w.error
            &&& after.capacity == w.capacity
            &&& after.segment_size == w.segment_size
        }),
{
}

/// Where all numbers up to the given one are durable, a flush does nothing.
pub proof fn law_flush_of_what_is_durable(w: WalView, lsn: Lsn)
    requires
        w.wf(),
        lsn == 0 || w.next == 1 || (w.flushed matches Some(f) && (lsn <= f || w.next <= f + 1)),
    ensures
        flushed_up_to(w, lsn) == (Ok::<(), WalError>(()), w),
{
}

/// The bytes of all segments behind each other.
pub open spec fn all_bytes(segs: Seq<SegmentView>) -> Seq<u8>
    decreases segs.len(),
{
    if segs.len() == 0 {
        Seq::empty()
    } else {
        all_bytes(segs.drop_last()) + segs.last().bytes
    }
}

/// The bytes of the records of a batch behind each other.
pub open spec fn batch_bytes(batch: Seq<(Lsn, Seq<u8>)>) -> Seq<u8>
    decreases batch.len(),
{
    if batch.len() == 0 {
        Seq::empty()
    } else {
        batch_bytes(batch.drop_last()) + batch.last().1
    }
}

/// A record goes behind all others, whole and into one segment: into the last one where it fits,
/// else into a new one with the next number. What was written stays.
pub proof fn law_record_is_placed(segs: Seq<SegmentView>, size: int, b: Seq<u8>)
    requires
        segs.len() > 0,
        segs.last().index < u64::MAX,
        b.len() <= size,
    ensures
        ({
            let t = placed(segs, size, b);
            let n = segs.len() as int;
            let fits = segs.last().bytes.len() + b.len() <= size || segs.last().bytes.len() == 0;
            &&& all_bytes(t) == all_bytes(segs) + b
            &&& t.len() == (if fits {
                n
            } else {
                n + 1
            })
            &&& t.take(n - 1) == segs.take(n - 1)
            &&& fits ==> t[n - 1].index == segs[n - 1].index && t[n - 1].bytes == segs[n - 1].bytes
                + b
            &&& !fits ==> t[n - 1] == segs[n - 1] && t[n].index == segs[n - 1].index + 1
                && t[n].bytes == b
            &&& segs.last().bytes.len() <= size ==> t.last().bytes.len() <= size
        }),
{
    let t = placed(segs, size, b);
    if t.len() == segs.len() {
        assert(t.drop_last() =~= segs.drop_last());
        assert(all_bytes(t) =~= all_bytes(segs) + b);
    } else {
        assert(t.drop_last() =~= segs);
    }
    assert(t.take(segs.len() - 1) =~= segs.take(segs.len() - 1));
}

/// Writing a batch puts its records, in their order, behind all that was written, and keeps every
/// segment to its size.
pub proof fn law_batch_is_written(
    segs: Seq<SegmentView>,
    size: int,
    batch: Seq<(Lsn, Seq<u8>)>,
)
    requires
        segs.len() > 0,
        segs.last().index + batch.len() < u64::MAX,
        forall|i: int| 0 <= i < segs.len() ==> (#[trigger] segs[i]).bytes.len() <= size,
        forall|i: int| 0 <= i < batch.len() ==> (#[trigger] batch[i]).1.len() <= size,
    ensures
        ({
            let t = written(segs, size, batch);
            &&& all_bytes(t) == all_bytes(segs) + batch_bytes(batch)
            &&& segs.len() <= t.len() <= segs.len() + batch.len()
            &&& forall|i: int| 0 <= i < t.len() ==> (#[trigger] t[i]).bytes.len() <= size
            &&& forall|i: int| segs.len() - 1 <= i < t.len() ==> (#[trigger] t[i]).index
                == segs.last().index + (i - (segs.len() - 1))
            &&& forall|i: int| 0 <= i < segs.len() - 1 ==> #[trigger] t[i] == segs[i]
        }),
    decreases batch.len(),
{
    if batch.len() == 0 {
        assert(all_bytes(segs) + batch_bytes(batch) =~= all_bytes(segs));
    } else {
        let init = batch.drop_last();
        assert forall|i: int| 0 <= i < init.len() implies (#[trigger] init[i]).1.len() <= size by {
            assert(init[i] == batch[i]);
        }
        law_batch_is_written(segs, size, init);
        let m = written(segs, size, init);
        let b = batch.last().1;
        assert(batch[batch.len() - 1] == batch.last());
        assert(m[m.len() - 1].index == segs.last().index + (m.len() - segs.len()));
        assert(m[m.len() - 1].bytes.len() <= size);
        law_record_is_placed(m, size, b);
        let t = placed(m, size, b);
        assert(all_bytes(segs) + batch_bytes(init) + b =~= all_bytes(segs) + batch_bytes(batch));
        let n = m.len() - 1;
        assert forall|i: int| 0 <= i < n implies #[trigger] t[i] == m[i] by {
            assert(t.take(n)[i] == m.take(n)[i]);
        }
        assert forall|i: int| 0 <= i < t.len() implies (#[trigger] t[i]).bytes.len() <= size by {
            if i < n {
                assert(m[i].bytes.len() <= size);
            }
        }
        assert forall|i: int| segs.len() - 1 <= i < t.len() implies (#[trigger] t[i]).index
            == segs.last().index + (i - (segs.len() - 1)) by {
            if i < m.len() {
                assert(m[i].index == segs.last().index + (i - (segs.len() - 1)));
            }
        }
    }
}

/// Two byte strings that agree up to `m` are read alike as far as that: the same blocks.
proof fn lemma_same_blocks(s: Seq<u8>, t: Seq<u8>, m: int, p: int, k: int)
    requires
        0 <= p <= m <= s.len(),
        m <= t.len(),
        same(s, t, 0, m),
        parse_blocks(s, p, k) is Some,
        (parse_blocks(s, p, k)->0).1 <= m,
    ensures
        parse_blocks(t, p, k) == parse_blocks(s, p, k),
        p <= (parse_blocks(s, p, k)->0).1,
    decreases k,
{
    if k > 0 {
        let (bs, q) = parse_blocks(s, p, k - 1)->0;
        let (b, e) = parse_block(s, q)->0;
        assert(q + 11 <= e);
        lemma_same_blocks(s, t, m, p, k - 1);
        assert(s[q + 8] == t[q + 8]);
        lemma_same_u64(s, t, q);
        lemma_same_u16(s, t, q + 9);
        let f = if b.flags % 2 == 1 {
            crate::page::PAGE_SIZE as int
        } else {
            0
        };
        let d = e - (q + 11 + f);
        assert(opt_range(s, q + 11, f) == opt_range(t, q + 11, f)) by {
            assert(s.subrange(q + 11, q + 11 + f) =~= t.subrange(q + 11, q + 11 + f));
        }
        assert(opt_range(s, q + 11 + f, d) == opt_range(t, q + 11 + f, d)) by {
            assert(s.subrange(q + 11 + f, e) =~= t.subrange(q + 11 + f, e));
        }
    }
}

/// Two byte strings that agree up to the end of a record hold the same record there.
proof fn lemma_same_record(s: Seq<u8>, t: Seq<u8>, m: int, p: int)
    requires
        0 <= p,
        m <= s.len(),
        m <= t.len(),
        same(s, t, 0, m),
        found_at(s, p) matches Found::Record { end, .. } && end <= m,
    ensures
        found_at(t, p) == found_at(s, p),
{
    let k = s[p + 13] as int;
    let (blocks, q) = parse_blocks(s, p + 24, k)->0;
    lemma_blocks_forward(s, p + 24, k);
    lemma_same_u16(s, t, p + 22);
    let mlen = crate::bytes::u16_at(s, p + 22) as int;
    lemma_same_blocks(s, t, m, p + 24, k);
    assert(s[p + 12] == t[p + 12] && s[p + 13] == t[p + 13]);
    lemma_same_u64(s, t, p);
    lemma_same_u32(s, t, p + 8);
    lemma_same_u64(s, t, p + 14);
    lemma_same_u32(s, t, q + mlen);
    assert(s.subrange(p, q + mlen) =~= t.subrange(p, q + mlen));
    assert(s.subrange(q, q + mlen) =~= t.subrange(q, q + mlen));
}

/// Blocks end behind where they begin.
proof fn lemma_blocks_forward(s: Seq<u8>, p: int, k: int)
    ensures
        parse_blocks(s, p, k) matches Some((bs, q)) ==> p <= q && (p <= s.len() ==> q <= s.len()),
    decreases k,
{
    if k > 0 {
        lemma_blocks_forward(s, p, k - 1);
    }
}

/// A record ends behind where it begins, and within the bytes.
proof fn lemma_record_forward(s: Seq<u8>, p: int)
    ensures
        found_at(s, p) matches Found::Record { end, .. } ==> p + 28 <= end <= s.len(),
{
    lemma_blocks_forward(s, p + 24, s[p + 13] as int);
}

/// A record that a crash tore, at whatever byte, is found to be short: it is never taken for a
/// record.
pub proof fn law_torn_record_is_noticed(before: Seq<u8>, r: RecordView, n: int)
    requires
        record_readable(r),
        0 < n < record_bytes(r).len(),
    ensures
        found_at(before + record_bytes(r).take(n), before.len() as int) is Short,
{
    let all = record_bytes(r);
    let s = before + all;
    let t = before + all.take(n);
    let p = before.len() as int;
    assert(s.subrange(p, p + all.len()) =~= all);
    law_record_is_read_back(s, p, r);
    lemma_record_size(r, 0);
    assert(same(t, s, 0, t.len() as int));
    if t.len() >= p + 24 {
        let k = t[p + 13] as int;
        assert(t[p + 12] == s[p + 12] && t[p + 13] == s[p + 13]);
        lemma_same_u16(t, s, p + 22);
        if parse_blocks(t, p + 24, k) is Some {
            lemma_blocks_forward(t, p + 24, k);
            lemma_same_blocks(t, s, t.len() as int, p + 24, k);
        }
    } else if t.len() >= p + 13 {
        assert(t[p + 12] == s[p + 12]);
    }
}

/// What is taken for a record carries the checksum of its bytes. So where one byte of a record is
/// changed, what stands there is not taken for a record of the same length.
pub proof fn law_changed_record_is_noticed(s: Seq<u8>, p: int, i: int, b: u8)
    requires
        0 <= p,
        found_at(s, p) is Record,
        p <= i < found_at(s, p)->Record_end,
        s[i] != b,
    ensures
        found_at(s.update(i, b), p) matches Found::Record { end, .. } ==> end != found_at(
            s,
            p,
        )->Record_end,
{
    let t = s.update(i, b);
    let e = found_at(s, p)->Record_end;
    lemma_record_forward(s, p);
    if found_at(t, p) matches Found::Record { end, .. } && end == e {
        let x = s.subrange(p, e - 4);
        let y = t.subrange(p, e - 4);
        assert(u32_at(s, e - 4) == crc32_of(x));
        assert(u32_at(t, e - 4) == crc32_of(y));
        if i < e - 4 {
            assert(y =~= x.update(i - p, b));
            law_changed_byte_changes_checksum(x, i - p, b);
            lemma_same_u32(s, t, e - 4);
        } else {
            assert(x =~= y);
            crate::bytes::lemma_u32_spelled(s, e - 4);
            crate::bytes::lemma_u32_spelled(t, e - 4);
            assert(s.subrange(e - 4, e)[i - (e - 4)] == s[i]);
            assert(t.subrange(e - 4, e)[i - (e - 4)] == b);
        }
    }
}

/// The records that are read up to where reading stops are all that the bytes up to there hold.
proof fn lemma_scan_cut(s: Seq<u8>, p: int)
    requires
        0 <= p <= s.len(),
    ensures
        ({
            let (recs, stop, at) = scan(s, p);
            &&& p <= at <= s.len()
            &&& scan(s.take(at), p) == (recs, Found::End, at)
            &&& stop is End <==> at == s.len()
            &&& !(stop is Record)
        }),
    decreases s.len() - p,
{
    let (recs, stop, at) = scan(s, p);
    lemma_record_forward(s, p);
    match found_at(s, p) {
        Found::Record { record, end } => {
            lemma_scan_cut(s, end);
            let t = s.take(at);
            assert(same(s, t, 0, at));
            lemma_same_record(s, t, at, p);
        },
        _ => {
            assert(recs =~= Seq::<RecordView>::empty());
        },
    }
}

/// What stands behind whole records is read behind them.
proof fn lemma_scan_more(s: Seq<u8>, x: Seq<u8>, p: int)
    requires
        0 <= p <= s.len(),
        scan(s, p).1 is End,
    ensures
        ({
            let (more, stop, at) = scan(s + x, s.len() as int);
            scan(s + x, p) == (scan(s, p).0 + more, stop, at)
        }),
    decreases s.len() - p,
{
    lemma_scan_cut(s, p);
    lemma_record_forward(s, p);
    let t = s + x;
    let more = scan(t, s.len() as int).0;
    match found_at(s, p) {
        Found::Record { record, end } => {
            lemma_scan_more(s, x, end);
            assert(same(s, t, 0, s.len() as int));
            lemma_same_record(s, t, s.len() as int, p);
            let rest = scan(s, end).0;
            assert(seq![record] + (rest + more) =~= seq![record] + rest + more);
        },
        _ => {
            assert(scan(s, p).0 + more =~= more);
        },
    }
}

/// What reading the records of a log leaves is what reading its parts one after the other leaves.
proof fn lemma_absorb_more(
    a: Seq<RecordView>,
    b: Seq<RecordView>,
    next: Lsn,
    flushed: Option<Lsn>,
)
    ensures
        absorb(a + b, next, flushed) == absorb(
            b,
            absorb(a, next, flushed).0,
            absorb(a, next, flushed).1,
        ),
    decreases a.len(),
{
    if a.len() == 0 {
        assert(a + b =~= b);
    } else {
        assert((a + b).drop_first() =~= a.drop_first() + b);
        let lsn = a[0].lsn;
        let n: Lsn = if lsn >= next {
            (lsn + 1) as u64
        } else {
            next
        };
        lemma_absorb_more(a.drop_first(), b, n, Some(lsn));
    }
}

/// The next number is the first one, or follows one that was read.
proof fn lemma_absorb_tight(recs: Seq<RecordView>, next: Lsn, flushed: Option<Lsn>)
    requires
        !exhausted(recs),
    ensures
        absorb(recs, next, flushed).0 == next || exists|x: int|
            0 <= x < recs.len() && (#[trigger] recs[x]).lsn + 1 == absorb(recs, next, flushed).0,
    decreases recs.len(),
{
    if recs.len() > 0 {
        let rest = recs.drop_first();
        let lsn = recs[0].lsn;
        assert(lsn < u64::MAX);
        lemma_not_exhausted(recs, 1);
        assert(rest =~= recs.skip(1));
        let n: Lsn = if lsn >= next {
            (lsn + 1) as u64
        } else {
            next
        };
        lemma_absorb_tight(rest, n, Some(lsn));
        let last = absorb(rest, n, Some(lsn)).0;
        if last != n {
            let x = choose|x: int| 0 <= x < rest.len() && (#[trigger] rest[x]).lsn + 1 == last;
            assert(recs[x + 1].lsn + 1 == last);
        } else if last != next {
            assert(recs[0].lsn + 1 == last);
        }
    }
}

proof fn lemma_not_exhausted(recs: Seq<RecordView>, n: int)
    requires
        !exhausted(recs),
        0 <= n <= recs.len(),
    ensures
        !exhausted(recs.skip(n)),
{
    let rest = recs.skip(n);
    if exhausted(rest) {
        let i = choose|i: int| 0 <= i < rest.len() && #[trigger] rest[i].lsn == u64::MAX;
        assert(recs[i + n].lsn == u64::MAX);
    }
}

proof fn lemma_exhausted_parts(a: Seq<RecordView>, b: Seq<RecordView>)
    ensures
        exhausted(a + b) == (exhausted(a) || exhausted(b)),
{
    let c = a + b;
    if exhausted(a) {
        let i = choose|i: int| 0 <= i < a.len() && #[trigger] a[i].lsn == u64::MAX;
        assert(c[i].lsn == u64::MAX);
    }
    if exhausted(b) {
        let i = choose|i: int| 0 <= i < b.len() && #[trigger] b[i].lsn == u64::MAX;
        assert(c[a.len() + i].lsn == u64::MAX);
    }
    if exhausted(c) {
        let i = choose|i: int| 0 <= i < c.len() && #[trigger] c[i].lsn == u64::MAX;
        if i < a.len() {
            assert(a[i].lsn == u64::MAX);
        } else {
            assert(b[i - a.len()].lsn == u64::MAX);
        }
    }
}

/// What ends the reading of the bytes reaches to their end: a record may have been torn there.
pub open spec fn torn(s: Seq<u8>) -> bool {
    match scan(s, 0).1 {
        Found::Short => true,
        Found::BadType { end, .. } => end == s.len(),
        Found::BadSum { end, .. } => end == s.len(),
        _ => false,
    }
}

/// The segment is read to its end, or it is the last and ends in a torn record.
pub open spec fn sane(segs: Seq<SegmentView>, j: int) -> bool {
    scan(segs[j].bytes, 0).1 is End || j == segs.len() - 1 && torn(segs[j].bytes)
}

/// The error tells what ends the reading of the bytes.
pub open spec fn told(s: Seq<u8>, e: WalError) -> bool {
    match scan(s, 0).1 {
        Found::Short => e == WalError::Io(IoError::UnexpectedEof),
        Found::BadType { code, .. } => e == WalError::InvalidEntryType(code),
        Found::BadSum { lsn, expected, actual, .. } => e == (WalError::ChecksumMismatch {
            lsn,
            expected,
            actual,
        }),
        _ => false,
    }
}

proof fn lemma_recovery(segs: Seq<SegmentView>, i: int, next: Lsn, flushed: Option<Lsn>)
    requires
        0 <= i <= segs.len(),
        (next, flushed) == absorb(read_all(segs.take(i)), 1, None),
        !exhausted(read_all(segs.take(i))),
    ensures
        match recovery(segs, i, next, flushed) {
            Recovery::Usable { next: n, flushed: f, cut } => {
                &&& (n, f) == absorb(read_all(segs), 1, None)
                &&& !exhausted(read_all(segs))
                &&& forall|j: int| i <= j < segs.len() ==> #[trigger] sane(segs, j)
                &&& cut == (if i < segs.len() && torn(segs.last().bytes) {
                    Some(scan(segs.last().bytes, 0).2)
                } else {
                    None
                })
            },
            Recovery::Refused(e) => {
                ||| e == WalError::InvalidLsn && exhausted(read_all(segs))
                ||| exists|j: int|
                    i <= j < segs.len() && !(#[trigger] sane(segs, j)) && told(segs[j].bytes, e)
            },
        },
    decreases segs.len() - i,
{
    if i == segs.len() {
        assert(segs.take(i) =~= segs);
    } else {
        let s = segs[i].bytes;
        let (recs, stop, at) = scan(s, 0);
        let so_far = read_all(segs.take(i));
        let (n, f) = absorb(recs, next, flushed);
        assert(segs.take(i + 1).drop_last() =~= segs.take(i));
        lemma_absorb_more(so_far, recs, 1, None);
        lemma_exhausted_parts(so_far, recs);
        lemma_scan_cut(s, 0);
        if exhausted(recs) {
            lemma_read_more(segs, i + 1);
        } else if stop is End {
            lemma_recovery(segs, i + 1, n, f);
            assert(sane(segs, i));
        } else {
            if i == segs.len() - 1 {
                assert(segs.take(i + 1) =~= segs);
            }
            if !sane(segs, i) {
                assert(told(segs[i].bytes, recovery(segs, i, next, flushed)->Refused_0));
            }
        }
    }
}

/// More segments hold no fewer records.
proof fn lemma_read_more(segs: Seq<SegmentView>, i: int)
    requires
        0 <= i <= segs.len(),
        exhausted(read_all(segs.take(i))),
    ensures
        exhausted(read_all(segs)),
    decreases segs.len(),
{
    if i == segs.len() {
        assert(segs.take(i) =~= segs);
    } else {
        assert(segs.drop_last().take(i) =~= segs.take(i));
        lemma_read_more(segs.drop_last(), i);
        lemma_exhausted_parts(read_all(segs.drop_last()), scan(segs.last().bytes, 0).0);
    }
}

/// A log is opened exactly where no record has the last number, and every segment is read to its
/// end, but for a record that may have been torn at the end of the last. Then no record that can
/// be read is lost, nothing else is left, the next number follows the highest, and the last record
/// is durable. Where a log is refused, the error tells of a segment that is damaged, or of the last
/// number.
pub proof fn law_log_is_opened(segs: Seq<SegmentView>)
    ensures
        recovery(segs, 0, 1, None) is Usable <==> !exhausted(read_all(segs)) && (forall|j: int|
            0 <= j < segs.len() ==> #[trigger] sane(segs, j)),
        match recovery(segs, 0, 1, None) {
            Recovery::Usable { next, flushed, cut } => {
                let recs = read_all(segs);
                let kept = cut_last(segs, cut);
                &&& read_all(kept) == recs
                &&& kept.len() == segs.len()
                &&& forall|j: int| 0 <= j < kept.len() ==> scan((#[trigger] kept[j]).bytes, 0).1 is End
                &&& forall|j: int| 0 <= j < kept.len() ==> (#[trigger] kept[j]).index == segs[j].index
                &&& cut is Some <==> segs.len() > 0 && torn(segs.last().bytes)
                &&& forall|x: int| 0 <= x < recs.len() ==> (#[trigger] recs[x]).lsn < next
                &&& next == 1 || exists|x: int| 0 <= x < recs.len() && (#[trigger] recs[x]).lsn + 1
                    == next
                &&& flushed == (if recs.len() == 0 {
                    None
                } else {
                    Some(recs.last().lsn)
                })
            },
            Recovery::Refused(e) => {
                ||| e == WalError::InvalidLsn && exhausted(read_all(segs))
                ||| exists|j: int|
                    0 <= j < segs.len() && !(#[trigger] sane(segs, j)) && told(segs[j].bytes, e)
            },
        },
{
    let none = Seq::<SegmentView>::empty();
    assert(segs.take(0) =~= none);
    assert(read_all(none) =~= Seq::<RecordView>::empty());
    lemma_recovery(segs, 0, 1, None);
    let recs = read_all(segs);
    match recovery(segs, 0, 1, None) {
        Recovery::Usable { next, flushed, cut } => {
            law_absorb(recs, 1, None);
            lemma_absorb_tight(recs, 1, None);
            let kept = cut_last(segs, cut);
            if cut is Some {
                lemma_scan_cut(segs.last().bytes, 0);
                assert(kept.drop_last() =~= segs.drop_last());
            }
            assert forall|j: int| 0 <= j < kept.len() implies scan(
                (#[trigger] kept[j]).bytes,
                0,
            ).1 is End by {
                assert(sane(segs, j));
            }
        },
        Recovery::Refused(e) => {
            if !exhausted(recs) {
                let j = choose|j: int|
                    0 <= j < segs.len() && !(#[trigger] sane(segs, j)) && told(segs[j].bytes, e);
                assert(!sane(segs, j));
            }
        },
    }
}

/// A log whose last write was torn, at whatever byte, is opened as it was before that write.
pub proof fn law_torn_write_is_cut(segs: Seq<SegmentView>, r: RecordView, n: int)
    requires
        segs.len() > 0,
        whole(segs),
        !exhausted(read_all(segs)),
        record_readable(r),
        0 < n < record_bytes(r).len(),
    ensures
        ({
            let last = segs.last();
            let t = segs.update(
                segs.len() - 1,
                SegmentView { bytes: last.bytes + record_bytes(r).take(n), ..last },
            );
            &&& recovery(t, 0, 1, None) matches Recovery::Usable { cut, .. }
            &&& cut_last(t, cut) == segs
        }),
{
    let last = segs.last();
    let x = record_bytes(r).take(n);
    let s = last.bytes + x;
    let t = segs.update(segs.len() - 1, SegmentView { bytes: s, ..last });
    law_torn_record_is_noticed(last.bytes, r, n);
    lemma_whole_segment(segs, segs.len() - 1);
    lemma_scan_more(last.bytes, x, 0);
    lemma_scan_cut(last.bytes, 0);
    assert(scan(s, last.bytes.len() as int).0 =~= Seq::<RecordView>::empty());
    assert(t.drop_last() =~= segs.drop_last());
    assert(read_all(t) =~= read_all(segs));
    law_log_is_opened(t);
    assert forall|j: int| 0 <= j < t.len() implies #[trigger] sane(t, j) by {
        lemma_whole_segment(segs, j);
    }
    assert(torn(t.last().bytes));
    assert(segs.take(0) =~= t.take(0));
    assert(read_all(t.take(0)) =~= Seq::<RecordView>::empty());
    lemma_recovery(t, 0, 1, None);
    let cut = recovery(t, 0, 1, None)->cut;
    assert(cut == Some(last.bytes.len() as int));
    assert(s.take(last.bytes.len() as int) =~= last.bytes);
    assert(cut_last(t, cut) =~= segs);
}

/// Cutting a segment behind the last record of a type keeps the records up to that one, and there is
/// such a place exactly where a record of the type can be read.
pub proof fn law_cut_behind_last(s: Seq<u8>, kind: WalRecordType)
    ensures
        ({
            let recs = scan(s, 0).0;
            match last_end(s, 0, kind) {
                Some(c) => exists|k: int|
                    #![trigger recs.take(k + 1)]
                    {
                        &&& 0 <= k < recs.len()
                        &&& recs[k].kind == kind
                        &&& scan(s.take(c), 0) == (recs.take(k + 1), Found::End, c)
                        &&& forall|j: int| k < j < recs.len() ==> (#[trigger] recs[j]).kind != kind
                    },
                None => forall|j: int| 0 <= j < recs.len() ==> (#[trigger] recs[j]).kind != kind,
            }
        }),
{
    lemma_last_end(s, 0, kind);
    if last_end(s, 0, kind) is Some {
        let recs = scan(s, 0).0;
        let k = lemma_last_end_at(s, 0, kind);
        assert(scan(s.take(last_end(s, 0, kind)->0), 0).0 == recs.take(k + 1));
    }
}

proof fn lemma_last_end(s: Seq<u8>, p: int, kind: WalRecordType)
    requires
        0 <= p <= s.len(),
    ensures
        ({
            let recs = scan(s, p).0;
            last_end(s, p, kind) is None <==> forall|j: int|
                0 <= j < recs.len() ==> (#[trigger] recs[j]).kind != kind
        }),
    decreases s.len() - p,
{
    lemma_record_forward(s, p);
    if let Found::Record { record, end } = found_at(s, p) {
        lemma_last_end(s, end, kind);
        let recs = scan(s, p).0;
        let rest = scan(s, end).0;
        assert(recs == seq![record] + rest);
        assert(recs[0] == record);
        assert forall|j: int| 0 <= j < rest.len() implies #[trigger] rest[j] == recs[j + 1] by {}
        if forall|j: int| 0 <= j < rest.len() ==> (#[trigger] rest[j]).kind != kind {
            assert forall|j: int| 0 < j < recs.len() implies (#[trigger] recs[j]).kind != kind by {
                assert(rest[j - 1] == recs[j]);
            }
        }
    }
}

proof fn lemma_last_end_at(s: Seq<u8>, p: int, kind: WalRecordType) -> (k: int)
    requires
        0 <= p <= s.len(),
        last_end(s, p, kind) is Some,
    ensures
        ({
            let recs = scan(s, p).0;
            let c = last_end(s, p, kind)->0;
            &&& 0 <= k < recs.len()
            &&& recs[k].kind == kind
            &&& p < c <= s.len()
            &&& scan(s.take(c), p) == (recs.take(k + 1), Found::End, c)
            &&& forall|j: int| k < j < recs.len() ==> (#[trigger] recs[j]).kind != kind
        }),
    decreases s.len() - p,
{
    lemma_record_forward(s, p);
    let record = found_at(s, p)->record;
    let end = found_at(s, p)->Record_end;
    let recs = scan(s, p).0;
    let rest = scan(s, end).0;
    let c = last_end(s, p, kind)->0;
    let t = s.take(c);
    assert(recs == seq![record] + rest);
    if last_end(s, end, kind) is Some {
        let k = lemma_last_end_at(s, end, kind);
        assert(same(s, t, 0, c));
        lemma_same_record(s, t, c, p);
        assert(seq![record] + rest.take(k + 1) =~= recs.take(k + 2));
        assert forall|j: int| k + 1 < j < recs.len() implies (#[trigger] recs[j]).kind != kind by {
            assert(rest[j - 1] == recs[j]);
        }
        k + 1
    } else {
        lemma_last_end(s, end, kind);
        assert(same(s, t, 0, c));
        lemma_same_record(s, t, c, p);
        assert(scan(t, end).0 =~= Seq::<RecordView>::empty());
        assert(seq![record] + Seq::<RecordView>::empty() =~= recs.take(1));
        assert forall|j: int| 0 < j < recs.len() implies (#[trigger] recs[j]).kind != kind by {
            assert(rest[j - 1] == recs[j]);
        }
        0
    }
}

/// The types of records are numbered in this order.
pub proof fn law_record_types(t: WalRecordType)
    ensures
        0 <= t.code() < 12,
        seq![
            WalRecordType::Insert,
            WalRecordType::SetXMax,
            WalRecordType::Commit,
            WalRecordType::Abort,
            WalRecordType::LeafSplit,
            WalRecordType::InternalSPlit,
            WalRecordType::InsertDownLink,
            WalRecordType::NewRoot,
            WalRecordType::PageCompact,
            WalRecordType::MarkHalfDead,
            WalRecordType::UnlinkPage,
            WalRecordType::Checkpoint,
        ][t.code() as int] == t,
{
}

/// The fields of a record stand where its format puts them: the number first, then the length, the
/// type, the number of blocks, the transaction and the length of the main data; the checksum of all
/// that is last.
pub proof fn law_record_layout(r: RecordView)
    requires
        record_readable(r),
    ensures
        ({
            let b = record_bytes(r);
            let n = b.len() as int;
            &&& u64_at(b, 0) == r.lsn
            &&& u32_at(b, 8) == r.rec_len
            &&& b[12] == r.kind.code()
            &&& b[13] == r.blocks.len()
            &&& u64_at(b, 14) == r.txn_id
            &&& n >= 28
            &&& u32_at(b, n - 4) == crc32_of(b.take(n - 4))
        }),
{
    let b = record_bytes(r);
    assert(b.subrange(0, b.len() as int) =~= b);
    lemma_record_size(r, 0);
    law_record_is_read_back(b, 0, r);
    lemma_record_forward(b, 0);
    let n = b.len() as int;
    assert(b.subrange(0, n - 4) =~= b.take(n - 4));
    let h1 = u64_bytes(r.lsn);
    let h2 = h1 + u32_bytes(r.rec_len);
    assert(b[12] == (h2 + seq![r.kind.code()])[12]);
    assert(b[13] == (h2 + seq![r.kind.code()] + seq![r.blocks.len() as u8])[13]);
}

/// What a reader is told is what stands there.
pub proof fn law_reader_is_told(r: ReadOutcome<'_>, found: Found, len: int)
    requires
        tells(r, found, len),
    ensures
        found is End <==> r is End,
        found is Record <==> r is Record,
        found is Record ==> r->record.record() == found->record && r->Record_end
            == found->Record_end,
        found is Short ==> r->error == WalError::Io(IoError::UnexpectedEof),
        found matches Found::BadType { code, .. } ==> r->error == WalError::InvalidEntryType(code),
        found matches Found::BadSum { lsn, expected, actual, .. } ==> r->error == (
        WalError::ChecksumMismatch { lsn, expected, actual }),
{
}

/// A reader of the log passes over the segments that it has read to their end, and over no other.
pub proof fn law_reader_goes_on(segs: Seq<SegmentView>, i: int, p: int, k: int)
    requires
        0 <= i <= segs.len(),
    ensures
        ({
            let (j, q) = settled_at(segs, i, p);
            &&& i <= j <= segs.len()
            &&& j == i ==> q == p
            &&& j > i ==> q == 0 && p >= segs[i].bytes.len()
            &&& i < k < j ==> segs[k].bytes.len() == 0
            &&& j < segs.len() ==> q < segs[j].bytes.len()
        }),
    decreases segs.len() - i,
{
    if i < segs.len() && p >= segs[i].bytes.len() {
        law_reader_goes_on(segs, i + 1, 0, k);
    }
}

/// A log that was opened holds the records that could be read, and no others, and goes on behind
/// them: in the last segment where it has room, else in a new one with the next number. Nothing
/// waits, and the ring is free.
pub proof fn law_opened_log_goes_on(
    segs: Seq<SegmentView>,
    buffer_capacity: usize,
    segment_size: usize,
    w: Wal,
)
    requires
        opens(segs, buffer_capacity, segment_size, Ok(w)),
    ensures
        read_all(w@.segments) == read_all(segs),
        forall|x: int|
            0 <= x < read_all(segs).len() ==> (#[trigger] read_all(segs)[x]).lsn < w@.next,
        w@.flushed == (if read_all(segs).len() == 0 {
            None
        } else {
            Some(read_all(segs).last().lsn)
        }),
        w@.waiting.len() == 0,
        w@.free == buffer_capacity,
        w@.capacity == buffer_capacity,
        w@.segment_size == segment_size,
        w@.error is None,
        w@.broken is None,
        w@.segments.len() > 0,
        w@.segments.last().bytes.len() < segment_size || w@.segments.last().bytes.len() == 0,
        segs.len() == 0 ==> w@.segments.len() == 1 && w@.segments[0].index == 1,
        segs.len() > 0 ==> segs.len() <= w@.segments.len() <= segs.len() + 1,
        w@.segments.len() > segs.len() > 0 ==> w@.segments.last().index == segs.last().index + 1,
        forall|j: int|
            0 <= j < segs.len() ==> (#[trigger] w@.segments[j]).index == segs[j].index,
{
    law_log_is_opened(segs);
    let cut = recovery(segs, 0, 1, None)->cut;
    let kept = cut_last(segs, cut);
    let t = w@.segments;
    let none = Seq::<u8>::empty();
    assert(scan(none, 0).0 =~= Seq::<RecordView>::empty());
    if kept.len() == 0 {
        assert(t.drop_last() =~= segs);
        assert(read_all(t) =~= read_all(segs));
    } else if t.len() > kept.len() {
        assert(t.drop_last() =~= kept);
        assert(read_all(t) =~= read_all(kept));
    }
}

} // verus!
