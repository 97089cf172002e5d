//! The write-ahead log.
//!
//! Every change is recorded in the log before it reaches the data file. A record gets
//! the next log sequence number, a logical counter that starts at 1; 0 stands for no
//! record. Records wait in a ring until a flush writes them to the segments; the log
//! knows up to which sequence number its records are durable.

pub mod answers;
pub mod buffer;
pub mod log;
pub mod names;
pub mod record;
pub mod segment;

use crate::error::{IoError, WalError};
use crate::page::Lsn;
use crate::wal::buffer::{batch_view, len_total, WalBuffer};
use crate::wal::record::{
    block_views, encode_record, found_at, record_bytes, record_readable, record_size, seq_of, size_of_record, tells,
    Block, BlockView, Found, ReadOutcome, RecordView, WalRecordType,
};
use crate::wal::segment::{
    all_readable, batch_of, law_flushed_batch_is_read, lemma_empty_segment, lemma_read_in_segment,
    lemma_segment_is_read, lemma_whole_segment, placeable, read_all, scan, segment_views, whole, written, Segment, SegmentView, SegmentWriter,
};
use vstd::prelude::*;

verus! {

broadcast use crate::bytes::group_int_bytes;

/// Bytes that wait to be written at most, unless configured otherwise.
pub const WAL_BUFFER_CAPACITY: usize = 16777216;

/// Size of a segment, unless configured otherwise.
pub const WAL_SEGMENT_SIZE: usize = 16777216;

/// What the log knows.
#[verifier::ext_equal]
pub ghost struct WalView {
    /// The sequence number of the next record.
    pub next: Lsn,
    /// The highest sequence number that is durable, once one is.
    pub flushed: Option<Lsn>,
    /// Why flushing failed, once it has.
    pub error: Option<IoError>,
    /// A flush is under way.
    pub flushing: bool,
    /// The records that wait to be written.
    pub waiting: Seq<(Lsn, Seq<u8>)>,
    /// Bytes that are free in the ring.
    pub free: int,
    /// Bytes of the whole ring.
    pub capacity: int,
    pub segment_size: int,
    pub segments: Seq<SegmentView>,
    /// Why the segments cannot be written, where the host has said so.
    pub broken: Option<IoError>,
}

/// The next sequence number and the last one seen, after the records were seen.
pub open spec fn absorb(recs: Seq<RecordView>, next: Lsn, flushed: Option<Lsn>) -> (
    Lsn,
    Option<Lsn>,
)
    decreases recs.len(),
{
    if recs.len() == 0 {
        (next, flushed)
    } else {
        let lsn = recs[0].lsn;
        absorb(
            recs.drop_first(),
            if lsn >= next {
                (lsn + 1) as u64
            } else {
                next
            },
            Some(lsn),
        )
    }
}

/// A record carries the last sequence number that there is.
pub open spec fn exhausted(recs: Seq<RecordView>) -> bool {
    exists|i: int| 0 <= i < recs.len() && #[trigger] recs[i].lsn == u64::MAX
}

/// What opening a log finds.
pub ghost enum Recovery {
    /// The log is usable; where its last segment ends in a torn record, it is cut there.
    Usable { next: Lsn, flushed: Option<Lsn>, cut: Option<int> },
    Refused(WalError),
}

/// What opening a log finds in the segments from `i` on. A record that cannot be read
/// at the physical end of the last segment was torn and is cut off; anywhere else it
/// is damage.
pub open spec fn recovery(
    segs: Seq<SegmentView>,
    i: int,
    next: Lsn,
    flushed: Option<Lsn>,
) -> Recovery
    decreases segs.len() - i,
{
    if i < 0 || i >= segs.len() {
        Recovery::Usable { next, flushed, cut: None }
    } else {
        let s = segs[i].bytes;
        let (recs, stop, at) = scan(s, 0);
        let (n, f) = absorb(recs, next, flushed);
        let last = i == segs.len() - 1;
        if exhausted(recs) {
            Recovery::Refused(WalError::InvalidLsn)
        } else {
            match stop {
                Found::Short => if last {
                    Recovery::Usable { next: n, flushed: f, cut: Some(at) }
                } else {
                    Recovery::Refused(WalError::Io(IoError::UnexpectedEof))
                },
                Found::BadType { code, end } => if last && end == s.len() {
                    Recovery::Usable { next: n, flushed: f, cut: Some(at) }
                } else {
                    Recovery::Refused(WalError::InvalidEntryType(code))
                },
                Found::BadSum { lsn, expected, actual, end } => if last && end == s.len() {
                    Recovery::Usable { next: n, flushed: f, cut: Some(at) }
                } else {
                    Recovery::Refused(WalError::ChecksumMismatch { lsn, expected, actual })
                },
                _ => recovery(segs, i + 1, n, f),
            }
        }
    }
}

/// The segments with the last one cut at the given length.
pub open spec fn cut_last(segs: Seq<SegmentView>, cut: Option<int>) -> Seq<SegmentView> {
    match cut {
        Some(at) => segs.update(
            segs.len() - 1,
            SegmentView { index: segs.last().index, bytes: segs.last().bytes.take(at) },
        ),
        None => segs,
    }
}

/// The next sequence number is above all that were seen and never goes back; the one
/// reported durable is the last one seen.
pub proof fn law_absorb(recs: Seq<RecordView>, next: Lsn, flushed: Option<Lsn>)
    requires
        !exhausted(recs),
    ensures
        absorb(recs, next, flushed).0 >= next,
        forall|i: int| 0 <= i < recs.len() ==> #[trigger] recs[i].lsn < absorb(recs, next, flushed).0,
        absorb(recs, next, flushed).1 == (if recs.len() == 0 {
            flushed
        } else {
            Some(recs.last().lsn)
        }),
    decreases recs.len(),
{
    if recs.len() > 0 {
        let rest = recs.drop_first();
        let lsn = recs[0].lsn;
        assert(lsn < u64::MAX);
        assert(!exhausted(rest)) by {
            if exhausted(rest) {
                let i = choose|i: int| 0 <= i < rest.len() && #[trigger] rest[i].lsn == u64::MAX;
                assert(recs[i + 1].lsn == u64::MAX);
            }
        }
        let n2 = if lsn >= next {
            (lsn + 1) as u64
        } else {
            next
        };
        law_absorb(rest, n2, Some(lsn));
        assert forall|i: int| 0 <= i < recs.len() implies #[trigger] recs[i].lsn < absorb(
            recs,
            next,
            flushed,
        ).0 by {
            if i > 0 {
                assert(rest[i - 1].lsn < absorb(rest, n2, Some(lsn)).0);
            }
        }
        if rest.len() > 0 {
            assert(rest.last() == recs.last());
        }
    }
}

/// Reads one segment to its end: the next sequence number, the last one seen, and the
/// failure that ended the reading with where its record began and the bytes read ended.
fn scan_segment(bytes: &Vec<u8>, next: Lsn, flushed: Option<Lsn>) -> (r: Result<
    (Lsn, Option<Lsn>, Option<(WalError, usize, usize)>),
    WalError,
>)
    ensures
        ({
            let (recs, stop, at) = scan(bytes@, 0);
            match r {
                Err(e) => exhausted(recs) && e == WalError::InvalidLsn,
                Ok((n, f, fail)) => {
                    &&& !exhausted(recs)
                    &&& (n, f) == absorb(recs, next, flushed)
                    &&& match fail {
                        None => stop is End,
                        Some((error, start, end)) => {
                            &&& start == at
                            &&& start <= bytes@.len()
                            &&& !(stop is End) && !(stop is Record)
                            &&& tells(
                                ReadOutcome::Failed { error, end },
                                stop,
                                bytes@.len() as int,
                            )
                        },
                    }
                },
            }
        }),
{
    let mut pos: usize = 0;
    let mut n: Lsn = next;
    let mut f: Option<Lsn> = flushed;
    let ghost all = scan(bytes@, 0);
    let ghost mut seen: Seq<RecordView> = Seq::empty();
    assert(Seq::<RecordView>::empty() + all.0 =~= all.0);
    loop
        invariant
            pos <= bytes@.len(),
            all == scan(bytes@, 0),
            all.0 == seen + scan(bytes@, pos as int).0,
            all.1 == scan(bytes@, pos as int).1,
            all.2 == scan(bytes@, pos as int).2,
            absorb(all.0, next, flushed) == absorb(scan(bytes@, pos as int).0, n, f),
            forall|i: int| 0 <= i < seen.len() ==> #[trigger] seen[i].lsn < u64::MAX,
        decreases bytes@.len() - pos,
    {
        let ghost here = scan(bytes@, pos as int);
        match read_here(bytes.as_slice(), pos) {
            ReadOutcome::End => {
                assert(all.0 =~= seen);
                return Ok((n, f, None));
            },
            ReadOutcome::Failed { error, end } => {
                assert(all.0 =~= seen);
                return Ok((n, f, Some((error, pos, end))));
            },
            ReadOutcome::Record { record, end } => {
                let ghost rest = scan(bytes@, end as int);
                let ghost rv = record.record();
                assert(here.0 == seq![rv] + rest.0);
                assert(here.0.drop_first() =~= rest.0);
                assert(here.0[0] == rv);
                assert(all.0[seen.len() as int] == rv);
                if record.lsn == u64::MAX {
                    assert(exhausted(all.0));
                    return Err(WalError::InvalidLsn);
                }
                if record.lsn >= n {
                    n = record.lsn + 1;
                }
                f = Some(record.lsn);
                proof {
                    assert(seen + here.0 =~= seen.push(rv) + rest.0);
                    seen = seen.push(rv);
                }
                pos = end;
            },
        }
    }
}

fn read_here<'a>(data: &'a [u8], pos: usize) -> (r: ReadOutcome<'a>)
    requires
        pos <= data.len(),
    ensures
        tells(r, found_at(data@, pos as int), data@.len() as int),
        r matches ReadOutcome::Failed { error, end } ==> pos < end <= data@.len(),
        r matches ReadOutcome::Record { record, end } ==> pos < end <= data@.len(),
{
    crate::wal::record::read_record(data, pos)
}

/// Reads all segments and cuts a torn record off the last one.
pub fn recover(segments: &mut Vec<Segment>) -> (r: Result<(Lsn, Option<Lsn>), WalError>)
    ensures
        match recovery(segment_views(old(segments)@), 0, 1, None) {
            Recovery::Usable { next, flushed, cut } => {
                &&& r == Ok::<(Lsn, Option<Lsn>), WalError>((next, flushed))
                &&& segment_views(final(segments)@) == cut_last(
                    segment_views(old(segments)@),
                    cut,
                )
            },
            Recovery::Refused(e) => {
                &&& r == Err::<(Lsn, Option<Lsn>), WalError>(e)
                &&& segment_views(final(segments)@) == segment_views(old(segments)@)
            },
        },
{
    let ghost segs = segment_views(segments@);
    let ghost goal = recovery(segs, 0, 1, None);
    let n: usize = segments.len();
    let mut next: Lsn = 1;
    let mut flushed: Option<Lsn> = None;
    let mut i: usize = 0;
    while i < n
        invariant
            i <= n,
            n == segments@.len(),
            segs == segment_views(segments@),
            segs == segment_views(old(segments)@),
            goal == recovery(segs, 0, 1, None),
            goal == recovery(segs, i as int, next, flushed),
        decreases n - i,
    {
        assert(segs[i as int].bytes == segments@[i as int].bytes@);
        match scan_segment(&segments[i].bytes, next, flushed) {
            Err(e) => {
                return Err(e);
            },
            Ok((n2, f2, None)) => {
                next = n2;
                flushed = f2;
            },
            Ok((n2, f2, Some((error, start, end)))) => {
                let len: usize = segments[i].bytes.len();
                let short: bool = match error {
                    WalError::Io(IoError::UnexpectedEof) => true,
                    _ => false,
                };
                if i == n - 1 && (short || end == len) {
                    let ghost before = segments@;
                    let mut last = match segments.pop() {
                        Some(s) => s,
                        None => {
                            return Err(WalError::InvalidLsn);
                        },
                    };
                    last.bytes.truncate(start);
                    segments.push(last);
                    proof {
                        assert(segment_views(segments@) =~= cut_last(segs, Some(start as int)));
                    }
                    return Ok((n2, f2));
                }
                return Err(error);
            },
        }
        i = i + 1;
    }
    Ok((next, flushed))
}

/// Every record of the batch can be written behind the ones before it.
pub open spec fn batch_placeable(
    segs: Seq<SegmentView>,
    size: int,
    batch: Seq<(Lsn, Seq<u8>)>,
) -> bool
    decreases batch.len(),
{
    if batch.len() == 0 {
        true
    } else {
        let init = batch.drop_last();
        &&& batch_placeable(segs, size, init)
        &&& placeable(written(segs, size, init), size, batch.last().1)
    }
}

/// The log with the records that wait written to the segments.
pub open spec fn drained(w: WalView) -> WalView {
    WalView {
        flushed: Some(w.waiting.last().0),
        waiting: Seq::empty(),
        free: w.capacity,
        segments: written(w.segments, w.segment_size, w.waiting),
        ..w
    }
}

impl WalView {
    /// Numbers of waiting records are below the next one and above the durable ones, and a
    /// segment can hold each record.
    pub open spec fn wf(self) -> bool {
        &&& self.next >= 1
        &&& self.segments.len() > 0
        &&& 0 <= self.free <= self.capacity
        &&& self.flushed matches Some(f) ==> f < self.next
        &&& forall|i: int|
            0 <= i < self.waiting.len() ==> 0 < (#[trigger] self.waiting[i]).0 < self.next
                && self.waiting[i].1.len() <= self.segment_size
        &&& forall|i: int, j: int|
            0 <= i < j < self.waiting.len() ==> self.waiting[i].0 < self.waiting[j].0
        &&& self.flushed matches Some(f) ==> forall|i: int|
            0 <= i < self.waiting.len() ==> f < (#[trigger] self.waiting[i]).0
    }

    /// No record up to `lsn` waits to be written.
    pub open spec fn written_up_to(self, lsn: Lsn) -> bool {
        forall|i: int| 0 <= i < self.waiting.len() ==> lsn < (#[trigger] self.waiting[i]).0
    }

    /// The sequence number that a flush up to `lsn` must make durable, or 0.
    pub open spec fn target(self, lsn: Lsn) -> Lsn {
        if lsn < self.next {
            lsn
        } else {
            (self.next - 1) as u64
        }
    }

    /// A flush up to `lsn` has nothing to do.
    pub open spec fn durable(self, lsn: Lsn) -> bool {
        self.target(lsn) == 0 || (self.flushed matches Some(f) && f >= self.target(lsn))
    }

    /// Nothing has failed, and the numbers of the segments do not run ahead of those of the
    /// records. So it is with a log that began with segment 1 and record 1.
    pub open spec fn ready(self) -> bool {
        &&& self.error is None
        &&& self.broken is None
        &&& self.segments.last().index + self.waiting.len() <= self.next
    }

    /// The segments take all waiting records.
    pub open spec fn writable(self) -> bool {
        self.broken is None && batch_placeable(self.segments, self.segment_size, self.waiting)
    }
}

/// The record that an append makes.
pub open spec fn new_record(
    w: WalView,
    kind: WalRecordType,
    txn_id: u64,
    blocks: Seq<BlockView>,
    main: Option<Seq<u8>>,
) -> RecordView {
    RecordView {
        lsn: w.next,
        rec_len: record_size(blocks, main) as u32,
        kind,
        txn_id,
        blocks,
        main,
    }
}

/// The outcome of an append and the log after it.
///
/// A record that no segment, or the whole ring, could hold is refused before it gets a
/// sequence number. After that the number is used up, also where an earlier flush has
/// failed or the ring is full for now.
pub open spec fn appended(
    w: WalView,
    kind: WalRecordType,
    txn_id: u64,
    blocks: Seq<BlockView>,
    main: Option<Seq<u8>>,
) -> (Result<Lsn, WalError>, WalView) {
    let size = record_size(blocks, main);
    let limit = if w.segment_size < w.capacity {
        w.segment_size
    } else {
        w.capacity
    };
    if size > w.segment_size {
        (
            Err(
                WalError::RecordTooLarge {
                    lsn: 0,
                    record_len: size as usize,
                    capacity: w.segment_size as usize,
                },
            ),
            w,
        )
    } else if size > limit {
        (
            Err(
                WalError::RecordTooLarge {
                    lsn: w.next,
                    record_len: size as usize,
                    capacity: limit as usize,
                },
            ),
            w,
        )
    } else if w.next == u64::MAX {
        (Err(WalError::InvalidLsn), w)
    } else {
        let used_up = WalView { next: (w.next + 1) as u64, ..w };
        if w.error is Some {
            (Err(WalError::FlushFailed(w.error->0)), used_up)
        } else if size > w.free {
            (
                Err(WalError::BufferFull { needed: size as usize, available: w.free as usize }),
                used_up,
            )
        } else {
            (
                Ok(w.next),
                WalView {
                    waiting: w.waiting.push(
                        (w.next, record_bytes(new_record(w, kind, txn_id, blocks, main))),
                    ),
                    free: w.free - size,
                    ..used_up
                },
            )
        }
    }
}

/// An append that succeeds gives a number that no record before it has, and the next
/// append gives a greater one. An append that fails adds no record.
pub proof fn law_append(
    w: WalView,
    kind: WalRecordType,
    txn_id: u64,
    blocks: Seq<BlockView>,
    main: Option<Seq<u8>>,
)
    requires
        w.wf(),
        0 <= record_size(blocks, main),
    ensures
        ({
            let (r, after) = appended(w, kind, txn_id, blocks, main);
            &&& after.wf()
            &&& after.next >= w.next
            &&& r matches Ok(lsn) ==> {
                &&& lsn == w.next
                &&& lsn < after.next
                &&& after.waiting.len() == w.waiting.len() + 1
                &&& forall|i: int| 0 <= i < w.waiting.len() ==> (#[trigger] w.waiting[i]).0 < lsn
                &&& w.flushed matches Some(f) ==> f < lsn
            }
            &&& r is Err ==> after.waiting == w.waiting && after.segments == w.segments
        }),
{
    let rec = new_record(w, kind, txn_id, blocks, main);
    crate::wal::record::lemma_record_size(rec, 0);
}

/// The segments as they are once all waiting records are written.
pub open spec fn full(w: WalView) -> Seq<SegmentView> {
    written(w.segments, w.segment_size, w.waiting)
}

/// The segments kept what they held, and behind it took the first of the records that
/// waited, maybe none, maybe all.
pub open spec fn segments_grew(a: WalView, b: WalView) -> bool {
    exists|k: int|
        0 <= k <= a.waiting.len() && b.segments == #[trigger] written(
            a.segments,
            a.segment_size,
            a.waiting.take(k),
        )
}

/// The step appended nothing: as long as flushing has not failed, the log has the same
/// records, whether they wait or are written. All that waited is written, or nothing is. A
/// log that was ready still is, and where flushing failed, the segments still hold what they
/// held.
pub open spec fn log_step(a: WalView, b: WalView) -> bool {
    &&& b.next == a.next
    &&& b.waiting == a.waiting || b.waiting.len() == 0
    &&& b.error is None ==> {
        &&& a.error is None
        &&& full(b) == full(a)
        &&& b.waiting == a.waiting ==> b.segments == a.segments
    }
    &&& a.ready() ==> b.ready()
    &&& b.capacity == a.capacity
    &&& b.segment_size == a.segment_size
    &&& b.free >= a.free
    &&& {
        ||| b.error == a.error && b.waiting == a.waiting && b.segments == a.segments
        ||| a.error is None && b.error is None && b.waiting.len() == 0 && b.segments == full(a)
        ||| a.error is None && b.error is Some && segments_grew(a, b)
    }
}

/// Nothing happened to the log.
pub proof fn lemma_log_still(w: WalView)
    ensures
        log_step(w, w),
{
}

/// Two such steps are one.
pub proof fn lemma_log_chain(a: WalView, b: WalView, c: WalView)
    requires
        log_step(a, b),
        log_step(b, c),
    ensures
        log_step(a, c),
{
    if c.error is Some && b.error is None {
        let k = choose|k: int|
            0 <= k <= b.waiting.len() && c.segments == #[trigger] written(
                b.segments,
                b.segment_size,
                b.waiting.take(k),
            );
        if b.waiting == a.waiting && b.segments == a.segments {
            assert(c.segments == written(a.segments, a.segment_size, a.waiting.take(k)));
        } else {
            assert(b.waiting.take(k) =~= Seq::<(Lsn, Seq<u8>)>::empty());
            assert(a.waiting.take(a.waiting.len() as int) =~= a.waiting);
            assert(c.segments == written(
                a.segments,
                a.segment_size,
                a.waiting.take(a.waiting.len() as int),
            ));
        }
    }
}

/// The outcome of a flush up to `lsn` and the log after it, where the segments take
/// what is written.
pub open spec fn flushed_up_to(w: WalView, lsn: Lsn) -> (Result<(), WalError>, WalView) {
    if w.durable(lsn) {
        (Ok(()), w)
    } else if w.error is Some {
        (Err(WalError::FlushFailed(w.error->0)), w)
    } else if w.waiting.len() == 0 {
        (Ok(()), w)
    } else {
        (Ok(()), drained(w))
    }
}

/// After a flush that succeeded, every record up to the given number that was waiting
/// is durable, and no record waits that was waiting before it unless nothing needed
/// writing.
pub proof fn law_flush(w: WalView, lsn: Lsn)
    requires
        w.wf(),
        w.error is None,
    ensures
        ({
            let (r, after) = flushed_up_to(w, lsn);
            &&& r is Ok
            &&& after.wf()
            &&& after.next == w.next
            &&& forall|i: int|
                0 <= i < w.waiting.len() && (#[trigger] w.waiting[i]).0 <= lsn && !w.durable(lsn)
                    ==> (after.flushed matches Some(f) && w.waiting[i].0 <= f)
            &&& !w.durable(lsn) ==> after.waiting.len() == 0
            &&& after.written_up_to(lsn)
        }),
{
    let after = flushed_up_to(w, lsn).1;
    lemma_written_len(w.segments, w.segment_size, w.waiting);
    assert forall|i: int|
        0 <= i < w.waiting.len() && (#[trigger] w.waiting[i]).0 <= lsn && !w.durable(
            lsn,
        ) implies (after.flushed matches Some(f) && w.waiting[i].0 <= f) by {
        if i < w.waiting.len() - 1 {
            assert(w.waiting[i].0 < w.waiting[w.waiting.len() - 1].0);
        }
    }
}

/// A flush that fails takes nothing back: a reader of the segments gives what it gave, and
/// behind it the first of the records that waited, maybe none, maybe all.
pub proof fn law_failed_flush_keeps_records(a: WalView, b: WalView, recs: Seq<RecordView>)
    requires
        a.segments.len() > 0,
        whole(a.segments),
        a.waiting == batch_of(recs),
        all_readable(recs),
        log_step(a, b),
        a.error is None,
        b.error is Some,
    ensures
        whole(b.segments),
        exists|k: int|
            0 <= k <= recs.len() && read_all(b.segments) == read_all(a.segments)
                + #[trigger] recs.take(k),
{
    let k = choose|k: int|
        0 <= k <= a.waiting.len() && b.segments == #[trigger] written(
            a.segments,
            a.segment_size,
            a.waiting.take(k),
        );
    let first = recs.take(k);
    assert(a.waiting.take(k) =~= batch_of(first));
    assert forall|i: int| 0 <= i < first.len() implies record_readable(#[trigger] first[i]) by {
        assert(record_readable(recs[i]));
    }
    law_flushed_batch_is_read(a.segments, a.segment_size, first);
}

proof fn lemma_written_len(segs: Seq<SegmentView>, size: int, batch: Seq<(Lsn, Seq<u8>)>)
    requires
        segs.len() > 0,
    ensures
        written(segs, size, batch).len() > 0,
    decreases batch.len(),
{
    if batch.len() > 0 {
        lemma_written_len(segs, size, batch.drop_last());
    }
}

/// Segments whose numbers are not used up take a batch.
proof fn lemma_batch_fits(segs: Seq<SegmentView>, size: int, batch: Seq<(Lsn, Seq<u8>)>)
    requires
        segs.len() > 0,
        segs.last().index + batch.len() <= u64::MAX,
        forall|i: int| 0 <= i < batch.len() ==> (#[trigger] batch[i]).1.len() <= size,
    ensures
        batch_placeable(segs, size, batch),
        written(segs, size, batch).len() > 0,
        written(segs, size, batch).last().index <= segs.last().index + batch.len(),
    decreases batch.len(),
{
    if batch.len() > 0 {
        let init = batch.drop_last();
        assert forall|i: int| 0 <= i < init.len() implies (#[trigger] init[i]).1.len() <= size by {
            assert(batch[i].1.len() <= size);
        }
        lemma_batch_fits(segs, size, init);
    }
}

/// A log that is ready can be flushed, and is ready then.
pub proof fn lemma_ready(w: WalView)
    requires
        w.wf(),
        w.ready(),
    ensures
        w.writable(),
        drained(w).ready(),
{
    lemma_batch_fits(w.segments, w.segment_size, w.waiting);
}

proof fn lemma_batch_prefix(
    segs: Seq<SegmentView>,
    size: int,
    batch: Seq<(Lsn, Seq<u8>)>,
    k: int,
)
    requires
        0 <= k <= batch.len(),
        batch_placeable(segs, size, batch),
    ensures
        batch_placeable(segs, size, batch.take(k)),
    decreases batch.len(),
{
    if k == batch.len() {
        assert(batch.take(k) =~= batch);
    } else {
        lemma_batch_prefix(segs, size, batch.drop_last(), k);
        assert(batch.drop_last().take(k) =~= batch.take(k));
    }
}

/// The write-ahead log.
pub struct Wal {
    pub buffer: WalBuffer,
    pub flushed_lsn: Option<Lsn>,
    pub is_flushing: bool,
    pub flush_error: Option<IoError>,
    pub writer: SegmentWriter,
    pub next_lsn: Lsn,
}

/// What a caller that wants a flush has to do.
pub enum FlushStep {
    /// Nothing; the flush ended like this.
    Done(Result<(), WalError>),
    /// Wait until the flush that is under way has ended, and ask again.
    Wait,
    /// Write these records to the segments, make them durable, and report.
    Write(Vec<(Lsn, Vec<u8>)>),
}

impl View for Wal {
    type V = WalView;

    open spec fn view(&self) -> WalView {
        WalView {
            next: self.next_lsn,
            flushed: self.flushed_lsn,
            error: self.flush_error,
            flushing: self.is_flushing,
            waiting: self.buffer@,
            free: self.buffer.bytes@.len() - self.buffer.used(),
            capacity: self.buffer.bytes@.len() as int,
            segment_size: self.writer.segment_size as int,
            segments: self.writer.segs(),
            broken: self.writer.broken,
        }
    }
}

impl Wal {
    /// The ring and the segments are in order, and so are the numbers.
    pub open spec fn wf(&self) -> bool {
        self.buffer.wf() && self.writer.wf() && self@.wf()
    }

    /// Opens the log that is made of the given segments, in the order of their numbers.
    pub fn new(segments: Vec<Segment>) -> (r: Result<Self, WalError>)
        ensures
            opens(segment_views(segments@), WAL_BUFFER_CAPACITY, WAL_SEGMENT_SIZE, r),
    {
        Self::new_with_buffer_capacity(segments, WAL_BUFFER_CAPACITY)
    }

    /// Opens the log with a ring of `buffer_capacity` bytes.
    pub fn new_with_buffer_capacity(segments: Vec<Segment>, buffer_capacity: usize) -> (r: Result<
        Self,
        WalError,
    >)
        ensures
            opens(segment_views(segments@), buffer_capacity, WAL_SEGMENT_SIZE, r),
    {
        Self::new_with_options(segments, buffer_capacity, WAL_SEGMENT_SIZE)
    }

    /// Opens the log with a ring of `buffer_capacity` bytes and segments of
    /// `segment_size`. Goes on behind the highest sequence number found. A torn record
    /// at the end is cut off; other damage is an error.
    pub fn new_with_options(
        segments: Vec<Segment>,
        buffer_capacity: usize,
        segment_size: usize,
    ) -> (r: Result<Self, WalError>)
        ensures
            opens(segment_views(segments@), buffer_capacity, segment_size, r),
    {
        let mut segments = segments;
        let ghost segs = segment_views(segments@);
        let (next_lsn, flushed_lsn) = match recover(&mut segments) {
            Ok(p) => p,
            Err(e) => {
                return Err(e);
            },
        };
        proof {
            law_recovery(segs, 0, 1, None);
        }
        let writer = match SegmentWriter::open(segments, segment_size) {
            Ok(w) => w,
            Err(e) => {
                return Err(e);
            },
        };
        let buffer = WalBuffer::with_capacity(buffer_capacity);
        Ok(
            Wal { buffer, flushed_lsn, is_flushing: false, flush_error: None, writer, next_lsn },
        )
    }

    /// The sequence number of the next record.
    pub fn next_lsn(&self) -> (lsn: Lsn)
        ensures
            lsn == self@.next,
    {
        self.next_lsn
    }

    /// The highest sequence number that is durable, or `None` before the first.
    pub fn flushed_lsn(&self) -> (lsn: Option<Lsn>)
        ensures
            lsn == self@.flushed,
    {
        self.flushed_lsn
    }

    /// Appends a record. It is not durable before it is flushed.
    pub fn append(
        &mut self,
        entry_type: WalRecordType,
        txn_id: u64,
        blocks: &[Block<'_>],
        main_data: Option<&[u8]>,
    ) -> (r: Result<Lsn, WalError>)
        requires
            old(self).wf(),
            record_size(block_views(blocks@), seq_of(main_data)) <= usize::MAX,
        ensures
            final(self).wf(),
            (r, final(self)@) == appended(
                old(self)@,
                entry_type,
                txn_id,
                block_views(blocks@),
                seq_of(main_data),
            ),
    {
        let ghost w = self@;
        let record_len: usize = size_of_record(blocks, main_data);
        proof {
            crate::wal::record::lemma_blocks_size(block_views(blocks@));
            law_append(w, entry_type, txn_id, block_views(blocks@), seq_of(main_data));
            crate::wal::record::lemma_record_size(
                new_record(w, entry_type, txn_id, block_views(blocks@), seq_of(main_data)),
                0,
            );
        }
        let segment_limit: usize = self.writer.segment_size;
        let buffer_limit: usize = self.buffer.capacity();
        let max_allowed_size: usize = if segment_limit < buffer_limit {
            segment_limit
        } else {
            buffer_limit
        };
        if record_len > segment_limit {
            return Err(WalError::RecordTooLarge { lsn: 0, record_len, capacity: segment_limit });
        }
        if record_len > max_allowed_size {
            return Err(
                WalError::RecordTooLarge {
                    lsn: self.next_lsn,
                    record_len,
                    capacity: max_allowed_size,
                },
            );
        }
        if self.next_lsn == u64::MAX {
            return Err(WalError::InvalidLsn);
        }
        let lsn: Lsn = self.next_lsn;
        self.next_lsn = lsn + 1;
        let record: Vec<u8> = encode_record(
            lsn,
            record_len as u32,
            entry_type,
            txn_id,
            blocks,
            main_data,
        );
        if let Some(e) = self.flush_error {
            return Err(WalError::FlushFailed(e));
        }
        match self.buffer.push_record(lsn, record.as_slice()) {
            Ok(()) => Ok(lsn),
            Err(e) => Err(e),
        }
    }

    /// Starts a flush up to `lsn`, where one is needed and none is under way.
    pub fn flush_step(&mut self, lsn: Lsn) -> (step: FlushStep)
        requires
            old(self).wf(),
        ensures
            final(self).wf(),
            final(self).buffer == old(self).buffer,
            final(self).writer == old(self).writer,
            ({
                let w = old(self)@;
                if w.durable(lsn) {
                    step == FlushStep::Done(Ok(())) && final(self)@ == w
                } else if w.error is Some {
                    step == FlushStep::Done(Err(WalError::FlushFailed(w.error->0)))
                        && final(self)@ == w
                } else if w.flushing {
                    step is Wait && final(self)@ == w
                } else if w.waiting.len() == 0 {
                    step == FlushStep::Done(Ok(())) && final(self)@ == w
                } else {
                    &&& step matches FlushStep::Write(batch)
                    &&& batch_view(batch@) == w.waiting
                    &&& final(self)@ == (WalView { flushing: true, ..w })
                }
            }),
    {
        let last: Lsn = self.next_lsn - 1;
        let target_lsn: Lsn = if lsn < last {
            lsn
        } else {
            last
        };
        if target_lsn == 0 {
            return FlushStep::Done(Ok(()));
        }
        if let Some(flushed) = self.flushed_lsn {
            if flushed >= target_lsn {
                return FlushStep::Done(Ok(()));
            }
        }
        if let Some(e) = self.flush_error {
            return FlushStep::Done(Err(WalError::FlushFailed(e)));
        }
        if self.is_flushing {
            return FlushStep::Wait;
        }
        if self.buffer.is_empty() {
            return FlushStep::Done(Ok(()));
        }
        let batch: Vec<(Lsn, Vec<u8>)> = self.buffer.copy_records();
        self.is_flushing = true;
        FlushStep::Write(batch)
    }

    /// Ends the flush that is under way. Where the batch of `count` records is durable,
    /// they leave the ring; otherwise the log remembers why not and takes no more
    /// records.
    pub fn finish_flush(&mut self, count: usize, result: Result<(), IoError>)
        requires
            old(self).wf(),
            old(self)@.flushing,
            0 < count <= old(self)@.waiting.len(),
        ensures
            final(self).wf(),
            final(self).writer == old(self).writer,
            ({
                let w = old(self)@;
                let after = final(self)@;
                match result {
                    Ok(()) => {
                        &&& after.waiting == w.waiting.skip(count as int)
                        &&& after.flushed == Some(w.waiting[count - 1].0)
                        &&& after.free >= w.free
                        &&& count == w.waiting.len() ==> after.free == w.capacity
                        &&& after == (WalView {
                            flushing: false,
                            waiting: after.waiting,
                            flushed: after.flushed,
                            free: after.free,
                            ..w
                        })
                    },
                    Err(e) => after == (WalView { flushing: false, error: Some(e), ..w }),
                }
            }),
    {
        let ghost w = self@;
        self.is_flushing = false;
        match result {
            Ok(()) => {
                let ghost recs = self.buffer.records@;
                let mut bytes: usize = 0;
                let mut i: usize = 0;
                let durable: Lsn = self.buffer.records[count - 1].lsn;
                let _capacity: usize = self.buffer.capacity();
                proof {
                    crate::wal::buffer::lemma_len_total_mono(recs, count as int, recs.len() as int);
                }
                while i < count
                    invariant
                        i <= count <= recs.len(),
                        recs == self.buffer.records@,
                        len_total(recs, count as int) <= usize::MAX,
                        bytes == len_total(recs, i as int),
                    decreases count - i,
                {
                    proof {
                        crate::wal::buffer::lemma_len_total_mono(recs, i + 1, count as int);
                    }
                    bytes = bytes + self.buffer.records[i].len;
                    i = i + 1;
                }
                self.buffer.consume_prefix(bytes);
                self.flushed_lsn = Some(durable);
                proof {
                    let left = self.buffer.records@;
                    crate::wal::buffer::lemma_len_total_mono(left, 0, left.len() as int);
                    assert(w.waiting[count - 1].0 == durable);
                    assert forall|i: int| 0 <= i < self@.waiting.len() implies (
                    #[trigger] self@.waiting[i]).0 < self@.next && 0 < self@.waiting[i].0 && self@.waiting[i].1.len()
                        <= self@.segment_size by {
                        assert(self@.waiting[i] == w.waiting[i + count]);
                    }
                }
            },
            Err(e) => {
                self.flush_error = Some(e);
            },
        }
    }

    /// Makes every record up to `lsn` durable. Does nothing where they are, or where
    /// there is none.
    pub fn flush_up_to(&mut self, lsn: Lsn) -> (r: Result<(), WalError>)
        requires
            old(self).wf(),
            !old(self)@.flushing,
        ensures
            final(self).wf(),
            !final(self)@.flushing,
            log_step(old(self)@, final(self)@),
            r is Ok ==> final(self)@.written_up_to(lsn),
            r is Err ==> final(self)@.error is Some,
            old(self)@.writable() ==> (r, final(self)@) == flushed_up_to(old(self)@, lsn),
            old(self)@.durable(lsn) || old(self)@.error is Some || old(self)@.waiting.len() == 0
                ==> (r, final(self)@) == flushed_up_to(old(self)@, lsn),
            !old(self)@.writable() && !(old(self)@.durable(lsn) || old(self)@.error is Some || old(
                self,
            )@.waiting.len() == 0) ==> {
                &&& final(self)@.error is Some
                &&& r == Err::<(), WalError>(WalError::FlushFailed(final(self)@.error->0))
                &&& old(self)@.broken matches Some(e) ==> final(self)@.error == Some(e)
                    && final(self)@.segments == old(self)@.segments
                &&& final(self)@.waiting == old(self)@.waiting
                &&& final(self)@.flushed == old(self)@.flushed
            },
    {
        let ghost w = self@;
        proof {
            lemma_log_still(w);
            if w.ready() {
                lemma_ready(w);
            }
        }
        let batch = match self.flush_step(lsn) {
            FlushStep::Done(r) => {
                return r;
            },
            FlushStep::Wait => {
                return Ok(());
            },
            FlushStep::Write(b) => b,
        };
        let ghost bv = batch_view(batch@);
        let result: Result<(), IoError> = write_batch(&mut self.writer, &batch);
        proof {
            lemma_written_len(w.segments, w.segment_size, bv);
        }
        self.finish_flush(batch.len(), result);
        match result {
            Ok(()) => {
                proof {
                    assert(bv.skip(bv.len() as int) =~= Seq::<(Lsn, Seq<u8>)>::empty());
                    assert(self@ =~= drained(w));
                }
                Ok(())
            },
            Err(e) => Err(WalError::FlushFailed(e)),
        }
    }
}

/// Writes a batch of records to the segments and makes them durable.
pub fn write_batch(writer: &mut SegmentWriter, batch: &Vec<(Lsn, Vec<u8>)>) -> (r: Result<
    (),
    IoError,
>)
    requires
        old(writer).wf(),
        forall|i: int|
            0 <= i < batch@.len() ==> (#[trigger] batch_view(batch@)[i]).1.len() <= old(
                writer,
            ).segment_size,
    ensures
        final(writer).wf(),
        final(writer).segment_size == old(writer).segment_size,
        final(writer).broken == old(writer).broken,
        r is Ok <==> old(writer).broken is None && batch_placeable(
            old(writer).segs(),
            old(writer).segment_size as int,
            batch_view(batch@),
        ) || (batch@.len() == 0 && old(writer).broken is None),
        r is Ok ==> final(writer).segs() == written(
            old(writer).segs(),
            old(writer).segment_size as int,
            batch_view(batch@),
        ),
        r is Err ==> (old(writer).broken matches Some(e) ==> r == Err::<(), IoError>(e)),
        old(writer).broken is Some ==> final(writer).segs() == old(writer).segs(),
        r is Err ==> exists|k: int|
            0 <= k <= batch@.len() && final(writer).segs() == #[trigger] written(
                old(writer).segs(),
                old(writer).segment_size as int,
                batch_view(batch@).take(k),
            ),
{
    let ghost bv = batch_view(batch@);
    let ghost segs = writer.segs();
    let ghost size = writer.segment_size as int;
    let mut i: usize = 0;
    assert(bv.take(0) =~= Seq::<(Lsn, Seq<u8>)>::empty());
    while i < batch.len()
        invariant
            i <= batch@.len(),
            bv == batch_view(batch@),
            writer.wf(),
            writer.segment_size == old(writer).segment_size,
            writer.broken == old(writer).broken,
            segs == old(writer).segs(),
            size == writer.segment_size,
            batch_placeable(segs, size, bv.take(i as int)),
            writer.segs() == written(segs, size, bv.take(i as int)),
            writer.broken is Some ==> i == 0,
            forall|j: int| 0 <= j < bv.len() ==> (#[trigger] bv[j]).1.len() <= size,
        decreases batch@.len() - i,
    {
        proof {
            assert(bv.take(i + 1).drop_last() =~= bv.take(i as int));
            assert(bv[i as int].1.len() <= size);
        }
        match writer.write_record(batch[i].0, batch[i].1.as_slice()) {
            Ok(()) => {},
            Err(e) => {
                proof {
                    if batch_placeable(segs, size, bv) {
                        lemma_batch_prefix(segs, size, bv, i + 1);
                    }
                    assert(writer.segs() == written(segs, size, bv.take(i as int)));
                }
                return Err(
                    match e {
                        WalError::Io(x) => x,
                        _ => IoError::Failed,
                    },
                );
            },
        }
        i = i + 1;
    }
    proof {
        assert(bv.take(i as int) =~= bv);
    }
    match writer.sync() {
        Ok(()) => Ok(()),
        Err(WalError::Io(x)) => Err(x),
        Err(_) => Err(IoError::Failed),
    }
}

/// What opening a log gives.
pub open spec fn opens(
    segs: Seq<SegmentView>,
    buffer_capacity: usize,
    segment_size: usize,
    r: Result<Wal, WalError>,
) -> bool {
    match recovery(segs, 0, 1, None) {
        Recovery::Refused(e) => r == Err::<Wal, WalError>(e),
        Recovery::Usable { next, flushed, cut } => {
            let kept = cut_last(segs, cut);
            let full = kept.len() > 0 && kept.last().bytes.len() >= segment_size;
            if full && kept.last().index == u64::MAX {
                r == Err::<Wal, WalError>(WalError::Io(IoError::Failed))
            } else {
                &&& r matches Ok(w)
                &&& w.wf()
                &&& w@ == (WalView {
                    next,
                    flushed,
                    error: None,
                    flushing: false,
                    waiting: Seq::empty(),
                    free: buffer_capacity as int,
                    capacity: buffer_capacity as int,
                    segment_size: segment_size as int,
                    segments: if kept.len() == 0 {
                        seq![SegmentView { index: 1, bytes: Seq::empty() }]
                    } else if full {
                        kept.push(
                            SegmentView {
                                index: (kept.last().index + 1) as u64,
                                bytes: Seq::empty(),
                            },
                        )
                    } else {
                        kept
                    },
                    broken: None,
                })
            }
        },
    }
}

/// Recovery never takes the next sequence number back, and what it reports durable is
/// below it.
pub proof fn law_recovery(segs: Seq<SegmentView>, i: int, next: Lsn, flushed: Option<Lsn>)
    requires
        0 <= i,
        flushed matches Some(f) ==> f < next,
    ensures
        recovery(segs, i, next, flushed) matches Recovery::Usable {
            next: n,
            flushed: f,
            cut,
        } ==> n >= next && (f matches Some(x) ==> x < n),
    decreases segs.len() - i,
{
    if i < segs.len() {
        let s = segs[i].bytes;
        let (recs, stop, at) = scan(s, 0);
        if !exhausted(recs) {
            law_absorb(recs, next, flushed);
            let (n, f) = absorb(recs, next, flushed);
            if recs.len() > 0 {
                assert(recs[recs.len() - 1].lsn < n);
            }
            law_recovery(segs, i + 1, n, f);
        }
    }
}

/// In a log of whole records nothing is torn, and the next number is above theirs.
proof fn lemma_whole_recovery(segs: Seq<SegmentView>, i: int, next: Lsn, flushed: Option<Lsn>)
    requires
        0 <= i <= segs.len(),
        whole(segs),
        forall|j: int|
            0 <= j < segs.len() ==> !exhausted(scan((#[trigger] segs[j]).bytes, 0).0),
    ensures
        recovery(segs, i, next, flushed) matches Recovery::Usable { next: n, cut, .. } && cut is None
            && n >= next && forall|j: int, q: int|
            #![trigger scan(segs[j].bytes, 0).0[q]]
            i <= j < segs.len() && 0 <= q < scan(segs[j].bytes, 0).0.len() ==> scan(
                segs[j].bytes,
                0,
            ).0[q].lsn < n,
    decreases segs.len() - i,
{
    if i < segs.len() {
        let recs = scan(segs[i].bytes, 0).0;
        lemma_whole_segment(segs, i);
        assert(!exhausted(scan(segs[i].bytes, 0).0));
        law_absorb(recs, next, flushed);
        let (n, f) = absorb(recs, next, flushed);
        lemma_whole_recovery(segs, i + 1, n, f);
    }
}

/// A log of whole records is opened with all of them, and goes on behind their numbers.
pub proof fn law_whole_log_is_reopened(
    segs: Seq<SegmentView>,
    buffer_capacity: usize,
    segment_size: usize,
    w: Wal,
)
    requires
        whole(segs),
        segs.len() > 0,
        !exhausted(read_all(segs)),
        opens(segs, buffer_capacity, segment_size, Ok(w)),
    ensures
        whole(w@.segments),
        read_all(w@.segments) == read_all(segs),
        w@.segments.len() > 0,
        w@.waiting.len() == 0,
        w@.error is None,
        0 < w@.next,
        forall|x: int| 0 <= x < read_all(segs).len() ==> (#[trigger] read_all(segs)[x]).lsn < w@.next,
{
    let recs = read_all(segs);
    assert forall|j: int| 0 <= j < segs.len() implies !exhausted(
        scan((#[trigger] segs[j]).bytes, 0).0,
    ) by {
        let here = scan(segs[j].bytes, 0).0;
        if exhausted(here) {
            let q = choose|q: int| 0 <= q < here.len() && #[trigger] here[q].lsn == u64::MAX;
            let x = lemma_segment_is_read(segs, j, q);
            assert(recs[x].lsn == u64::MAX);
        }
    }
    lemma_whole_recovery(segs, 0, 1, None);
    assert forall|x: int| 0 <= x < recs.len() implies (#[trigger] recs[x]).lsn < w@.next by {
        let at = lemma_read_in_segment(segs, x);
        assert(scan(segs[at.0].bytes, 0).0[at.1].lsn < w@.next);
    }
    if segs.last().bytes.len() >= segment_size {
        lemma_empty_segment(segs, (segs.last().index + 1) as u64);
    }
}

} // verus!
