//! Segments: the files that the log is made of.
//!
//! A log is a directory of segments `wal_00001.log`, `wal_00002.log` and so on. No
//! record is split between segments: a record that would make the last segment longer
//! than the configured size starts a new one.

use crate::bytes::{push_bytes, stands_at};
use crate::error::{IoError, WalError};
use crate::page::Lsn;
use crate::wal::record::{
    found_at, law_record_is_read_back, lemma_record_size, read_record, record_bytes,
    record_readable, tells, Found, ReadOutcome, RecordView, WalRecord,
};
use vstd::prelude::*;

verus! {

/// One segment of the log.
pub struct Segment {
    pub index: u64,
    pub bytes: Vec<u8>,
}

/// What a segment holds.
#[verifier::ext_equal]
pub ghost struct SegmentView {
    pub index: u64,
    pub bytes: Seq<u8>,
}

impl Segment {
    pub open spec fn seg(&self) -> SegmentView {
        SegmentView { index: self.index, bytes: self.bytes@ }
    }
}

/// What the segments hold.
pub open spec fn segment_views(s: Seq<Segment>) -> Seq<SegmentView> {
    Seq::new(s.len(), |i: int| s[i].seg())
}

/// The records from `p` on, what ended the reading, and where that began.
pub open spec fn scan(s: Seq<u8>, p: int) -> (Seq<RecordView>, Found, int)
    decreases s.len() - p,
{
    match found_at(s, p) {
        Found::Record { record, end } => if p < end <= s.len() {
            let (rest, stop, at) = scan(s, end);
            (seq![record] + rest, stop, at)
        } else {
            (Seq::empty(), Found::End, p)
        },
        other => (Seq::empty(), other, p),
    }
}

/// The bytes of the records behind each other.
pub open spec fn chain(recs: Seq<RecordView>) -> Seq<u8>
    decreases recs.len(),
{
    if recs.len() == 0 {
        Seq::empty()
    } else {
        chain(recs.drop_last()) + record_bytes(recs.last())
    }
}

/// All records can be read back.
pub open spec fn all_readable(recs: Seq<RecordView>) -> bool {
    forall|i: int| 0 <= i < recs.len() ==> record_readable(#[trigger] recs[i])
}

proof fn lemma_chain_first(recs: Seq<RecordView>)
    requires
        recs.len() > 0,
    ensures
        chain(recs) == record_bytes(recs[0]) + chain(recs.drop_first()),
    decreases recs.len(),
{
    if recs.len() == 1 {
        reveal_with_fuel(chain, 2);
        assert(recs.drop_last() =~= Seq::<RecordView>::empty());
        assert(recs.drop_first() =~= Seq::<RecordView>::empty());
        assert(chain(recs) =~= record_bytes(recs[0]) + chain(recs.drop_first()));
    } else {
        let init = recs.drop_last();
        lemma_chain_first(init);
        let rest = recs.drop_first();
        assert(rest.drop_last() =~= init.drop_first());
        assert(rest.last() == recs.last());
        assert(record_bytes(recs[0]) + chain(init.drop_first()) + record_bytes(recs.last())
            =~= record_bytes(recs[0]) + (chain(init.drop_first()) + record_bytes(recs.last())));
    }
}

/// A segment made of whole records is read back: exactly these records, in this order,
/// and then its end.
pub proof fn law_chain_is_scanned(s: Seq<u8>, p: int, recs: Seq<RecordView>)
    requires
        0 <= p <= s.len(),
        s.skip(p) == chain(recs),
        all_readable(recs),
    ensures
        scan(s, p) == (recs, Found::End, s.len() as int),
    decreases recs.len(),
{
    if recs.len() == 0 {
        assert(s.skip(p).len() == 0);
        assert(scan(s, p).0 =~= recs);
    } else {
        lemma_chain_first(recs);
        let r = recs[0];
        let b = record_bytes(r);
        lemma_record_size(r, 0);
        crate::wal::record::lemma_blocks_size(r.blocks);
        assert(s.skip(p).len() == s.len() - p);
        assert(chain(recs).len() == b.len() + chain(recs.drop_first()).len());
        assert(stands_at(s, p, b)) by {
            assert(s.subrange(p, p + b.len() as int) =~= b) by {
                assert forall|i: int| 0 <= i < b.len() implies s[p + i] == b[i] by {
                    assert(s.skip(p)[i] == chain(recs)[i]);
                }
            }
        }
        assert(record_readable(recs[0]));
        law_record_is_read_back(s, p, r);
        let e = p + b.len() as int;
        let rest = recs.drop_first();
        assert(s.skip(e) =~= chain(rest)) by {
            assert forall|i: int| 0 <= i < s.len() - e implies s.skip(e)[i] == chain(rest)[i] by {
                assert(s.skip(p)[b.len() + i] == chain(recs)[b.len() + i]);
            }
        }
        assert forall|i: int| 0 <= i < rest.len() implies record_readable(#[trigger] rest[i]) by {
            assert(record_readable(recs[i + 1]));
        }
        law_chain_is_scanned(s, e, rest);
        assert(seq![r] + rest =~= recs);
    }
}

/// The segments after one record was written.
pub open spec fn placed(segs: Seq<SegmentView>, size: int, b: Seq<u8>) -> Seq<SegmentView> {
    let last = segs.last();
    if last.bytes.len() > 0 && last.bytes.len() + b.len() > size {
        segs.push(SegmentView { index: (last.index + 1) as u64, bytes: b })
    } else {
        segs.update(
            segs.len() - 1,
            SegmentView { index: last.index, bytes: last.bytes + b },
        )
    }
}

/// The segments after the records were written, one behind the other.
pub open spec fn written(segs: Seq<SegmentView>, size: int, batch: Seq<(Lsn, Seq<u8>)>) -> Seq<
    SegmentView,
>
    decreases batch.len(),
{
    if batch.len() == 0 {
        segs
    } else {
        placed(written(segs, size, batch.drop_last()), size, batch.last().1)
    }
}

/// A record can be written: a segment can hold it, and the number of the next segment
/// is not used up.
pub open spec fn placeable(segs: Seq<SegmentView>, size: int, b: Seq<u8>) -> bool {
    &&& b.len() <= size
    &&& segs.last().index < u64::MAX || segs.last().bytes.len() == 0 || segs.last().bytes.len()
        + b.len() <= size
}

/// The records of every segment, as a reader gives them.
pub open spec fn read_all(segs: Seq<SegmentView>) -> Seq<RecordView>
    decreases segs.len(),
{
    if segs.len() == 0 {
        Seq::empty()
    } else {
        read_all(segs.drop_last()) + scan(segs.last().bytes, 0).0
    }
}

/// Every segment is made of whole records that can be read back.
pub open spec fn whole(segs: Seq<SegmentView>) -> bool {
    forall|i: int|
        0 <= i < segs.len() ==> exists|recs: Seq<RecordView>|
            all_readable(recs) && #[trigger] chain(recs) == (#[trigger] segs[i]).bytes
}

/// Writing a record that can be read back adds it to what a reader gives, and leaves
/// the segments made of whole records: no record is split between segments.
pub proof fn law_written_is_read(segs: Seq<SegmentView>, size: int, r: RecordView)
    requires
        segs.len() > 0,
        whole(segs),
        record_readable(r),
    ensures
        whole(placed(segs, size, record_bytes(r))),
        read_all(placed(segs, size, record_bytes(r))) == read_all(segs).push(r),
{
    let b = record_bytes(r);
    let t = placed(segs, size, b);
    let last = segs.last();
    let n = segs.len() as int;
    assert(segs[n - 1] == last);
    let recs = choose|recs: Seq<RecordView>| all_readable(recs) && #[trigger] chain(recs)
        == last.bytes;
    law_chain_is_scanned_whole(last.bytes, recs);
    if last.bytes.len() > 0 && last.bytes.len() + b.len() > size {
        let one = seq![r];
        assert(chain(one) =~= b) by {
            reveal_with_fuel(chain, 2);
            assert(one.drop_last() =~= Seq::<RecordView>::empty());
        }
        assert(all_readable(one));
        law_chain_is_scanned_whole(b, one);
        assert(t.drop_last() =~= segs);
        assert(read_all(t) =~= read_all(segs).push(r));
        assert forall|i: int| 0 <= i < t.len() implies exists|rs: Seq<RecordView>|
            all_readable(rs) && #[trigger] chain(rs) == (#[trigger] t[i]).bytes by {
            if i < n {
                assert(t[i] == segs[i]);
            } else {
                assert(chain(one) == t[i].bytes);
            }
        }
    } else {
        let more = recs.push(r);
        assert(more.drop_last() =~= recs);
        assert(chain(more) == last.bytes + b);
        assert(all_readable(more)) by {
            assert forall|i: int| 0 <= i < more.len() implies record_readable(
                #[trigger] more[i],
            ) by {
                if i < recs.len() {
                    assert(record_readable(recs[i]));
                }
            }
        }
        law_chain_is_scanned_whole(last.bytes + b, more);
        assert(t.drop_last() =~= segs.drop_last());
        assert(read_all(t) =~= read_all(segs).push(r));
        assert forall|i: int| 0 <= i < t.len() implies exists|rs: Seq<RecordView>|
            all_readable(rs) && #[trigger] chain(rs) == (#[trigger] t[i]).bytes by {
            if i < n - 1 {
                assert(t[i] == segs[i]);
            } else {
                assert(chain(more) == t[i].bytes);
            }
        }
    }
}

/// What a reader gives is what stands in the segments.
pub proof fn lemma_read_in_segment(segs: Seq<SegmentView>, x: int) -> (at: (int, int))
    requires
        0 <= x < read_all(segs).len(),
    ensures
        0 <= at.0 < segs.len(),
        0 <= at.1 < scan(segs[at.0].bytes, 0).0.len(),
        read_all(segs)[x] == scan(segs[at.0].bytes, 0).0[at.1],
    decreases segs.len(),
{
    let init = segs.drop_last();
    let n = read_all(init).len();
    if x < n {
        let at = lemma_read_in_segment(init, x);
        assert(init[at.0] == segs[at.0]);
        at
    } else {
        (segs.len() - 1, x - n)
    }
}

/// What stands in the segments is what a reader gives.
pub proof fn lemma_segment_is_read(segs: Seq<SegmentView>, j: int, q: int) -> (x: int)
    requires
        0 <= j < segs.len(),
        0 <= q < scan(segs[j].bytes, 0).0.len(),
    ensures
        0 <= x < read_all(segs).len(),
        read_all(segs)[x] == scan(segs[j].bytes, 0).0[q],
    decreases segs.len(),
{
    let init = segs.drop_last();
    if j < init.len() {
        assert(init[j] == segs[j]);
        lemma_segment_is_read(init, j, q)
    } else {
        read_all(init).len() + q
    }
}

/// A whole segment is read to its end.
pub proof fn lemma_whole_segment(segs: Seq<SegmentView>, j: int)
    requires
        whole(segs),
        0 <= j < segs.len(),
    ensures
        scan(segs[j].bytes, 0).1 is End,
{
    let recs = choose|recs: Seq<RecordView>| all_readable(recs) && #[trigger] chain(recs)
        == segs[j].bytes;
    law_chain_is_scanned_whole(segs[j].bytes, recs);
}

/// An empty segment behind the others adds nothing.
pub proof fn lemma_empty_segment(segs: Seq<SegmentView>, index: u64)
    requires
        whole(segs),
    ensures
        whole(segs.push(SegmentView { index, bytes: Seq::empty() })),
        read_all(segs.push(SegmentView { index, bytes: Seq::empty() })) == read_all(segs),
{
    let t = segs.push(SegmentView { index, bytes: Seq::empty() });
    let none = Seq::<RecordView>::empty();
    assert(chain(none) =~= Seq::<u8>::empty());
    law_chain_is_scanned_whole(Seq::empty(), none);
    assert(t.drop_last() =~= segs);
    assert(read_all(t) =~= read_all(segs));
    assert forall|i: int| 0 <= i < t.len() implies exists|rs: Seq<RecordView>|
        all_readable(rs) && #[trigger] chain(rs) == (#[trigger] t[i]).bytes by {
        if i < segs.len() {
            assert(t[i] == segs[i]);
        } else {
            assert(all_readable(none) && chain(none) == t[i].bytes);
        }
    }
}

proof fn law_chain_is_scanned_whole(s: Seq<u8>, recs: Seq<RecordView>)
    requires
        s == chain(recs),
        all_readable(recs),
    ensures
        scan(s, 0) == (recs, Found::End, s.len() as int),
{
    assert(s.skip(0) =~= s);
    law_chain_is_scanned(s, 0, recs);
}

/// The bytes of a batch of records.
pub open spec fn batch_of(recs: Seq<RecordView>) -> Seq<(Lsn, Seq<u8>)> {
    Seq::new(recs.len(), |i: int| (recs[i].lsn, record_bytes(recs[i])))
}

/// Writing a batch adds its records, in order, to what a reader gives.
pub proof fn law_flushed_batch_is_read(segs: Seq<SegmentView>, size: int, recs: Seq<RecordView>)
    requires
        segs.len() > 0,
        whole(segs),
        all_readable(recs),
    ensures
        whole(written(segs, size, batch_of(recs))),
        written(segs, size, batch_of(recs)).len() > 0,
        read_all(written(segs, size, batch_of(recs))) == read_all(segs) + recs,
    decreases recs.len(),
{
    let batch = batch_of(recs);
    if recs.len() == 0 {
        assert(read_all(segs) + recs =~= read_all(segs));
    } else {
        let init = recs.drop_last();
        assert(batch.drop_last() =~= batch_of(init));
        assert forall|i: int| 0 <= i < init.len() implies record_readable(#[trigger] init[i]) by {
            assert(record_readable(recs[i]));
        }
        law_flushed_batch_is_read(segs, size, init);
        assert(record_readable(recs[recs.len() - 1]));
        law_written_is_read(written(segs, size, batch_of(init)), size, recs.last());
        assert(read_all(segs) + recs =~= (read_all(segs) + init).push(recs.last()));
    }
}

/// Writes records to the segments.
pub struct SegmentWriter {
    /// Longest segment that holds more than one record.
    pub segment_size: usize,
    pub segments: Vec<Segment>,
    /// Why the segments cannot be written, where the host has said so.
    pub broken: Option<IoError>,
}

impl SegmentWriter {
    /// What the segments hold.
    pub open spec fn segs(&self) -> Seq<SegmentView> {
        segment_views(self.segments@)
    }

    /// There is a segment to write to.
    pub open spec fn wf(&self) -> bool {
        self.segments@.len() > 0
    }

    /// Continues the last segment, or starts a new one where there is none or the last
    /// is full.
    pub fn open(segments: Vec<Segment>, segment_size: usize) -> (r: Result<Self, WalError>)
        ensures
            ({
                let segs = segment_views(segments@);
                if segs.len() == 0 {
                    &&& r matches Ok(w)
                    &&& w.segs() == seq![SegmentView { index: 1, bytes: Seq::empty() }]
                } else if segs.last().bytes.len() < segment_size {
                    &&& r matches Ok(w)
                    &&& w.segs() == segs
                } else if segs.last().index < u64::MAX {
                    &&& r matches Ok(w)
                    &&& w.segs() == segs.push(
                        SegmentView { index: (segs.last().index + 1) as u64, bytes: Seq::empty() },
                    )
                } else {
                    r == Err::<SegmentWriter, WalError>(WalError::Io(IoError::Failed))
                }
            }),
            r matches Ok(w) ==> w.wf() && w.segment_size == segment_size && w.broken is None,
    {
        let mut segments = segments;
        let ghost segs = segment_views(segments@);
        let n: usize = segments.len();
        if n == 0 {
            segments.push(Segment { index: 1, bytes: Vec::new() });
            let w = SegmentWriter { segment_size, segments, broken: None };
            assert(w.segs() =~= seq![SegmentView { index: 1, bytes: Seq::empty() }]);
            return Ok(w);
        }
        if segments[n - 1].bytes.len() >= segment_size {
            let last: u64 = segments[n - 1].index;
            if last == u64::MAX {
                return Err(WalError::Io(IoError::Failed));
            }
            segments.push(Segment { index: last + 1, bytes: Vec::new() });
            let w = SegmentWriter { segment_size, segments, broken: None };
            assert(w.segs() =~= segs.push(
                SegmentView { index: (segs.last().index + 1) as u64, bytes: Seq::empty() },
            ));
            return Ok(w);
        }
        Ok(SegmentWriter { segment_size, segments, broken: None })
    }

    /// Starts a new segment.
    fn rotate(&mut self)
        requires
            old(self).wf(),
            old(self).segs().last().index < u64::MAX,
        ensures
            final(self).wf(),
            final(self).segs() == old(self).segs().push(
                SegmentView {
                    index: (old(self).segs().last().index + 1) as u64,
                    bytes: Seq::empty(),
                },
            ),
            final(self).segment_size == old(self).segment_size,
            final(self).broken == old(self).broken,
    {
        let ghost segs = self.segs();
        let n: usize = self.segments.len();
        let last: u64 = self.segments[n - 1].index;
        self.segments.push(Segment { index: last + 1, bytes: Vec::new() });
        assert(self.segs() =~= segs.push(
            SegmentView { index: (segs.last().index + 1) as u64, bytes: Seq::empty() },
        ));
    }

    /// Writes one record. A record that no segment can hold is refused.
    pub fn write_record(&mut self, lsn: Lsn, record: &[u8]) -> (r: Result<(), WalError>)
        requires
            old(self).wf(),
        ensures
            final(self).wf(),
            final(self).segment_size == old(self).segment_size,
            final(self).broken == old(self).broken,
            record@.len() > old(self).segment_size ==> r == Err::<(), WalError>(
                WalError::RecordTooLarge {
                    lsn,
                    record_len: record@.len() as usize,
                    capacity: old(self).segment_size,
                },
            ) && final(self).segs() == old(self).segs(),
            record@.len() <= old(self).segment_size && old(self).broken is Some ==> r == Err::<
                (),
                WalError,
            >(WalError::Io(old(self).broken->0)) && final(self).segs() == old(self).segs(),
            record@.len() <= old(self).segment_size && old(self).broken is None && !placeable(
                old(self).segs(),
                old(self).segment_size as int,
                record@,
            ) ==> r == Err::<(), WalError>(WalError::Io(IoError::Failed)) && final(self).segs()
                == old(self).segs(),
            old(self).broken is None && placeable(
                old(self).segs(),
                old(self).segment_size as int,
                record@,
            ) ==> r is Ok && final(self).segs() == placed(
                old(self).segs(),
                old(self).segment_size as int,
                record@,
            ),
    {
        if record.len() > self.segment_size {
            return Err(
                WalError::RecordTooLarge {
                    lsn,
                    record_len: record.len(),
                    capacity: self.segment_size,
                },
            );
        }
        if let Some(e) = self.broken {
            return Err(WalError::Io(e));
        }
        let ghost segs = self.segs();
        let ghost target = placed(segs, self.segment_size as int, record@);
        let n: usize = self.segments.len();
        let offset: usize = self.segments[n - 1].bytes.len();
        if offset > 0 && (self.segment_size < offset || self.segment_size - offset < record.len()) {
            if self.segments[n - 1].index == u64::MAX {
                return Err(WalError::Io(IoError::Failed));
            }
            self.rotate();
        }
        let ghost before = self.segs();
        let m: usize = self.segments.len();
        let mut last = match self.segments.pop() {
            Some(s) => s,
            None => {
                return Err(WalError::Io(IoError::Failed));
            },
        };
        push_bytes(&mut last.bytes, record);
        self.segments.push(last);
        proof {
            let b = before.last();
            assert(self.segs() =~= before.update(
                before.len() - 1,
                SegmentView { index: b.index, bytes: b.bytes + record@ },
            ));
            assert(Seq::<u8>::empty() + record@ =~= record@);
            assert(self.segs() =~= target);
        }
        Ok(())
    }

    /// Makes what was written durable.
    pub fn sync(&mut self) -> (r: Result<(), WalError>)
        ensures
            *final(self) == *old(self),
            old(self).broken is None ==> r is Ok,
            old(self).broken matches Some(e) ==> r == Err::<(), WalError>(WalError::Io(e)),
    {
        match self.broken {
            Some(e) => Err(WalError::Io(e)),
            None => Ok(()),
        }
    }
}

/// Reads the records of a log, segment by segment.
pub struct WalIterator<'a> {
    pub segments: &'a Vec<Segment>,
    pub current_segment: usize,
    pub pos: usize,
}

/// Where reading goes on: past the end of a segment with the start of the next.
pub open spec fn settled_at(segs: Seq<SegmentView>, i: int, p: int) -> (int, int)
    decreases segs.len() - i,
{
    if 0 <= i < segs.len() && p >= segs[i].bytes.len() {
        settled_at(segs, i + 1, 0)
    } else {
        (i, p)
    }
}

impl<'a> WalIterator<'a> {
    /// What the segments hold.
    pub open spec fn segs(&self) -> Seq<SegmentView> {
        segment_views(self.segments@)
    }

    /// The position lies in a segment or behind the last.
    pub open spec fn wf(&self) -> bool {
        &&& self.current_segment <= self.segments@.len()
        &&& self.current_segment < self.segments@.len() ==> self.pos
            <= self.segs()[self.current_segment as int].bytes.len()
    }

    /// Starts at the first record of the first segment.
    pub fn new(segments: &'a Vec<Segment>) -> (it: Self)
        ensures
            it.wf(),
            it.segments == segments,
            it.current_segment == 0,
            it.pos == 0,
    {
        WalIterator { segments, current_segment: 0, pos: 0 }
    }

    /// Reads the next record. Gives `None` behind the last segment. After a failure,
    /// reading goes on behind the bytes that failed.
    pub fn next_record(&mut self) -> (r: Option<Result<WalRecord<'a>, WalError>>)
        requires
            old(self).wf(),
        ensures
            final(self).wf(),
            final(self).segments == old(self).segments,
            ({
                let segs = old(self).segs();
                let (i, p) = settled_at(segs, old(self).current_segment as int, old(self).pos as int);
                if i >= segs.len() {
                    r is None && final(self).current_segment == segs.len()
                } else {
                    &&& r matches Some(res)
                    &&& tells(
                        match res {
                            Ok(record) => ReadOutcome::Record { record, end: final(self).pos },
                            Err(error) => ReadOutcome::Failed { error, end: final(self).pos },
                        },
                        found_at(segs[i].bytes, p),
                        segs[i].bytes.len() as int,
                    )
                    &&& final(self).current_segment == i
                }
            }),
    {
        let ghost segs = self.segs();
        let ghost goal = settled_at(segs, self.current_segment as int, self.pos as int);
        while self.current_segment < self.segments.len()
            && self.pos >= self.segments[self.current_segment].bytes.len()
            invariant
                self.wf(),
                self.segments == old(self).segments,
                segs == self.segs(),
                goal == settled_at(segs, self.current_segment as int, self.pos as int),
            decreases self.segments@.len() - self.current_segment,
        {
            self.current_segment = self.current_segment + 1;
            self.pos = 0;
        }
        if self.current_segment >= self.segments.len() {
            return None;
        }
        let segments: &'a Vec<Segment> = self.segments;
        let bytes: &'a Vec<u8> = &segments[self.current_segment].bytes;
        match read_record(bytes.as_slice(), self.pos) {
            ReadOutcome::End => None,
            ReadOutcome::Failed { error, end } => {
                self.pos = end;
                Some(Err(error))
            },
            ReadOutcome::Record { record, end } => {
                self.pos = end;
                Some(Ok(record))
            },
        }
    }
}

} // verus!
