//! Recovery: what a restart makes of the data file and the log.
//!
//! The log is read once from its first record to its last. Every change that it records is
//! repeated on the pages that have not seen it, and the commit log is rebuilt: a transaction
//! with a commit record has committed, and one that the log names without a commit record
//! counts as aborted. Nothing is undone: what aborted transactions wrote stays in the pages,
//! where nobody sees it.

pub mod answers;
pub mod checks;
pub mod clog;
pub mod laws;
pub mod redo;
pub mod replay;

use crate::page::Lsn;
use crate::recovery::redo::{bytes_of, LoggedBlock};
use crate::wal::record::{
    read_record, seq_of, Block, BlockView, ReadOutcome, RecordView, WalRecord, WalRecordType,
};
use crate::wal::segment::{read_all, scan, segment_views, Segment, SegmentView};
use vstd::prelude::*;

verus! {

/// A record of the log, held on its own.
pub struct LoggedRecord {
    pub lsn: Lsn,
    pub rec_len: u32,
    pub kind: WalRecordType,
    pub txn_id: u64,
    pub blocks: Vec<LoggedBlock>,
    pub main: Option<Vec<u8>>,
}

/// What the blocks hold.
pub open spec fn logged_blocks(bs: Seq<LoggedBlock>) -> Seq<BlockView> {
    Seq::new(bs.len(), |i: int| bs[i].block())
}

impl LoggedRecord {
    /// What the record holds.
    pub open spec fn record(&self) -> RecordView {
        RecordView {
            lsn: self.lsn,
            rec_len: self.rec_len,
            kind: self.kind,
            txn_id: self.txn_id,
            blocks: logged_blocks(self.blocks@),
            main: bytes_of(self.main),
        }
    }
}

/// What the records hold.
pub open spec fn records_of(rs: Seq<LoggedRecord>) -> Seq<RecordView> {
    Seq::new(rs.len(), |i: int| rs[i].record())
}

fn own_bytes(o: Option<&[u8]>) -> (v: Option<Vec<u8>>)
    ensures
        bytes_of(v) == seq_of(o),
{
    match o {
        Some(b) => Some(vstd::slice::slice_to_vec(b)),
        None => None,
    }
}

fn own_record(r: &WalRecord<'_>) -> (out: LoggedRecord)
    ensures
        out.record() == r.record(),
{
    let mut blocks: Vec<LoggedBlock> = Vec::new();
    let mut i: usize = 0;
    while i < r.blocks.len()
        invariant
            i <= r.blocks@.len(),
            blocks@.len() == i,
            forall|j: int| 0 <= j < i ==> (#[trigger] blocks@[j]).block() == r.blocks@[j].block(),
        decreases r.blocks@.len() - i,
    {
        let b: &Block<'_> = &r.blocks[i];
        blocks.push(
            LoggedBlock {
                page_id: b.page_id,
                flags: b.blk_flags,
                fpi: own_bytes(b.fpi),
                data: own_bytes(b.data),
            },
        );
        i = i + 1;
    }
    let out = LoggedRecord {
        lsn: r.lsn,
        rec_len: r.rec_len,
        kind: r.entry_type,
        txn_id: r.txn_id,
        blocks,
        main: own_bytes(r.main_data),
    };
    assert(out.record().blocks =~= r.record().blocks);
    out
}

/// Appends the records of a segment.
fn read_segment(bytes: &Vec<u8>, out: &mut Vec<LoggedRecord>)
    ensures
        records_of(final(out)@) == records_of(old(out)@) + scan(bytes@, 0).0,
{
    let ghost all = scan(bytes@, 0).0;
    let ghost start = records_of(out@);
    let mut pos: usize = 0;
    assert(start + all =~= records_of(out@) + scan(bytes@, 0).0);
    loop
        invariant
            pos <= bytes@.len(),
            start + all == records_of(out@) + scan(bytes@, pos as int).0,
        ensures
            start + all == records_of(out@),
        decreases bytes@.len() - pos,
    {
        match read_record(bytes.as_slice(), pos) {
            ReadOutcome::Record { record, end } => {
                let ghost before = records_of(out@);
                let ghost rest = scan(bytes@, end as int).0;
                out.push(own_record(&record));
                proof {
                    assert(scan(bytes@, pos as int).0 == seq![record.record()] + rest);
                    assert(records_of(out@) =~= before.push(record.record()));
                    assert(before + (seq![record.record()] + rest) =~= records_of(out@) + rest);
                }
                pos = end;
            },
            _ => {
                assert(records_of(out@) + scan(bytes@, pos as int).0 =~= records_of(out@));
                break;
            },
        }
    }
}

/// All records of the log, from the oldest to the latest.
pub fn read_log(segments: &Vec<Segment>) -> (out: Vec<LoggedRecord>)
    ensures
        records_of(out@) == read_all(segment_views(segments@)),
{
    let mut out: Vec<LoggedRecord> = Vec::new();
    let mut i: usize = 0;
    let ghost segs = segment_views(segments@);
    assert(segs.take(0) =~= Seq::<SegmentView>::empty());
    assert(records_of(out@) =~= Seq::<RecordView>::empty());
    while i < segments.len()
        invariant
            i <= segments@.len(),
            segs == segment_views(segments@),
            records_of(out@) == read_all(segs.take(i as int)),
        decreases segments@.len() - i,
    {
        assert(segs[i as int].bytes == segments@[i as int].bytes@);
        read_segment(&segments[i].bytes, &mut out);
        assert(segs.take(i + 1).drop_last() =~= segs.take(i as int));
        i = i + 1;
    }
    assert(segs.take(segs.len() as int) =~= segs);
    out
}

} // verus!
