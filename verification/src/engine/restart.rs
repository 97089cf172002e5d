//! What a restart gives back.
//!
//! A database that is opened again from the data file and the log which an engine left holds
//! what the engine held, and knows how the transactions ended that the log names.

use crate::buffer_pool::manager::{lemma_beyond, lemma_page_len, BufferPoolManager};
use crate::disk::DiskView;
use crate::engine::txn::{commit_logged, commit_outcome};
use crate::engine::{begins, Engine};
use crate::index::floor::{bare, fallen, lands};
use crate::index::trail::{
    calm, calmed, fits, kept, lemma_backed, lemma_stands, log_records, page_kept, page_stands,
    stands_in,
};
use crate::index::tree::{leaf_parts, lemma_loose, lemma_same_meta, loose, node_wf, tree_wf, Shape};
use crate::page::meta::root_of;
use crate::page::{plain, PageId};
use crate::recovery::clog::{law_no_id_is_reused, lemma_verdict, names, rebuilt, verdict};
use crate::recovery::redo::{lemma_state, state_of, PageState};
use crate::recovery::replay::{named, recovered};
use crate::transaction::Transaction;
use crate::transaction_manager::TransactionStatus;
use crate::types::{Key, Value};
use crate::wal::record::{RecordView, WalRecordType};
use crate::wal::segment::{law_written_is_read, read_all};
use crate::wal::{
    appended, full, law_append, law_flush, law_whole_log_is_reopened, log_step, new_record, opens,
    Wal, WalView,
};
use vstd::prelude::*;

verus! {

/// An engine that was opened from the data file and the log.
pub open spec fn reopened<K: Key, V: Value>(d: DiskView, w: WalView, e: Engine<K, V>) -> bool {
    let recs = read_all(w.segments);
    &&& d.count > 0
    &&& !names(recs, u64::MAX)
    &&& e.tm() == rebuilt(recs)
    &&& e.index.pool.wf()
    &&& d.count <= e.index.pool.next_page_id
    &&& log_step(w, e.index.pool.wal@)
    &&& forall|id: u64| #[trigger]
        recovered(d, recs, id) == Some(state_of(e.index.pool.page(id)))
    &&& root_of(e.index.pool.page(0)) == Some(e.index.root)
    &&& forall|sh: Shape| #[trigger]
        tree_wf::<K, V>(e.index.pool, e.index.root, sh) ==> {
            &&& e.wf()
            &&& e.index.parts() == leaf_parts(e.index.pool, sh)
            &&& e.index.trail@.floor == e.index.parts()
            &&& fits(d, w) && w.waiting.len() == 0 && e.index.pool.wal@.error is None
                ==> !e.index.trail@.parted
        }
}

/// Everything that the engine did is in the data file or in the segments of the log.
pub open spec fn safe<K: Key, V: Value>(e: Engine<K, V>) -> bool {
    &&& e.wf()
    &&& e.index.rooted()
    &&& !e.index.trail@.parted
    &&& e.index.pool.wal@.error is None
    &&& e.index.pool.wal@.waiting.len() == 0
}

/// The pages hold the same, up to the mark of a split that awaits its downlink and to their
/// log sequence numbers.
pub open spec fn alike(a: BufferPoolManager, b: BufferPoolManager) -> bool {
    forall|id: u64| bare(state_of(#[trigger] b.page(id))) == bare(state_of(a.page(id)))
}

/// Alike pages hold the same tree.
proof fn lemma_alike<K: Key, V: Value>(
    a: BufferPoolManager,
    b: BufferPoolManager,
    root: PageId,
    sh: Shape,
)
    requires
        a.wf(),
        b.wf(),
        alike(a, b),
        tree_wf::<K, V>(a, root, sh),
    ensures
        tree_wf::<K, V>(b, root, loose(sh)),
        leaf_parts(b, loose(sh)) == leaf_parts(a, sh),
{
    lemma_loose::<K, V>(a, root, sh);
    let sh = loose(sh);
    assert forall|l: int, i: int|
        0 <= l < sh.levels.len() && 0 <= i < sh.levels[l].len() implies #[trigger] node_wf::<K, V>(
        b,
        sh,
        l,
        i,
    ) by {
        assert(node_wf::<K, V>(a, sh, l, i));
        let id = sh.levels[l][i];
        assert(bare(state_of(b.page(id))) == bare(state_of(a.page(id))));
        lemma_page_len(b, id);
        if b.next_page_id <= id {
            lemma_beyond(b, id);
            lemma_state(crate::page::zero_page());
        }
    }
    assert(leaf_parts(b, sh) =~= leaf_parts(a, sh)) by {
        assert forall|i: int| 0 <= i < sh.levels[0].len() implies leaf_parts(b, sh)[i]
            == leaf_parts(a, sh)[i] by {
            let id = sh.levels[0][i];
            assert(node_wf::<K, V>(a, sh, 0, i) && node_wf::<K, V>(b, sh, 0, i));
            assert(bare(state_of(b.page(id))) == bare(state_of(a.page(id))));
        }
    }
}

/// Alike pages name the same root.
proof fn lemma_alike_root(a: BufferPoolManager, b: BufferPoolManager)
    requires
        a.wf(),
        b.wf(),
        alike(a, b),
        root_of(a.page(0)) is Some,
    ensures
        root_of(b.page(0)) == root_of(a.page(0)),
{
    assert(bare(state_of(b.page(0))) == bare(state_of(a.page(0))));
    lemma_page_len(a, 0);
    lemma_page_len(b, 0);
    lemma_same_meta(a.page(0));
    lemma_same_meta(b.page(0));
}

/// The data file and the segments of a safe engine belong together, and the log repeated on
/// the data file gives its pages.
proof fn lemma_safe<K: Key, V: Value>(e: Engine<K, V>)
    requires
        safe(e),
    ensures
        ({
            let p = e.index.pool;
            let recs = read_all(p.wal@.segments);
            &&& log_records(p.wal@) == recs
            &&& fits(p.disk@, p.wal@)
            &&& forall|id: u64| #[trigger]
                calmed(recovered(p.disk@, recs, id)) == Some(calm(state_of(p.page(id))))
        }),
{
    reveal(kept);
    let p = e.index.pool;
    let open = e.index.trail@.open;
    lemma_backed(p.wal@);
    assert forall|id: u64| #[trigger]
        calmed(recovered(p.disk@, log_records(p.wal@), id)) == Some(calm(state_of(p.page(id)))) by {
        assert(page_kept(p, open, id));
    }
    assert forall|id: PageId| named(
        log_records(p.wal@),
        state_of(plain(#[trigger] p.disk@.content(id))).lsn(),
    ) by {
        assert(page_kept(p, open, id));
    }
}

/// A restart gives everything back: where all that an engine did is in the data file or in
/// the log, the engine that is opened from them has the same root and the same leaves with
/// the same versions in them, and knows of each transaction how it ended by the log. And
/// with that, everything that the new engine holds is in the data file or in the log too.
pub proof fn law_restart_gives_all_back<K: Key, V: Value>(
    e: Engine<K, V>,
    capacity: usize,
    segment_size: usize,
    w: Wal,
    after: Engine<K, V>,
)
    requires
        safe(e),
        opens(e.index.pool.wal@.segments, capacity, segment_size, Ok(w)),
        reopened(e.index.pool.disk@, w@, after),
    ensures
        after.wf(),
        after.index.rooted(),
        after.index.root == e.index.root,
        after.index.parts() == e.index.parts(),
        after.tm() == rebuilt(read_all(e.index.pool.wal@.segments)),
        after.index.pool.wal@.error is None ==> !after.index.trail@.parted,
{
    let p = e.index.pool;
    let q = after.index.pool;
    let segs = p.wal@.segments;
    let recs = read_all(segs);
    lemma_safe(e);
    law_whole_log_is_reopened(segs, capacity, segment_size, w);
    assert forall|id: u64| bare(state_of(#[trigger] q.page(id))) == bare(state_of(p.page(id))) by {
        assert(calmed(recovered(p.disk@, recs, id)) == Some(calm(state_of(p.page(id)))));
        assert(recovered(p.disk@, recs, id) == Some(state_of(q.page(id))));
    }
    lemma_alike_root(p, q);
    lemma_alike::<K, V>(p, q, e.index.root, e.index.shape@);
    assert(fits(p.disk@, w@)) by {
        lemma_backed(w@);
        assert forall|id: PageId| named(
            log_records(w@),
            state_of(plain(#[trigger] p.disk@.content(id))).lsn(),
        ) by {}
    }
}

/// The log that a safe engine leaves is the log that the next one finds.
pub proof fn law_restart_log<K: Key, V: Value>(
    e: Engine<K, V>,
    capacity: usize,
    segment_size: usize,
    w: Wal,
    after: Engine<K, V>,
)
    requires
        safe(e),
        opens(e.index.pool.wal@.segments, capacity, segment_size, Ok(w)),
        reopened(e.index.pool.disk@, w@, after),
    ensures
        log_records(e.index.pool.wal@) == read_all(e.index.pool.wal@.segments),
        after.index.pool.wal@.error is None ==> log_records(after.index.pool.wal@) == read_all(
            e.index.pool.wal@.segments,
        ),
        after.tm() == rebuilt(read_all(e.index.pool.wal@.segments)),
        !names(read_all(e.index.pool.wal@.segments), u64::MAX),
{
    lemma_safe(e);
    law_whole_log_is_reopened(e.index.pool.wal@.segments, capacity, segment_size, w);
    assert(full(w@) == w@.segments);
}

/// The log of a safe engine fits its data file: opening them again is not refused for what
/// they hold, but for a transaction with the last id that there is.
pub proof fn law_restart_is_not_refused<K: Key, V: Value>(
    e: Engine<K, V>,
    capacity: usize,
    segment_size: usize,
    w: Wal,
)
    requires
        safe(e),
        opens(e.index.pool.wal@.segments, capacity, segment_size, Ok(w)),
    ensures
        forall|id: u64| #[trigger]
            recovered(e.index.pool.disk@, read_all(w@.segments), id) is Some,
        crate::engine::names_root(recovered(e.index.pool.disk@, read_all(w@.segments), 0)),
{
    let p = e.index.pool;
    let recs = read_all(p.wal@.segments);
    lemma_safe(e);
    law_whole_log_is_reopened(p.wal@.segments, capacity, segment_size, w);
    assert forall|id: u64| #[trigger] recovered(p.disk@, recs, id) is Some by {
        assert(calmed(recovered(p.disk@, recs, id)) == Some(calm(state_of(p.page(id)))));
    }
    assert(calmed(recovered(p.disk@, recs, 0)) == Some(calm(state_of(p.page(0)))));
    lemma_page_len(p, 0);
    lemma_same_meta(p.page(0));
}

/// The data file is one that could be the data file.
pub proof fn law_data_file_stands<K: Key, V: Value>(e: Engine<K, V>)
    requires
        e.wf(),
        !e.index.trail@.parted,
        e.index.pool.wal@.error is None,
    ensures
        stands_in(e.index.pool.disk@, e.index.pool, e.index.trail@),
{
    reveal(lands);
    lemma_stands(e.index.pool, e.index.trail@);
}

/// Pages of two data files that could be make one that could be. So it is while the pages
/// that the engine has written are saved one by one over those of an earlier moment.
pub proof fn law_mixed_pages_stand<K: Key, V: Value>(
    e: Engine<K, V>,
    c: DiskView,
    d: DiskView,
    mixed: DiskView,
)
    requires
        stands_in(c, e.index.pool, e.index.trail@),
        stands_in(d, e.index.pool, e.index.trail@),
        forall|id: u64|
            plain(#[trigger] mixed.content(id)) == plain(c.content(id)) || plain(mixed.content(id))
                == plain(d.content(id)),
    ensures
        stands_in(mixed, e.index.pool, e.index.trail@),
{
    reveal(stands_in);
    let p = e.index.pool;
    let trail = e.index.trail@;
    assert forall|id: u64| #[trigger] page_stands(mixed, p, trail, id) by {
        assert(page_stands(c, p, trail, id));
        assert(page_stands(d, p, trail, id));
        assert(plain(mixed.content(id)) == plain(c.content(id)) || plain(mixed.content(id))
            == plain(d.content(id)));
    }
}

/// What a crash leaves belongs together.
proof fn lemma_crash_fits<K: Key, V: Value>(
    e: Engine<K, V>,
    d: DiskView,
    capacity: usize,
    segment_size: usize,
    w: Wal,
)
    requires
        e.wf(),
        !e.index.trail@.parted,
        e.index.pool.wal@.error is None,
        stands_in(d, e.index.pool, e.index.trail@),
        opens(e.index.pool.wal@.segments, capacity, segment_size, Ok(w)),
    ensures
        read_all(w@.segments) == read_all(e.index.pool.wal@.segments),
        w@.waiting.len() == 0,
        fits(d, w@),
{
    reveal(kept);
    reveal(stands_in);
    law_whole_log_is_reopened(e.index.pool.wal@.segments, capacity, segment_size, w);
    lemma_backed(w@);
    assert forall|id: PageId| named(
        log_records(w@),
        state_of(plain(#[trigger] d.content(id))).lsn(),
    ) by {
        assert(page_stands(d, e.index.pool, e.index.trail@, id));
    }
}

/// What repeating the segments on such a data file gives are the pages of a tree.
proof fn lemma_crash_pages<K: Key, V: Value>(e: Engine<K, V>, d: DiskView) -> (r: (
    BufferPoolManager,
    PageId,
    Shape,
))
    requires
        e.wf(),
        !e.index.trail@.parted,
        e.index.pool.wal@.error is None,
        stands_in(d, e.index.pool, e.index.trail@),
    ensures
        fallen::<K, V>(d, read_all(e.index.pool.wal@.segments), r.0, r.1, r.2),
        leaf_parts(r.0, r.2) == e.index.trail@.floor,
{
    reveal(lands);
    reveal(stands_in);
    let p = e.index.pool;
    let recs = read_all(p.wal@.segments);
    let (f, root, sh) = choose|f: BufferPoolManager, root: PageId, sh: Shape| #[trigger]
        fallen::<K, V>(p.disk@, recs, f, root, sh) && leaf_parts(f, sh) == e.index.trail@.floor;
    assert forall|id: PageId|
        (#[trigger] recovered(d, recs, id)) is Some && bare(recovered(d, recs, id)->0) == bare(
            state_of(f.page(id)),
        ) by {
        assert(page_stands(d, p, e.index.trail@, id));
        assert(recovered(p.disk@, recs, id) is Some);
        assert(calm(recovered(d, recs, id)->0) == calm(recovered(p.disk@, recs, id)->0));
    }
    (f, root, sh)
}

/// A crash falls back to the last flush: whenever an engine crashes, with records that wait
/// and pages that are not written, or not saved, what it leaves in the data file and in the
/// segments of the log is a database. A restart gives the leaves of the last moment at which
/// the log was flushed, and knows of each transaction how it ended by that log. And what the
/// new engine holds is what a crash would fall back to then.
pub proof fn law_crash_falls_back<K: Key, V: Value>(
    e: Engine<K, V>,
    d: DiskView,
    capacity: usize,
    segment_size: usize,
    w: Wal,
    after: Engine<K, V>,
)
    requires
        e.wf(),
        !e.index.trail@.parted,
        e.index.pool.wal@.error is None,
        stands_in(d, e.index.pool, e.index.trail@),
        opens(e.index.pool.wal@.segments, capacity, segment_size, Ok(w)),
        reopened(d, w@, after),
    ensures
        after.wf(),
        after.index.parts() == e.index.trail@.floor,
        after.index.trail@.floor == after.index.parts(),
        after.tm() == rebuilt(read_all(e.index.pool.wal@.segments)),
        !names(read_all(e.index.pool.wal@.segments), u64::MAX),
        after.index.pool.wal@.error is None ==> {
            &&& !after.index.trail@.parted
            &&& after.index.pool.wal@.waiting.len() == 0
            &&& log_records(after.index.pool.wal@) == read_all(e.index.pool.wal@.segments)
            &&& read_all(after.index.pool.wal@.segments) == read_all(
                e.index.pool.wal@.segments,
            )
        },
{
    let q = after.index.pool;
    let recs = read_all(e.index.pool.wal@.segments);
    lemma_crash_fits(e, d, capacity, segment_size, w);
    let (f, root, sh) = lemma_crash_pages(e, d);
    assert forall|id: u64| bare(state_of(#[trigger] q.page(id))) == bare(state_of(f.page(id))) by {
        assert(recovered(d, recs, id) == Some(state_of(q.page(id))));
    }
    lemma_alike_root(f, q);
    lemma_alike::<K, V>(f, q, root, sh);
    if q.wal@.error is None {
        lemma_backed(w@);
        lemma_backed(q.wal@);
    }
}

/// What a crash leaves is not refused for what it holds, but for a transaction with the last
/// id that there is.
pub proof fn law_crash_is_not_refused<K: Key, V: Value>(
    e: Engine<K, V>,
    d: DiskView,
    capacity: usize,
    segment_size: usize,
    w: Wal,
)
    requires
        e.wf(),
        !e.index.trail@.parted,
        e.index.pool.wal@.error is None,
        stands_in(d, e.index.pool, e.index.trail@),
        opens(e.index.pool.wal@.segments, capacity, segment_size, Ok(w)),
    ensures
        forall|id: u64| #[trigger] recovered(d, read_all(w@.segments), id) is Some,
        crate::engine::names_root(recovered(d, read_all(w@.segments), 0)),
{
    let recs = read_all(e.index.pool.wal@.segments);
    lemma_crash_fits(e, d, capacity, segment_size, w);
    let (f, _root, _sh) = lemma_crash_pages(e, d);
    assert(recovered(d, recs, 0) is Some);
    lemma_page_len(f, 0);
    lemma_same_meta(f.page(0));
    match recovered(d, recs, 0)->0 {
        PageState::Leaf(_) => {},
        PageState::Internal(_) => {},
        PageState::Raw(_) => {},
    }
}

/// The log with the record of a commit at its end.
pub open spec fn with_commit(w: WalView, id: u64) -> Seq<RecordView> {
    log_records(w).push(new_record(w, WalRecordType::Commit, id, Seq::empty(), None))
}

/// The record of a transaction's end was appended.
pub proof fn lemma_ended_log<K: Key, V: Value>(
    a: Engine<K, V>,
    kind: WalRecordType,
    id: u64,
    b: Engine<K, V>,
)
    requires
        a.wf(),
        !a.index.trail@.parted,
        appended(a.index.pool.wal@, kind, id, Seq::empty(), None).0 is Ok,
        b.index.pool.wal@ == appended(a.index.pool.wal@, kind, id, Seq::empty(), None).1,
    ensures
        a.index.pool.wal@.error is None,
        log_records(b.index.pool.wal@) == log_records(a.index.pool.wal@).push(
            new_record(a.index.pool.wal@, kind, id, Seq::empty(), None),
        ),
{
    reveal(kept);
    let w = a.index.pool.wal@;
    let r = new_record(w, kind, id, Seq::empty(), None);
    assert(b.index.pool.wal@.waiting.drop_last() =~= w.waiting);
    law_written_is_read(full(w), w.segment_size, r);
}

/// The record of a commit was appended and written.
pub proof fn lemma_committed_log<K: Key, V: Value>(a: Engine<K, V>, txn: Transaction, b: Engine<K, V>)
    requires
        a.wf(),
        !a.index.trail@.parted,
        txn.wrote,
        commit_outcome(a, txn, Ok(()), b),
    ensures
        a.index.pool.wal@.error is None,
        b.index.pool.wal@.error is None,
        b.index.pool.wal@.waiting.len() == 0,
        log_records(b.index.pool.wal@) == with_commit(a.index.pool.wal@, txn.txn_id),
        read_all(b.index.pool.wal@.segments) == with_commit(a.index.pool.wal@, txn.txn_id),
{
    let w = a.index.pool.wal@;
    let (logged, mid) = commit_logged(w, txn.txn_id);
    let r = new_record(w, WalRecordType::Commit, txn.txn_id, Seq::empty(), None);
    assert(logged is Ok);
    let lsn = logged->Ok_0;
    assert(mid.waiting[mid.waiting.len() - 1].0 == lsn);
    law_append(w, WalRecordType::Commit, txn.txn_id, Seq::empty(), None);
    law_flush(mid, lsn);
    assert(!mid.durable(lsn));
    reveal(kept);
    assert(mid.waiting.drop_last() =~= w.waiting);
    law_written_is_read(full(w), w.segment_size, r);
    assert(full(b.index.pool.wal@) == b.index.pool.wal@.segments);
}

/// A commit is durable: when a transaction that wrote is told to have committed, everything
/// that the engine did so far is in the data file or in the segments of the log, and the
/// last record there is that of the commit.
pub proof fn law_commit_is_durable<K: Key, V: Value>(
    a: Engine<K, V>,
    txn: Transaction,
    b: Engine<K, V>,
)
    requires
        a.wf(),
        a.index.rooted(),
        !a.index.trail@.parted,
        txn.wrote,
        commit_outcome(a, txn, Ok(()), b),
    ensures
        safe(b),
        b.index.parts() == a.index.parts(),
        read_all(b.index.pool.wal@.segments) == with_commit(a.index.pool.wal@, txn.txn_id),
{
    lemma_committed_log(a, txn, b);
}

/// A transaction that began after a restart sees what a transaction wrote whose commit is in
/// the log, and nothing of one that the log names without a commit.
pub proof fn law_restart_settles_all<K: Key, V: Value>(
    d: DiskView,
    w: WalView,
    e: Engine<K, V>,
    reader: Transaction,
    m: Engine<K, V>,
    id: u64,
)
    requires
        reopened(d, w, e),
        e.wf(),
        begins(e, reader, m),
        id != 0,
        names(read_all(w.segments), id),
    ensures
        reader.sees(id, 0, m.tm()) == (verdict(read_all(w.segments), id)
            == TransactionStatus::Committed),
{
    let recs = read_all(w.segments);
    law_no_id_is_reused(recs, id);
    lemma_verdict(recs, id);
    crate::transaction::law_begin_snapshot(e.tm(), reader.snapshot, id);
}

/// What was committed survives a restart: right after a transaction that wrote is told to
/// have committed, a restart gives the same leaves, and a transaction that begins then sees
/// every version that the committed transaction created and nobody has deleted.
pub proof fn law_commit_survives_restart<K: Key, V: Value>(
    a: Engine<K, V>,
    txn: Transaction,
    b: Engine<K, V>,
    capacity: usize,
    segment_size: usize,
    w: Wal,
    after: Engine<K, V>,
    reader: Transaction,
    m: Engine<K, V>,
)
    requires
        a.wf(),
        a.index.rooted(),
        !a.index.trail@.parted,
        txn.wrote,
        txn.txn_id != 0,
        commit_outcome(a, txn, Ok(()), b),
        opens(b.index.pool.wal@.segments, capacity, segment_size, Ok(w)),
        reopened(b.index.pool.disk@, w@, after),
        begins(after, reader, m),
    ensures
        m.index.parts() == a.index.parts(),
        reader.sees(txn.txn_id, 0, m.tm()),
{
    let id = txn.txn_id;
    let segs = b.index.pool.wal@.segments;
    law_commit_is_durable(a, txn, b);
    law_restart_gives_all_back(b, capacity, segment_size, w, after);
    lemma_safe(b);
    law_whole_log_is_reopened(segs, capacity, segment_size, w);
    let recs = with_commit(a.index.pool.wal@, id);
    let n = recs.len() - 1;
    assert(recs[n].txn_id == id);
    assert(verdict(recs, id) == TransactionStatus::Committed);
    law_restart_settles_all(b.index.pool.disk@, w@, after, reader, m, id);
}

} // verus!
