//! What a crash falls back to.
//!
//! The data file and the segments of the log are all that a crash leaves. Repeating the log
//! on the data file gives the leaves of the last moment at which the log was flushed: no page
//! goes to the data file before the records of its changes, so none is ahead of the log.

use crate::buffer_pool::manager::{lemma_page_len, same_contents, same_storage, BufferPoolManager};
use crate::bytes::u64_at;
use crate::disk::DiskView;
use crate::index::BTreeIndex;
use crate::index::trail::{
    awaits, calm, calmed, kept, late, lemma_backed, lemma_calm_replayed, lemma_disk_state,
    lemma_passed, lemma_sound_step, log_records, meant, only_open, page_kept, page_stands, passed,
    stamped, stands_in, Trail,
};
use crate::index::tree::{leaf_parts, lemma_tree_kept, tree_wf, Part, Shape};
use crate::page::meta::root_of;
use crate::page::{plain, PageId};
use crate::recovery::clog::{names, verdict};
use crate::recovery::redo::{law_redo_moves_forward, lemma_state, state_of, PageState};
use crate::recovery::replay::{
    law_replay_twice_is_once, lemma_named, lemma_redone_lsn, named, recovered, replayed,
    replayed_blocks, sized,
};
use crate::types::{Key, Value};
use crate::wal::WalView;
use crate::wal::record::RecordView;
use crate::wal::segment::{read_all, SegmentView};
use vstd::prelude::*;

verus! {

/// The state without the mark of a split that awaits its downlink and without its log
/// sequence number.
pub open spec fn bare(st: PageState) -> PageState {
    stamped(calm(st), Some(0))
}

/// The records repeated on the data file give a tree in order, of which the pool holds
/// the pages.
pub open spec fn fallen<K: Key, V: Value>(
    d: DiskView,
    recs: Seq<RecordView>,
    f: BufferPoolManager,
    root: PageId,
    sh: Shape,
) -> bool {
    &&& f.wf()
    &&& tree_wf::<K, V>(f, root, sh)
    &&& root_of(f.page(0)) == Some(root)
    &&& forall|id: PageId|
        (#[trigger] recovered(d, recs, id)) is Some && bare(recovered(d, recs, id)->0) == bare(
            state_of(f.page(id)),
        )
}

/// A restart from the data file and the segments gives a tree with the given leaves.
#[verifier::opaque]
pub open spec fn lands<K: Key, V: Value>(
    d: DiskView,
    segs: Seq<SegmentView>,
    floor: Seq<Part>,
) -> bool {
    let recs = read_all(segs);
    &&& forall|id: PageId| named(recs, state_of(plain(#[trigger] d.content(id))).lsn())
    &&& exists|f: BufferPoolManager, root: PageId, sh: Shape| #[trigger]
        fallen::<K, V>(d, recs, f, root, sh) && leaf_parts(f, sh) == floor
}

/// Unless a failure came in between, the metadata page names the root, and a crash falls back
/// to the floor.
pub open spec fn grounded<K: Key, V: Value>(
    p: BufferPoolManager,
    root: PageId,
    trail: Trail,
) -> bool {
    p.wal@.error is None && !trail.parted ==> {
        &&& root_of(p.page(0)) == Some(root)
        &&& lands::<K, V>(p.disk@, p.wal@.segments, trail.floor)
    }
}

/// Nothing is open, and the pool is parted from the log where a restart would not give its
/// pages.
pub open spec fn starting<K: Key, V: Value>(
    p: BufferPoolManager,
    root: PageId,
    floor: Seq<Part>,
) -> Trail {
    Trail {
        open: Map::empty(),
        parted: !(kept(p, Map::empty()) && root_of(p.page(0)) == Some(root) && lands::<K, V>(
            p.disk@,
            p.wal@.segments,
            floor,
        )),
        floor,
    }
}

/// The pages that are open lack nothing but a log sequence number.
pub open spec fn level(p: BufferPoolManager, trail: Trail) -> bool {
    !trail.parted ==> forall|id: PageId| #[trigger]
        trail.open.dom().contains(id) ==> bare(trail.open[id]) == bare(state_of(p.page(id)))
}

/// The trail after a step of the pool: where the log was flushed, a crash falls back to the
/// leaves as they are.
pub open spec fn carried<K: Key, V: Value>(a: BTreeIndex<K, V>, w: WalView) -> Trail {
    if w.waiting == a.pool.wal@.waiting {
        a.trail@
    } else {
        Trail { floor: a.parts(), ..a.trail@ }
    }
}

/// The segments tell of every transaction that the log named, and of the same ends.
pub open spec fn told_by<K: Key, V: Value>(a: BTreeIndex<K, V>, b: BTreeIndex<K, V>) -> bool {
    let before = log_records(a.pool.wal@);
    let after = read_all(b.pool.wal@.segments);
    &&& forall|id: u64| #[trigger] verdict(after, id) == verdict(before, id)
    &&& forall|id: u64| names(before, id) ==> #[trigger] names(after, id)
}

/// Nothing went to the segments of the log, and a crash falls back to where it did before.
pub open spec fn floor_kept<K: Key, V: Value>(a: BTreeIndex<K, V>, b: BTreeIndex<K, V>) -> bool {
    &&& b.trail@.floor == a.trail@.floor
    &&& b.pool.wal@.segments == a.pool.wal@.segments
}

/// Unless a failure came in between, a crash falls back to where it did before, or to the
/// given leaves.
pub open spec fn floats<K: Key, V: Value>(
    a: BTreeIndex<K, V>,
    b: BTreeIndex<K, V>,
    parts: Seq<Part>,
) -> bool {
    b.pool.wal@.error is None && !b.trail@.parted ==> {
        ||| floor_kept(a, b)
        ||| b.trail@.floor == parts && told_by(a, b)
    }
}

/// A step that changes no page lets a crash fall back to where it did before, or to the
/// leaves as they are.
pub open spec fn steady<K: Key, V: Value>(a: BTreeIndex<K, V>, b: BTreeIndex<K, V>) -> bool {
    &&& b.trail@.open == a.trail@.open
    &&& b.trail@.parted == a.trail@.parted
    &&& floats(a, b, a.parts())
    &&& passed(a.pool, a.trail@, b.pool, b.trail@)
}

/// Pages of which none is open are level.
pub proof fn lemma_level(p: BufferPoolManager, trail: Trail, id: PageId, lsn: Option<u64>)
    requires
        only_open(trail, id),
        awaits(p, trail, id, lsn),
    ensures
        level(p, trail),
{
    if !trail.parted {
        assert forall|x: PageId| #[trigger] trail.open.dom().contains(x) implies bare(trail.open[x])
            == bare(state_of(p.page(x))) by {
            assert(x == id);
            let st = state_of(p.page(id));
            assert(calm(trail.open[id]) == calm(stamped(st, lsn)));
            assert(stamped(calm(stamped(st, lsn)), Some(0)) == stamped(calm(st), Some(0)));
        }
    }
}

/// The same pages hold the same leaves.
pub proof fn lemma_same_parts<K: Key, V: Value>(a: BTreeIndex<K, V>, b: BTreeIndex<K, V>)
    requires
        b.shape@ == a.shape@,
        same_contents(a.pool, b.pool),
    ensures
        b.parts() == a.parts(),
{
    assert(b.parts() =~= a.parts()) by {
        assert forall|i: int| 0 <= i < a.shape@.levels[0].len() implies b.parts()[i]
            == a.parts()[i] by {
            assert(b.pool.page(a.shape@.levels[0][i]) == a.pool.page(a.shape@.levels[0][i]));
        }
    }
}

/// A page carries the number of the last record that changed it: records with greater numbers
/// did not.
proof fn lemma_ahead(recs: Seq<RecordView>, lo: int, n: int, id: PageId, st: PageState)
    requires
        0 <= lo <= n <= recs.len(),
        named(recs, st.lsn()),
        sized(st),
        replayed(recs, n, id, st) is Some,
        forall|j: int|
            lo <= j < n ==> replayed(recs, n, id, st)->0.lsn() < (#[trigger] recs[j]).lsn,
    ensures
        replayed(recs, n, id, st) == replayed(recs, lo, id, st),
    decreases n,
{
    if lo < n {
        let r = recs[n - 1];
        let mid = replayed(recs, n - 1, id, st)->0;
        lemma_named(recs, n - 1, id, st);
        lemma_blocks_ahead(r, r.blocks.len() as int, id, mid);
        lemma_ahead(recs, lo, n - 1, id, st);
    }
}

proof fn lemma_blocks_ahead(r: RecordView, n: int, id: PageId, st: PageState)
    requires
        0 <= n <= r.blocks.len(),
        sized(st),
        replayed_blocks(r, n, id, st) is Some,
        replayed_blocks(r, n, id, st)->0.lsn() < r.lsn,
    ensures
        replayed_blocks(r, n, id, st) == Some(st),
    decreases n,
{
    if n > 0 {
        let s = replayed_blocks(r, n - 1, id, st)->0;
        lemma_blocks_sized(r, n - 1, id, st);
        if r.blocks[n - 1].page_id == id {
            law_redo_moves_forward(r.kind, r.blocks[n - 1], r.lsn, s);
        }
        lemma_blocks_ahead(r, n - 1, id, st);
    }
}

proof fn lemma_blocks_sized(r: RecordView, n: int, id: PageId, st: PageState)
    requires
        0 <= n <= r.blocks.len(),
        sized(st),
        replayed_blocks(r, n, id, st) is Some,
    ensures
        sized(replayed_blocks(r, n, id, st)->0),
    decreases n,
{
    if n > 0 {
        lemma_blocks_sized(r, n - 1, id, st);
        if r.blocks[n - 1].page_id == id {
            lemma_redone_lsn(r.kind, r.blocks[n - 1], r.lsn, replayed_blocks(r, n - 1, id, st)->0);
        }
    }
}

/// The first records are the records.
proof fn lemma_first(recs: Seq<RecordView>, k: int, n: int, id: PageId, st: PageState)
    requires
        0 <= n <= k <= recs.len(),
    ensures
        replayed(recs.take(k), n, id, st) == replayed(recs, n, id, st),
    decreases n,
{
    if n > 0 {
        lemma_first(recs, k, n - 1, id, st);
    }
}

/// States that differ in the mark or the number only are bare alike.
proof fn lemma_bare(s: Option<PageState>, t: PageState)
    requires
        calmed(s) == Some(calm(t)),
    ensures
        s is Some,
        bare(s->0) == bare(t),
        s->0.lsn() == t.lsn(),
{
    assert(calm(s->0) == calm(t));
    assert(calm(s->0).lsn() == s->0.lsn());
    assert(calm(t).lsn() == t.lsn());
}

/// A page that the data file took without a flush is as the records in the segments leave
/// it, so that they repeated on it give what they gave.
proof fn lemma_page_floor(
    a: BufferPoolManager,
    b: BufferPoolManager,
    open: Map<PageId, PageState>,
    id: PageId,
)
    requires
        a.wf(),
        kept(a, open),
        same_storage(a, b),
        b.wal@.error is None,
        b.wal@.waiting == a.wal@.waiting,
        named(read_all(a.wal@.segments), state_of(plain(a.disk@.content(id))).lsn()),
        recovered(a.disk@, read_all(a.wal@.segments), id) is Some,
    ensures
        b.wal@.segments == a.wal@.segments,
        named(read_all(a.wal@.segments), state_of(plain(b.disk@.content(id))).lsn()),
        ({
            let before = recovered(a.disk@, read_all(a.wal@.segments), id);
            let after = recovered(b.disk@, read_all(b.wal@.segments), id);
            calmed(after) == calmed(before)
        }),
{
    reveal(kept);
    let w = a.wal@;
    let recs = log_records(w);
    let part = read_all(w.segments);
    let k = part.len() as int;
    let st = state_of(plain(a.disk@.content(id)));
    let now = state_of(a.page(id));
    lemma_disk_state(a, id);
    if plain(b.disk@.content(id)) != plain(a.disk@.content(id)) {
        assert(plain(b.disk@.content(id)) == a.page(id));
        assert(w.written_up_to(u64_at(a.page(id), 16)));
        lemma_page_len(a, id);
        lemma_state(a.page(id));
        assert(page_kept(a, open, id));
        let cut = choose|cut: int|
            0 <= cut <= recs.len() && calmed(#[trigger] replayed(recs, cut, id, st)) == Some(
                calm(now),
            );
        lemma_bare(replayed(recs, cut, id, st), now);
        let lo = if cut < k {
            cut
        } else {
            k
        };
        assert(named(recs, st.lsn()));
        assert forall|j: int| lo <= j < cut implies replayed(recs, cut, id, st)->0.lsn() < (
        #[trigger] recs[j]).lsn by {
            assert(late(w, recs[j].lsn));
        }
        lemma_ahead(recs, lo, cut, id, st);
        lemma_first(recs, k, lo, id, st);
        let mid = replayed(part, lo, id, st)->0;
        law_replay_twice_is_once(part, lo, id, st);
        lemma_calm_replayed(part, k, id, now, mid);
        lemma_named(part, lo, id, st);
    }
}

/// A step of the pool that does not flush the log leaves what a crash falls back to.
pub proof fn lemma_floor_step<K: Key, V: Value>(
    a: BufferPoolManager,
    b: BufferPoolManager,
    open: Map<PageId, PageState>,
    floor: Seq<Part>,
)
    requires
        a.wf(),
        kept(a, open),
        same_storage(a, b),
        b.wal@.error is None,
        b.wal@.waiting == a.wal@.waiting,
        lands::<K, V>(a.disk@, a.wal@.segments, floor),
    ensures
        lands::<K, V>(b.disk@, b.wal@.segments, floor),
{
    reveal(lands);
    let part = read_all(a.wal@.segments);
    let (f, root, sh) = choose|f: BufferPoolManager, root: PageId, sh: Shape| #[trigger]
        fallen::<K, V>(a.disk@, part, f, root, sh) && leaf_parts(f, sh) == floor;
    assert(b.wal@.segments == a.wal@.segments);
    assert forall|id: PageId|
        (#[trigger] recovered(b.disk@, part, id)) is Some && bare(recovered(b.disk@, part, id)->0)
            == bare(state_of(f.page(id))) by {
        assert(recovered(a.disk@, part, id) is Some);
        assert(named(part, state_of(plain(a.disk@.content(id))).lsn()));
        lemma_page_floor(a, b, open, id);
        lemma_bare(recovered(b.disk@, part, id), recovered(a.disk@, part, id)->0);
    }
    assert forall|id: PageId| named(part, state_of(plain(#[trigger] b.disk@.content(id))).lsn()) by {
        assert(recovered(a.disk@, part, id) is Some);
        assert(named(part, state_of(plain(a.disk@.content(id))).lsn()));
        lemma_page_floor(a, b, open, id);
    }
    assert(fallen::<K, V>(b.disk@, part, f, root, sh));
}

/// Where nothing waits, a crash falls back to the leaves as they are.
pub proof fn lemma_floor_here<K: Key, V: Value>(
    p: BufferPoolManager,
    root: PageId,
    sh: Shape,
    trail: Trail,
)
    requires
        p.wf(),
        tree_wf::<K, V>(p, root, sh),
        root_of(p.page(0)) == Some(root),
        p.wal@.waiting.len() == 0,
        kept(p, trail.open),
        !trail.parted,
        level(p, trail),
    ensures
        lands::<K, V>(p.disk@, p.wal@.segments, leaf_parts(p, sh)),
{
    reveal(kept);
    reveal(lands);
    lemma_backed(p.wal@);
    let recs = read_all(p.wal@.segments);
    assert forall|id: PageId|
        (#[trigger] recovered(p.disk@, recs, id)) is Some && bare(recovered(p.disk@, recs, id)->0)
            == bare(state_of(p.page(id))) by {
        assert(page_kept(p, trail.open, id));
        lemma_bare(recovered(p.disk@, recs, id), meant(p, trail.open, id));
    }
    assert forall|id: PageId| named(recs, state_of(plain(#[trigger] p.disk@.content(id))).lsn()) by {
        assert(page_kept(p, trail.open, id));
    }
    assert(fallen::<K, V>(p.disk@, recs, p, root, sh));
}

/// Whatever could be the data file before a step of the pool still could after it.
proof fn lemma_step_passed<K: Key, V: Value>(a: BTreeIndex<K, V>, b: BTreeIndex<K, V>)
    requires
        a.tree(),
        b.pool.wf(),
        same_contents(a.pool, b.pool),
        same_storage(a.pool, b.pool),
        b.trail@.open == a.trail@.open,
        b.trail@.parted == a.trail@.parted,
    ensures
        passed(a.pool, a.trail@, b.pool, b.trail@),
{
    if b.pool.wal@.error is None && !b.trail@.parted {
        let recs = log_records(a.pool.wal@);
        let part = read_all(a.pool.wal@.segments);
        lemma_sound_step(a.pool, b.pool, a.trail@);
        assert forall|d: DiskView| stands_in(d, a.pool, a.trail@) implies #[trigger] stands_in(
            d,
            b.pool,
            b.trail@,
        ) by {
            reveal(stands_in);
            reveal(kept);
            reveal(lands);
            assert forall|id: PageId| #[trigger] page_stands(d, b.pool, b.trail@, id) by {
                assert(page_stands(d, a.pool, a.trail@, id));
                assert(b.pool.page(id) == a.pool.page(id));
                if b.pool.wal@.waiting == a.pool.wal@.waiting {
                    assert(recovered(a.pool.disk@, part, id) is Some);
                    assert(named(part, state_of(plain(a.pool.disk@.content(id))).lsn()));
                    lemma_page_floor(a.pool, b.pool, a.trail@.open, id);
                } else {
                    lemma_backed(b.pool.wal@);
                    assert(page_kept(b.pool, b.trail@.open, id));
                }
            }
        }
    }
}

/// The same of a page that is released as it was.
pub proof fn lemma_same_passed<K: Key, V: Value>(a: BTreeIndex<K, V>, b: BTreeIndex<K, V>)
    requires
        b.pool.wal == a.pool.wal,
        b.pool.disk == a.pool.disk,
        b.trail@ == a.trail@,
        same_contents(a.pool, b.pool),
    ensures
        passed(a.pool, a.trail@, b.pool, b.trail@),
{
    assert forall|id: PageId| #[trigger]
        calm(meant(b.pool, b.trail@.open, id)) == calm(meant(a.pool, a.trail@.open, id)) by {
        assert(b.pool.page(id) == a.pool.page(id));
    }
    lemma_passed(a.pool, a.trail@, b.pool, b.trail@);
}

/// After a step of the pool, a crash falls back to where it did before, or to the leaves as
/// they are.
pub proof fn lemma_carried<K: Key, V: Value>(a: BTreeIndex<K, V>, b: BTreeIndex<K, V>)
    requires
        a.tree(),
        level(a.pool, a.trail@),
        b.pool.wf(),
        b.root == a.root,
        a.pool.next_page_id <= b.pool.next_page_id,
        same_contents(a.pool, b.pool),
        same_storage(a.pool, b.pool),
        b.trail@ == carried(a, b.pool.wal@),
    ensures
        grounded::<K, V>(b.pool, b.root, b.trail@),
        steady(a, b),
{
    lemma_step_passed::<K, V>(a, b);
    if b.pool.wal@.error is None && !b.trail@.parted {
        assert(b.pool.page(0) == a.pool.page(0));
        assert(log_records(b.pool.wal@) == log_records(a.pool.wal@));
        if b.pool.wal@.waiting == a.pool.wal@.waiting {
            lemma_floor_step::<K, V>(a.pool, b.pool, a.trail@.open, a.trail@.floor);
        } else {
            lemma_sound_step(a.pool, b.pool, a.trail@);
            lemma_tree_kept::<K, V>(a.pool, b.pool, a.root, a.shape@);
            assert(level(b.pool, b.trail@)) by {
                assert forall|id: PageId| #[trigger]
                    b.trail@.open.dom().contains(id) implies bare(b.trail@.open[id]) == bare(
                    state_of(b.pool.page(id)),
                ) by {
                    assert(b.pool.page(id) == a.pool.page(id));
                }
            }
            lemma_floor_here::<K, V>(b.pool, b.root, a.shape@, b.trail@);
            reveal(kept);
            lemma_backed(b.pool.wal@);
        }
    }
}

} // verus!
