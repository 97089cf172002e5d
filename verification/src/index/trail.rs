//! That the log keeps up with the pages.
//!
//! Between the record of a change and the release of the last page that the change touched,
//! the log is ahead of the pages in the pool. The trail tells which pages are still to become
//! what the log says. A failure in between parts the pool from the log for good.
//!
//! Repeating the log does not need the data file as it is: one with pages as they were at
//! earlier moments will do.

use crate::buffer_pool::manager::{
    lemma_page_len, same_contents, same_storage, BufferPoolManager, PageWriteGuard,
};
use crate::bytes::u64_bytes;
use crate::disk::DiskView;
use crate::error::WalError;
use crate::index::{BTreeIndex, LOG_NEED};
use crate::index::tree::{lemma_same_meta, Part};
use crate::page::internal::{int_view, int_wf, InternalView};
use crate::page::leaf::{leaf_view, leaf_wf, LeafView};
use crate::page::meta::{is_meta, with_root};
use crate::page::{lemma_plain, plain, with_lsn, PageId, FLAG_INCOMPLETE_SPLIT, META, PAGE_SIZE};
use crate::recovery::clog::{names, verdict};
use crate::recovery::redo::{law_logged_image_is_redone, lemma_state, redone, state_of, PageState};
use crate::recovery::replay::{
    law_replay_twice_is_once, lemma_named, lemma_redone_lsn, named, recovered, replayed,
    replayed_blocks, sized,
};
use crate::types::{Key, Value};
use crate::wal::log::{bare_block, data_block, image_block};
use crate::wal::record::{block_readable, record_readable, BlockView, RecordView, WalRecordType};
use crate::wal::segment::{law_written_is_read, read_all, whole};
use crate::wal::{appended, full, log_step, new_record, WalView};
use vstd::prelude::*;

verus! {

/// What the pages held outside the pool are to become, whether a failure has parted the
/// pool from the log, and the leaves that a crash would fall back to.
pub ghost struct Trail {
    pub open: Map<PageId, PageState>,
    pub parted: bool,
    pub floor: Seq<Part>,
}

/// The state without the mark of a split that awaits its downlink.
pub open spec fn calm(st: PageState) -> PageState {
    match st {
        PageState::Leaf(v) => PageState::Leaf(
            LeafView { flags: v.flags & !FLAG_INCOMPLETE_SPLIT, ..v },
        ),
        PageState::Internal(v) => PageState::Internal(
            InternalView { flags: v.flags & !FLAG_INCOMPLETE_SPLIT, ..v },
        ),
        PageState::Raw(b) => PageState::Raw(b),
    }
}

pub open spec fn calmed(st: Option<PageState>) -> Option<PageState> {
    match st {
        Some(s) => Some(calm(s)),
        None => None,
    }
}

pub proof fn lemma_calm_flags(f: u8, g: u8)
    requires
        f & !FLAG_INCOMPLETE_SPLIT == g & !FLAG_INCOMPLETE_SPLIT,
    ensures
        (f & !FLAG_INCOMPLETE_SPLIT) & !FLAG_INCOMPLETE_SPLIT == f & !FLAG_INCOMPLETE_SPLIT,
        (f | 2) & !FLAG_INCOMPLETE_SPLIT == (g | 2) & !FLAG_INCOMPLETE_SPLIT,
{
    assert((f & !1u8) & !1u8 == f & !1u8) by (bit_vector);
    assert(f & !1u8 == g & !1u8 ==> (f | 2) & !1u8 == (g | 2) & !1u8) by (bit_vector);
}

/// Repeating a record does not look at the mark.
proof fn lemma_calm_redone(kind: WalRecordType, b: BlockView, lsn: u64, s: PageState, t: PageState)
    requires
        calm(s) == calm(t),
    ensures
        calmed(redone(kind, b, lsn, s)) == calmed(redone(kind, b, lsn, t)),
{
    assert(s.lsn() == calm(s).lsn());
    assert(t.lsn() == calm(t).lsn());
    match (s, t) {
        (PageState::Leaf(v), PageState::Leaf(w)) => {
            assert(calm(s)->Leaf_0.flags == v.flags & !FLAG_INCOMPLETE_SPLIT);
            assert(calm(t)->Leaf_0.flags == w.flags & !FLAG_INCOMPLETE_SPLIT);
            lemma_calm_flags(v.flags, w.flags);
            assert(v == (LeafView { flags: v.flags, ..calm(s)->Leaf_0 }));
            assert(w == (LeafView { flags: w.flags, ..calm(s)->Leaf_0 }));
        },
        (PageState::Internal(v), PageState::Internal(w)) => {
            assert(calm(s)->Internal_0.flags == v.flags & !FLAG_INCOMPLETE_SPLIT);
            assert(calm(t)->Internal_0.flags == w.flags & !FLAG_INCOMPLETE_SPLIT);
            lemma_calm_flags(v.flags, w.flags);
            assert(v == (InternalView { flags: v.flags, ..calm(s)->Internal_0 }));
            assert(w == (InternalView { flags: w.flags, ..calm(s)->Internal_0 }));
        },
        _ => {},
    }
}

proof fn lemma_calm_blocks(r: RecordView, n: int, id: PageId, s: PageState, t: PageState)
    requires
        calm(s) == calm(t),
    ensures
        calmed(replayed_blocks(r, n, id, s)) == calmed(replayed_blocks(r, n, id, t)),
    decreases n,
{
    if n > 0 {
        lemma_calm_blocks(r, n - 1, id, s, t);
        if replayed_blocks(r, n - 1, id, s) is Some && r.blocks[n - 1].page_id == id {
            lemma_calm_redone(
                r.kind,
                r.blocks[n - 1],
                r.lsn,
                replayed_blocks(r, n - 1, id, s)->0,
                replayed_blocks(r, n - 1, id, t)->0,
            );
        }
    }
}

pub proof fn lemma_calm_replayed(recs: Seq<RecordView>, n: int, id: PageId, s: PageState, t: PageState)
    requires
        calm(s) == calm(t),
    ensures
        calmed(replayed(recs, n, id, s)) == calmed(replayed(recs, n, id, t)),
    decreases n,
{
    if n > 0 {
        lemma_calm_replayed(recs, n - 1, id, s, t);
        if replayed(recs, n - 1, id, s) is Some {
            lemma_calm_blocks(
                recs[n - 1],
                recs[n - 1].blocks.len() as int,
                id,
                replayed(recs, n - 1, id, s)->0,
                replayed(recs, n - 1, id, t)->0,
            );
        }
    }
}

/// The records of the log, the waiting ones included.
pub open spec fn log_records(w: WalView) -> Seq<RecordView> {
    read_all(full(w))
}

/// What a page is, or is to become.
pub open spec fn meant(p: BufferPoolManager, open: Map<PageId, PageState>, id: PageId) -> PageState {
    if open.dom().contains(id) {
        open[id]
    } else {
        state_of(p.page(id))
    }
}

/// The page is as some of the records leave it.
pub open spec fn on_the_way(recs: Seq<RecordView>, id: PageId, st: PageState, now: PageState) -> bool {
    exists|cut: int|
        0 <= cut <= recs.len() && calmed(#[trigger] replayed(recs, cut, id, st)) == Some(calm(now))
}

/// The records have numbers below the next one.
pub open spec fn numbered(recs: Seq<RecordView>, next: u64) -> bool {
    &&& 0 < next
    &&& forall|i: int| 0 <= i < recs.len() ==> (#[trigger] recs[i]).lsn < next
}

/// A record with the number waits.
pub open spec fn late(w: WalView, lsn: u64) -> bool {
    exists|i: int| 0 <= i < w.waiting.len() && (#[trigger] w.waiting[i]).0 == lsn
}

/// The segments hold whole records, and behind them come the records that wait.
pub open spec fn backed(w: WalView) -> bool {
    let recs = log_records(w);
    let n = read_all(w.segments).len() as int;
    &&& whole(w.segments)
    &&& w.segments.len() > 0
    &&& n <= recs.len()
    &&& read_all(w.segments) == recs.take(n)
    &&& forall|j: int| n <= j < recs.len() ==> late(w, (#[trigger] recs[j]).lsn)
}

/// Where nothing waits, the segments hold the log.
pub proof fn lemma_backed(w: WalView)
    requires
        whole(full(w)),
        full(w).len() > 0,
        w.waiting.len() == 0,
    ensures
        full(w) == w.segments,
        log_records(w) == read_all(w.segments),
        backed(w),
{
    let recs = read_all(w.segments);
    assert(recs.take(recs.len() as int) =~= recs);
}

/// A step that appends nothing leaves the records behind the segments.
pub proof fn lemma_backed_step(a: WalView, b: WalView)
    requires
        whole(full(a)),
        full(a).len() > 0,
        backed(a),
        log_step(a, b),
        b.error is None,
    ensures
        backed(b),
{
    if b.waiting == a.waiting {
        assert forall|j: int|
            read_all(b.segments).len() <= j < log_records(b).len() implies late(
            b,
            (#[trigger] log_records(b)[j]).lsn,
        ) by {
            assert(late(a, log_records(a)[j].lsn));
        }
    } else {
        lemma_backed(b);
    }
}

/// A restart would give the page as it is meant to be.
pub open spec fn page_kept(p: BufferPoolManager, open: Map<PageId, PageState>, id: PageId) -> bool {
    let recs = log_records(p.wal@);
    let st = state_of(plain(p.disk@.content(id)));
    &&& calmed(recovered(p.disk@, recs, id)) == Some(calm(meant(p, open, id)))
    &&& on_the_way(recs, id, st, state_of(p.page(id)))
    &&& named(recs, st.lsn())
    &&& sized(meant(p, open, id))
}

/// A restart would give all pages as they are meant to be, up to the mark of a split that
/// awaits its downlink.
#[verifier::opaque]
pub open spec fn kept(p: BufferPoolManager, open: Map<PageId, PageState>) -> bool {
    &&& whole(full(p.wal@))
    &&& full(p.wal@).len() > 0
    &&& numbered(log_records(p.wal@), p.wal@.next)
    &&& backed(p.wal@)
    &&& forall|id: PageId| #[trigger] page_kept(p, open, id)
}

/// The page of the data file could be this one: repeating the log on it, or the segments of
/// the log alone, gives what they give on the one that is there.
pub open spec fn page_stands(d: DiskView, p: BufferPoolManager, trail: Trail, id: PageId) -> bool {
    let recs = log_records(p.wal@);
    let part = read_all(p.wal@.segments);
    let st = state_of(plain(d.content(id)));
    &&& sized(st)
    &&& named(recs, st.lsn())
    &&& named(part, st.lsn())
    &&& calmed(recovered(d, recs, id)) == Some(calm(meant(p, trail.open, id)))
    &&& calmed(recovered(d, part, id)) == calmed(recovered(p.disk@, part, id))
}

/// The data file could be this one.
#[verifier::opaque]
pub open spec fn stands_in(d: DiskView, p: BufferPoolManager, trail: Trail) -> bool {
    forall|id: PageId| #[trigger] page_stands(d, p, trail, id)
}

/// Unless a failure came in between, whatever could be the data file still could.
pub open spec fn passed(a: BufferPoolManager, ta: Trail, b: BufferPoolManager, tb: Trail) -> bool {
    b.wal@.error is None && !tb.parted ==> forall|d: DiskView|
        stands_in(d, a, ta) ==> #[trigger] stands_in(d, b, tb)
}

/// The data file itself is one that could be.
pub proof fn lemma_stands(p: BufferPoolManager, trail: Trail)
    requires
        p.wf(),
        kept(p, trail.open),
        forall|id: PageId| named(
            read_all(p.wal@.segments),
            state_of(plain(#[trigger] p.disk@.content(id))).lsn(),
        ),
    ensures
        stands_in(p.disk@, p, trail),
{
    reveal(kept);
    reveal(stands_in);
    assert forall|id: PageId| #[trigger] page_stands(p.disk@, p, trail, id) by {
        assert(page_kept(p, trail.open, id));
        assert(named(
            read_all(p.wal@.segments),
            state_of(plain(p.disk@.content(id))).lsn(),
        ));
        lemma_disk_state(p, id);
    }
}

/// A step that changes neither log nor data file, and nothing of what the pages are meant to
/// be.
pub proof fn lemma_passed(a: BufferPoolManager, ta: Trail, b: BufferPoolManager, tb: Trail)
    requires
        b.wal@ == a.wal@,
        b.disk == a.disk,
        !tb.parted ==> forall|id: PageId| #[trigger]
            calm(meant(b, tb.open, id)) == calm(meant(a, ta.open, id)),
    ensures
        passed(a, ta, b, tb),
{
    reveal(stands_in);
    if b.wal@.error is None && !tb.parted {
        assert forall|d: DiskView| stands_in(d, a, ta) implies #[trigger] stands_in(d, b, tb) by {
            assert forall|id: PageId| #[trigger] page_stands(d, b, tb, id) by {
                assert(page_stands(d, a, ta, id));
                assert(calm(meant(b, tb.open, id)) == calm(meant(a, ta.open, id)));
            }
        }
    }
}

/// Unless a failure came in between, the log keeps up with the pages.
pub open spec fn sound(p: BufferPoolManager, trail: Trail) -> bool {
    p.wal@.error is None && !trail.parted ==> kept(p, trail.open)
}

/// The log may have grown, but not by the end of a transaction.
pub open spec fn grew(a: WalView, b: WalView) -> bool {
    &&& forall|id: u64| #[trigger]
        verdict(log_records(b), id) == verdict(log_records(a), id)
    &&& forall|id: u64| names(log_records(a), id) ==> #[trigger] names(log_records(b), id)
}

/// Each record that was appended took no more of the ring than a record of the index takes.
pub open spec fn paced(a: WalView, b: WalView) -> bool {
    &&& a.next <= b.next
    &&& b.capacity == a.capacity
    &&& b.segment_size == a.segment_size
    &&& b.free >= a.free - LOG_NEED * (b.next - a.next)
}

/// At most `n` records were appended, and at most `n` pages made.
pub open spec fn within(a: BufferPoolManager, b: BufferPoolManager, n: int) -> bool {
    &&& b.wal@.next <= a.wal@.next + n
    &&& a.next_page_id <= b.next_page_id <= a.next_page_id + n
}

/// Only a failure parts the pool from the log, the log tells of no transaction's end that it
/// did not tell of before, and whatever could be the data file still could. Storage that
/// could be used still can.
pub open spec fn spared<K: Key, V: Value>(
    a: BTreeIndex<K, V>,
    b: BTreeIndex<K, V>,
    failed: bool,
) -> bool {
    &&& trailed(a, b, failed)
    &&& a.pool.able() ==> b.pool.able()
    &&& paced(a.pool.wal@, b.pool.wal@)
}

/// The same, of the log and the data file alone.
pub open spec fn trailed<K: Key, V: Value>(
    a: BTreeIndex<K, V>,
    b: BTreeIndex<K, V>,
    failed: bool,
) -> bool {
    &&& a.trail@.parted ==> b.trail@.parted
    &&& b.trail@.parted ==> a.trail@.parted || failed
    &&& !b.trail@.parted && b.pool.wal@.error is None ==> a.pool.wal@.error is None && grew(
        a.pool.wal@,
        b.pool.wal@,
    )
    &&& passed(a.pool, a.trail@, b.pool, b.trail@)
}

/// The log names the transaction.
pub open spec fn signed<K: Key, V: Value>(t: BTreeIndex<K, V>, txn_id: u64) -> bool {
    !t.trail@.parted && t.pool.wal@.error is None ==> names(log_records(t.pool.wal@), txn_id)
}

/// A record of the transaction was appended that does not end it.
pub open spec fn noted(
    a: BufferPoolManager,
    b: BufferPoolManager,
    trail: Trail,
    txn_id: u64,
) -> bool {
    !trail.parted && b.wal@.error is None ==> {
        &&& a.wal@.error is None
        &&& grew(a.wal@, b.wal@)
        &&& names(log_records(b.wal@), txn_id)
    }
}

/// The pool is parted from the log from here on.
pub open spec fn parting(trail: Trail) -> Trail {
    Trail { parted: true, ..trail }
}

/// The page is open no longer.
pub open spec fn closing(trail: Trail, id: PageId) -> Trail {
    Trail { open: trail.open.remove(id), ..trail }
}

/// No page is open.
pub open spec fn settled(trail: Trail) -> bool {
    !trail.parted ==> trail.open == Map::<PageId, PageState>::empty()
}

/// The page that is held is what it is meant to be.
pub open spec fn follows(p: BufferPoolManager, trail: Trail, g: PageWriteGuard) -> bool {
    !trail.parted ==> calm(state_of(g@)) == calm(meant(p, trail.open, g.page_id))
}

/// No other page is open.
pub open spec fn only_open(trail: Trail, id: PageId) -> bool {
    !trail.parted ==> forall|x: PageId| #[trigger] trail.open.dom().contains(x) ==> x == id
}

/// The page that is held is what it is meant to be, and no other page is open.
pub open spec fn on_trail(p: BufferPoolManager, trail: Trail, g: PageWriteGuard) -> bool {
    &&& follows(p, trail, g)
    &&& only_open(trail, g.page_id)
}

/// The state with another log sequence number, where one is given.
pub open spec fn stamped(st: PageState, lsn: Option<u64>) -> PageState {
    match (st, lsn) {
        (PageState::Leaf(v), Some(x)) => PageState::Leaf(LeafView { lsn: x, ..v }),
        (PageState::Internal(v), Some(x)) => PageState::Internal(InternalView { lsn: x, ..v }),
        _ => st,
    }
}

/// The page lacks nothing but the log sequence number.
pub open spec fn awaits(p: BufferPoolManager, trail: Trail, id: PageId, lsn: Option<u64>) -> bool {
    !trail.parted ==> calm(meant(p, trail.open, id)) == calm(stamped(state_of(p.page(id)), lsn))
}

/// A block without a payload takes the mark of a split off its page.
pub proof fn lemma_bare_redone(kind: WalRecordType, id: PageId, lsn: u64, st: PageState)
    requires
        kind == WalRecordType::InsertDownLink || kind == WalRecordType::NewRoot,
        !(st is Raw),
        st.lsn() < lsn,
    ensures
        calmed(redone(kind, bare_block(id), lsn, st)) == Some(calm(stamped(st, Some(lsn)))),
{
    match st {
        PageState::Leaf(v) => lemma_calm_flags(v.flags, v.flags),
        PageState::Internal(v) => lemma_calm_flags(v.flags, v.flags),
        PageState::Raw(_) => {},
    }
}

/// The block that names a new root gives the metadata page that names it.
pub proof fn lemma_root_redone(page: Seq<u8>, top: PageId, lsn: u64)
    requires
        page.len() == PAGE_SIZE,
        is_meta(page),
    ensures
        state_of(page) == PageState::Raw(plain(page)),
        state_of(page).lsn() < lsn ==> redone(
            WalRecordType::NewRoot,
            data_block(0, u64_bytes(top)),
            lsn,
            state_of(page),
        ) == Some(state_of(with_lsn(with_root(page, top), lsn))),
{
    broadcast use crate::bytes::group_int_bytes;

    let b = with_lsn(with_root(page, top), lsn);
    lemma_same_meta(page);
    assert(b[0] == META);
    assert(plain(b) =~= with_lsn(with_root(plain(page), top), lsn)) by {
        reveal(plain);
    }
    assert(is_meta(plain(page)));
    assert(u64_bytes(top).subrange(0, 8) =~= u64_bytes(top));
    crate::bytes::lemma_stands_u64(u64_bytes(top), 0, top);
}

/// A page that is held and was not changed.
pub proof fn lemma_on_trail(p: BufferPoolManager, trail: Trail, g: PageWriteGuard)
    requires
        settled(trail),
        g@.len() == PAGE_SIZE,
        plain(g@) == p.page(g.page_id),
    ensures
        on_trail(p, trail, g),
{
    lemma_state(g@);
}

/// The data file and the log belong together: the log is made of whole records, and the
/// pages carry no other numbers than those of its records.
pub open spec fn fits(d: DiskView, w: WalView) -> bool {
    let recs = log_records(w);
    &&& whole(full(w))
    &&& full(w).len() > 0
    &&& numbered(recs, w.next)
    &&& backed(w)
    &&& forall|id: PageId| named(recs, state_of(plain(#[trigger] d.content(id))).lsn())
}

/// Pages as the log leaves them are kept.
pub proof fn lemma_starting(p: BufferPoolManager)
    requires
        p.wf(),
        fits(p.disk@, p.wal@),
        forall|id: PageId|
            calmed(#[trigger] recovered(p.disk@, log_records(p.wal@), id)) == Some(
                calm(state_of(p.page(id))),
            ),
    ensures
        kept(p, Map::empty()),
{
    reveal(kept);
    let recs = log_records(p.wal@);
    let open = Map::<PageId, PageState>::empty();
    assert forall|id: PageId| #[trigger] page_kept(p, open, id) by {
        let st = state_of(plain(p.disk@.content(id)));
        assert(calmed(recovered(p.disk@, recs, id)) == Some(calm(state_of(p.page(id)))));
        assert(calmed(replayed(recs, recs.len() as int, id, st)) == Some(
            calm(state_of(p.page(id))),
        ));
        assert(named(recs, state_of(plain(p.disk@.content(id))).lsn()));
        lemma_page_len(p, id);
        lemma_plain(p.page(id));
    }
}

/// What is on disk has the size of a page.
pub proof fn lemma_disk_state(p: BufferPoolManager, id: PageId)
    requires
        p.wf(),
    ensures
        sized(state_of(plain(p.disk@.content(id)))),
        plain(p.disk@.content(id)).len() == PAGE_SIZE,
{
    lemma_plain(p.disk@.content(id));
    lemma_state(p.disk@.content(id));
    lemma_plain(plain(p.disk@.content(id)));
}

/// A step of the pool that changes no page keeps the log up with the pages.
pub proof fn lemma_sound_step(a: BufferPoolManager, b: BufferPoolManager, trail: Trail)
    requires
        a.wf(),
        b.wf(),
        sound(a, trail),
        same_contents(a, b),
        same_storage(a, b),
    ensures
        sound(b, trail),
{
    if b.wal@.error is None && !trail.parted {
        reveal(kept);
        let recs = log_records(a.wal@);
        let n = recs.len() as int;
        assert(log_records(b.wal@) == recs);
        lemma_backed_step(a.wal@, b.wal@);
        assert forall|id: PageId| #[trigger] page_kept(b, trail.open, id) by {
            assert(page_kept(a, trail.open, id));
            assert(b.page(id) == a.page(id));
            lemma_disk_state(a, id);
            let st = state_of(plain(a.disk@.content(id)));
            let now = state_of(a.page(id));
            let cut = choose|cut: int|
                0 <= cut <= recs.len() && calmed(#[trigger] replayed(recs, cut, id, st)) == Some(
                    calm(now),
                );
            if plain(b.disk@.content(id)) != plain(a.disk@.content(id)) {
                assert(plain(b.disk@.content(id)) == a.page(id));
                let mid = replayed(recs, cut, id, st)->0;
                law_replay_twice_is_once(recs, cut, id, st);
                lemma_calm_replayed(recs, n, id, now, mid);
                assert(replayed(recs, 0, id, now) == Some(now));
                lemma_named(recs, cut, id, st);
                assert(calm(mid).lsn() == mid.lsn() && calm(now).lsn() == now.lsn());
            }
        }
    }
}

proof fn lemma_prefix(recs: Seq<RecordView>, r: RecordView, n: int, id: PageId, st: PageState)
    requires
        0 <= n <= recs.len(),
    ensures
        replayed(recs.push(r), n, id, st) == replayed(recs, n, id, st),
    decreases n,
{
    if n > 0 {
        lemma_prefix(recs, r, n - 1, id, st);
    }
}

/// A block that no other block of the record shares its page with does its work alone.
proof fn lemma_named_once(r: RecordView, n: int, k: int, id: PageId, st: PageState)
    requires
        0 <= n <= r.blocks.len(),
        forall|i: int| 0 <= i < n && i != k ==> (#[trigger] r.blocks[i]).page_id != id,
        0 <= k < n ==> r.blocks[k].page_id == id,
    ensures
        replayed_blocks(r, n, id, st) == (if 0 <= k < n {
            redone(r.kind, r.blocks[k], r.lsn, st)
        } else {
            Some(st)
        }),
    decreases n,
{
    if n > 0 {
        lemma_named_once(r, n - 1, k, id, st);
    }
}

/// The page that is meant carries a number below the next one.
proof fn lemma_meant_lsn(p: BufferPoolManager, open: Map<PageId, PageState>, id: PageId)
    requires
        p.wf(),
        kept(p, open),
    ensures
        meant(p, open, id).lsn() < p.wal@.next,
        sized(meant(p, open, id)),
{
    reveal(kept);
    assert(page_kept(p, open, id));
    let recs = log_records(p.wal@);
    let st = state_of(plain(p.disk@.content(id)));
    lemma_disk_state(p, id);
    lemma_named(recs, recs.len() as int, id, st);
    let full_now = replayed(recs, recs.len() as int, id, st)->0;
    assert(calm(full_now).lsn() == full_now.lsn());
    assert(calm(meant(p, open, id)).lsn() == meant(p, open, id).lsn());
}

/// The pages that the first `n` blocks name are to become the given states.
pub open spec fn opened(
    open: Map<PageId, PageState>,
    blocks: Seq<BlockView>,
    states: Seq<PageState>,
    n: int,
) -> Map<PageId, PageState>
    decreases n,
{
    if n <= 0 {
        open
    } else {
        opened(open, blocks, states, n - 1).insert(blocks[n - 1].page_id, states[n - 1])
    }
}

/// No two blocks name the same page.
pub open spec fn distinct_pages(blocks: Seq<BlockView>) -> bool {
    forall|i: int, j: int|
        0 <= i < j < blocks.len() ==> (#[trigger] blocks[i]).page_id != (
        #[trigger] blocks[j]).page_id
}

proof fn lemma_opened(
    open: Map<PageId, PageState>,
    blocks: Seq<BlockView>,
    states: Seq<PageState>,
    n: int,
    k: int,
    id: PageId,
)
    requires
        0 <= n <= blocks.len(),
        forall|i: int| 0 <= i < n && i != k ==> (#[trigger] blocks[i]).page_id != id,
        0 <= k < n ==> blocks[k].page_id == id,
    ensures
        0 <= k < n ==> opened(open, blocks, states, n).dom().contains(id) && opened(
            open,
            blocks,
            states,
            n,
        )[id] == states[k],
        !(0 <= k < n) ==> opened(open, blocks, states, n).dom().contains(id) == open.dom().contains(
            id,
        ) && opened(open, blocks, states, n)[id] == open[id],
    decreases n,
{
    if n > 0 {
        lemma_opened(open, blocks, states, n - 1, k, id);
    }
}

/// After a record was appended, the pages that it names are to become what it makes of them.
pub proof fn lemma_sound_logged(
    a: BufferPoolManager,
    b: BufferPoolManager,
    kind: WalRecordType,
    txn_id: u64,
    blocks: Seq<BlockView>,
    main: Option<Seq<u8>>,
    trail: Trail,
    states: Seq<PageState>,
)
    requires
        a.wf(),
        sound(a, trail),
        b.shards == a.shards,
        b.disk == a.disk,
        (Ok::<u64, WalError>(a.wal@.next), b.wal@) == appended(
            a.wal@,
            kind,
            txn_id,
            blocks,
            main,
        ),
        record_readable(new_record(a.wal@, kind, txn_id, blocks, main)),
        distinct_pages(blocks),
        states.len() == blocks.len(),
        !trail.parted ==> forall|i: int|
            0 <= i < blocks.len() ==> calmed(
                redone(
                    kind,
                    #[trigger] blocks[i],
                    a.wal@.next,
                    meant(a, trail.open, blocks[i].page_id),
                ),
            ) == Some(calm(states[i])),
    ensures
        sound(
            b,
            (Trail { open: opened(trail.open, blocks, states, blocks.len() as int), ..trail }),
        ),
        passed(
            a,
            trail,
            b,
            (Trail { open: opened(trail.open, blocks, states, blocks.len() as int), ..trail }),
        ),
        !trail.parted && b.wal@.error is None ==> a.wal@.error is None && log_records(b.wal@)
            == log_records(a.wal@).push(new_record(a.wal@, kind, txn_id, blocks, main)),
{
    let after = opened(trail.open, blocks, states, blocks.len() as int);
    if b.wal@.error is None && !trail.parted {
        reveal(kept);
        let w = a.wal@;
        let r = new_record(w, kind, txn_id, blocks, main);
        let recs = log_records(w);
        let n = recs.len() as int;
        let nb = blocks.len() as int;
        assert(b.wal@.waiting.drop_last() =~= w.waiting);
        law_written_is_read(full(w), w.segment_size, r);
        let more = recs.push(r);
        assert(log_records(b.wal@) == more);
        assert(numbered(more, b.wal@.next));
        assert(backed(b.wal@)) by {
            let k = read_all(w.segments).len() as int;
            assert(more.take(k) =~= recs.take(k));
            assert forall|j: int| k <= j < more.len() implies late(
                b.wal@,
                (#[trigger] more[j]).lsn,
            ) by {
                if j < n {
                    assert(late(w, recs[j].lsn));
                    let i = choose|i: int|
                        0 <= i < w.waiting.len() && (#[trigger] w.waiting[i]).0 == recs[j].lsn;
                    assert(b.wal@.waiting[i] == w.waiting[i]);
                } else {
                    assert(b.wal@.waiting[w.waiting.len() as int].0 == r.lsn);
                }
            }
        }
        assert forall|id: PageId| #[trigger] page_kept(b, after, id) by {
            assert(page_kept(a, trail.open, id));
            let st = state_of(plain(a.disk@.content(id)));
            assert(named(more, st.lsn())) by {
                if st.lsn() != 0 {
                    let i = choose|i: int|
                        0 <= i < recs.len() && (#[trigger] recs[i]).lsn == st.lsn();
                    assert(more[i].lsn == st.lsn());
                }
            }
            let cut = choose|cut: int|
                0 <= cut <= recs.len() && calmed(#[trigger] replayed(recs, cut, id, st)) == Some(
                    calm(state_of(a.page(id))),
                );
            lemma_prefix(recs, r, cut, id, st);
            assert(b.page(id) == a.page(id));
            assert(calmed(replayed(recs.push(r), cut, id, st)) == Some(calm(state_of(b.page(id)))));
            lemma_page_logged(a, b, kind, txn_id, blocks, main, trail, states, id, st);
        }
        let tb = Trail { open: after, ..trail };
        assert forall|d: DiskView| stands_in(d, a, trail) implies #[trigger] stands_in(d, b, tb) by {
            reveal(stands_in);
            assert forall|id: PageId| #[trigger] page_stands(d, b, tb, id) by {
                assert(page_stands(d, a, trail, id));
                let st = state_of(plain(d.content(id)));
                assert(named(more, st.lsn())) by {
                    if st.lsn() != 0 {
                        let i = choose|i: int|
                            0 <= i < recs.len() && (#[trigger] recs[i]).lsn == st.lsn();
                        assert(more[i].lsn == st.lsn());
                    }
                }
                assert(page_kept(a, trail.open, id));
                lemma_page_logged(a, b, kind, txn_id, blocks, main, trail, states, id, st);
            }
        }
    }
}

/// A page on which the log gives what it is meant to be, with the record appended gives what
/// it is meant to be then.
proof fn lemma_page_logged(
    a: BufferPoolManager,
    b: BufferPoolManager,
    kind: WalRecordType,
    txn_id: u64,
    blocks: Seq<BlockView>,
    main: Option<Seq<u8>>,
    trail: Trail,
    states: Seq<PageState>,
    id: PageId,
    st: PageState,
)
    requires
        distinct_pages(blocks),
        states.len() == blocks.len(),
        b.page(id) == a.page(id),
        sized(meant(a, trail.open, id)),
        forall|i: int|
            0 <= i < blocks.len() ==> calmed(
                redone(
                    kind,
                    #[trigger] blocks[i],
                    a.wal@.next,
                    meant(a, trail.open, blocks[i].page_id),
                ),
            ) == Some(calm(states[i])),
        calmed(
            replayed(log_records(a.wal@), log_records(a.wal@).len() as int, id, st),
        ) == Some(calm(meant(a, trail.open, id))),
    ensures
        ({
            let r = new_record(a.wal@, kind, txn_id, blocks, main);
            let more = log_records(a.wal@).push(r);
            let after = opened(trail.open, blocks, states, blocks.len() as int);
            &&& calmed(replayed(more, more.len() as int, id, st)) == Some(
                calm(meant(b, after, id)),
            )
            &&& sized(meant(b, after, id))
        }),
{
    let w = a.wal@;
    let r = new_record(w, kind, txn_id, blocks, main);
    let recs = log_records(w);
    let n = recs.len() as int;
    let nb = blocks.len() as int;
    let m = meant(a, trail.open, id);
    lemma_prefix(recs, r, n, id, st);
    let full_now = replayed(recs, n, id, st)->0;
    lemma_calm_blocks(r, nb, id, full_now, m);
    assert(recs.push(r)[n] == r);
    let k = if exists|k: int| 0 <= k < nb && (#[trigger] blocks[k]).page_id == id {
        choose|k: int| 0 <= k < nb && (#[trigger] blocks[k]).page_id == id
    } else {
        -1
    };
    lemma_named_once(r, nb, k, id, m);
    lemma_opened(trail.open, blocks, states, nb, k, id);
    if 0 <= k < nb {
        lemma_redone_lsn(kind, blocks[k], w.next, m);
        let x = redone(kind, blocks[k], w.next, m)->0;
        assert(calm(x).lsn() == x.lsn());
        assert(calm(states[k]).lsn() == states[k].lsn());
    }
}

/// The same, where the pages are known up to the mark of a split that awaits its downlink.
proof fn lemma_logged(
    a: BufferPoolManager,
    b: BufferPoolManager,
    kind: WalRecordType,
    txn_id: u64,
    blocks: Seq<BlockView>,
    trail: Trail,
    before: Seq<PageState>,
    now: Seq<PageState>,
)
    requires
        a.wf(),
        sound(a, trail),
        b.shards == a.shards,
        b.disk == a.disk,
        (Ok::<u64, WalError>(a.wal@.next), b.wal@) == appended(
            a.wal@,
            kind,
            txn_id,
            blocks,
            None,
        ),
        blocks.len() <= 255,
        forall|i: int| 0 <= i < blocks.len() ==> block_readable(#[trigger] blocks[i]),
        distinct_pages(blocks),
        before.len() == blocks.len(),
        now.len() == blocks.len(),
        forall|i: int|
            0 <= i < blocks.len() && !trail.parted ==> calm(before[i]) == calm(
                meant(a, trail.open, (#[trigger] blocks[i]).page_id),
            ),
        forall|i: int|
            0 <= i < blocks.len() && !trail.parted && before[i].lsn() < a.wal@.next ==> calmed(
                redone(kind, #[trigger] blocks[i], a.wal@.next, before[i]),
            ) == Some(calm(now[i])),
    ensures
        sound(
            b,
            (Trail { open: opened(trail.open, blocks, now, blocks.len() as int), ..trail }),
        ),
        passed(
            a,
            trail,
            b,
            (Trail { open: opened(trail.open, blocks, now, blocks.len() as int), ..trail }),
        ),
        !(kind is Commit) && !(kind is Abort) ==> noted(a, b, trail, txn_id),
{
    if b.wal@.error is None && !trail.parted {
        assert(a.wal@.error is None);
        assert forall|i: int| 0 <= i < blocks.len() implies calmed(
            redone(
                kind,
                #[trigger] blocks[i],
                a.wal@.next,
                meant(a, trail.open, blocks[i].page_id),
            ),
        ) == Some(calm(now[i])) by {
            let m = meant(a, trail.open, blocks[i].page_id);
            lemma_meant_lsn(a, trail.open, blocks[i].page_id);
            assert(before[i].lsn() == calm(before[i]).lsn());
            assert(m.lsn() == calm(m).lsn());
            lemma_calm_redone(kind, blocks[i], a.wal@.next, before[i], m);
        }
        lemma_sound_logged(a, b, kind, txn_id, blocks, None, trail, now);
        if !(kind is Commit) && !(kind is Abort) {
            lemma_grew(log_records(a.wal@), new_record(a.wal@, kind, txn_id, blocks, None));
        }
    }
}

/// A record that ends no transaction changes no verdict.
proof fn lemma_grew(recs: Seq<RecordView>, r: RecordView)
    requires
        !(r.kind is Commit),
        !(r.kind is Abort),
    ensures
        forall|id: u64| #[trigger] verdict(recs.push(r), id) == verdict(recs, id),
        forall|id: u64| names(recs, id) ==> #[trigger] names(recs.push(r), id),
        names(recs.push(r), r.txn_id),
{
    let more = recs.push(r);
    assert(more.drop_last() =~= recs);
    assert forall|id: u64| names(recs, id) implies #[trigger] names(more, id) by {
        let i = choose|i: int| 0 <= i < recs.len() && (#[trigger] recs[i]).txn_id == id;
        assert(more[i].txn_id == id);
    }
    assert(more[recs.len() as int].txn_id == r.txn_id);
}

/// A record of one block was appended.
pub proof fn lemma_logged_one(
    a: BufferPoolManager,
    b: BufferPoolManager,
    kind: WalRecordType,
    txn_id: u64,
    block: BlockView,
    trail: Trail,
    before: PageState,
    now: PageState,
)
    requires
        a.wf(),
        sound(a, trail),
        b.shards == a.shards,
        b.disk == a.disk,
        (Ok::<u64, WalError>(a.wal@.next), b.wal@) == appended(
            a.wal@,
            kind,
            txn_id,
            seq![block],
            None,
        ),
        block_readable(block),
        !trail.parted ==> calm(before) == calm(meant(a, trail.open, block.page_id)),
        !trail.parted && before.lsn() < a.wal@.next ==> calmed(
            redone(kind, block, a.wal@.next, before),
        ) == Some(calm(now)),
    ensures
        sound(b, (Trail { open: trail.open.insert(block.page_id, now), ..trail })),
        passed(a, trail, b, (Trail { open: trail.open.insert(block.page_id, now), ..trail })),
        !(kind is Commit) && !(kind is Abort) ==> noted(a, b, trail, txn_id),
{
    lemma_logged(a, b, kind, txn_id, seq![block], trail, seq![before], seq![now]);
    reveal_with_fuel(opened, 2);
}

/// What a record makes of a page that is known up to the mark of a split.
pub open spec fn makes(
    a: BufferPoolManager,
    trail: Trail,
    kind: WalRecordType,
    block: BlockView,
    before: PageState,
    now: PageState,
) -> bool {
    &&& block_readable(block)
    &&& !trail.parted ==> calm(before) == calm(meant(a, trail.open, block.page_id))
    &&& before.lsn() < a.wal@.next ==> calmed(redone(kind, block, a.wal@.next, before)) == Some(
        calm(now),
    )
}

/// A record of two blocks was appended.
pub proof fn lemma_logged_two(
    a: BufferPoolManager,
    b: BufferPoolManager,
    kind: WalRecordType,
    txn_id: u64,
    blocks: (BlockView, BlockView),
    trail: Trail,
    before: (PageState, PageState),
    now: (PageState, PageState),
)
    requires
        a.wf(),
        sound(a, trail),
        b.shards == a.shards,
        b.disk == a.disk,
        (Ok::<u64, WalError>(a.wal@.next), b.wal@) == appended(
            a.wal@,
            kind,
            txn_id,
            seq![blocks.0, blocks.1],
            None,
        ),
        blocks.0.page_id != blocks.1.page_id,
        makes(a, trail, kind, blocks.0, before.0, now.0),
        makes(a, trail, kind, blocks.1, before.1, now.1),
    ensures
        sound(
            b,
            (Trail {
                open: trail.open.insert(blocks.0.page_id, now.0).insert(blocks.1.page_id, now.1),
                ..trail
            }),
        ),
        passed(
            a,
            trail,
            b,
            (Trail {
                open: trail.open.insert(blocks.0.page_id, now.0).insert(blocks.1.page_id, now.1),
                ..trail
            }),
        ),
        !(kind is Commit) && !(kind is Abort) ==> noted(a, b, trail, txn_id),
{
    let bs = seq![blocks.0, blocks.1];
    let was = seq![before.0, before.1];
    let after = seq![now.0, now.1];
    assert forall|i: int| 0 <= i < bs.len() implies makes(
        a,
        trail,
        kind,
        #[trigger] bs[i],
        was[i],
        after[i],
    ) by {
        if i != 0 {
            assert(i == 1);
        }
    }
    lemma_logged(a, b, kind, txn_id, bs, trail, was, after);
    reveal_with_fuel(opened, 3);
}

/// A record of three blocks was appended.
pub proof fn lemma_logged_three(
    a: BufferPoolManager,
    b: BufferPoolManager,
    kind: WalRecordType,
    txn_id: u64,
    blocks: (BlockView, BlockView, BlockView),
    trail: Trail,
    before: (PageState, PageState, PageState),
    now: (PageState, PageState, PageState),
)
    requires
        a.wf(),
        sound(a, trail),
        b.shards == a.shards,
        b.disk == a.disk,
        (Ok::<u64, WalError>(a.wal@.next), b.wal@) == appended(
            a.wal@,
            kind,
            txn_id,
            seq![blocks.0, blocks.1, blocks.2],
            None,
        ),
        blocks.0.page_id != blocks.1.page_id,
        blocks.0.page_id != blocks.2.page_id,
        blocks.1.page_id != blocks.2.page_id,
        makes(a, trail, kind, blocks.0, before.0, now.0),
        makes(a, trail, kind, blocks.1, before.1, now.1),
        makes(a, trail, kind, blocks.2, before.2, now.2),
    ensures
        sound(
            b,
            (Trail {
                open: trail.open.insert(blocks.0.page_id, now.0).insert(
                    blocks.1.page_id,
                    now.1,
                ).insert(blocks.2.page_id, now.2),
                ..trail
            }),
        ),
        passed(
            a,
            trail,
            b,
            (Trail {
                open: trail.open.insert(blocks.0.page_id, now.0).insert(
                    blocks.1.page_id,
                    now.1,
                ).insert(blocks.2.page_id, now.2),
                ..trail
            }),
        ),
        !(kind is Commit) && !(kind is Abort) ==> noted(a, b, trail, txn_id),
{
    let bs = seq![blocks.0, blocks.1, blocks.2];
    let was = seq![before.0, before.1, before.2];
    let after = seq![now.0, now.1, now.2];
    assert forall|i: int| 0 <= i < bs.len() implies makes(
        a,
        trail,
        kind,
        #[trigger] bs[i],
        was[i],
        after[i],
    ) by {
        if i == 0 {
        } else if i == 1 {
        } else {
            assert(i == 2);
        }
    }
    lemma_logged(a, b, kind, txn_id, bs, trail, was, after);
    reveal_with_fuel(opened, 4);
}

/// The image of a leaf gives the leaf back.
pub proof fn lemma_leaf_image(kind: WalRecordType, id: PageId, page: Seq<u8>, lsn: u64, st: PageState)
    requires
        leaf_wf(page),
        st.lsn() < lsn,
    ensures
        redone(kind, image_block(id, page), lsn, st) == Some(
            PageState::Leaf(LeafView { lsn, ..leaf_view(page) }),
        ),
{
    crate::page::leaf::lemma_leaf_lsn(page, lsn);
    law_logged_image_is_redone(kind, id, page, lsn, st);
}

/// The image of an internal page gives the page back.
pub proof fn lemma_internal_image(
    kind: WalRecordType,
    id: PageId,
    page: Seq<u8>,
    lsn: u64,
    st: PageState,
)
    requires
        int_wf(page),
        st.lsn() < lsn,
    ensures
        redone(kind, image_block(id, page), lsn, st) == Some(
            PageState::Internal(InternalView { lsn, ..int_view(page) }),
        ),
{
    crate::page::internal::lemma_int_lsn(page, lsn);
    law_logged_image_is_redone(kind, id, page, lsn, st);
}

/// An append that was refused leaves everything as it was.
pub proof fn lemma_sound_refused(
    a: BufferPoolManager,
    b: BufferPoolManager,
    kind: WalRecordType,
    txn_id: u64,
    blocks: Seq<BlockView>,
    main: Option<Seq<u8>>,
    trail: Trail,
)
    requires
        sound(a, trail),
        b.shards == a.shards,
        b.disk == a.disk,
        appended(a.wal@, kind, txn_id, blocks, main).0 is Err,
        b.wal@ == appended(a.wal@, kind, txn_id, blocks, main).1,
    ensures
        sound(b, trail),
        passed(a, trail, b, trail),
{
    if b.wal@.error is None && !trail.parted {
        reveal(stands_in);
        assert forall|d: DiskView| stands_in(d, a, trail) implies #[trigger] stands_in(
            d,
            b,
            trail,
        ) by {
            assert forall|id: PageId| #[trigger] page_stands(d, b, trail, id) by {
                assert(page_stands(d, a, trail, id));
                assert(b.page(id) == a.page(id));
            }
        }
        reveal(kept);
        assert forall|j: int|
            read_all(b.wal@.segments).len() <= j < log_records(b.wal@).len() implies late(
            b.wal@,
            (#[trigger] log_records(b.wal@)[j]).lsn,
        ) by {
            assert(late(a.wal@, log_records(a.wal@)[j].lsn));
        }
        assert forall|id: PageId| #[trigger] page_kept(b, trail.open, id) by {
            assert(page_kept(a, trail.open, id));
            assert(b.page(id) == a.page(id));
        }
    }
}

/// A page that became what it was to become is released.
pub proof fn lemma_sound_released(
    a: BufferPoolManager,
    b: BufferPoolManager,
    id: PageId,
    trail: Trail,
)
    requires
        sound(a, trail),
        b.wal == a.wal,
        b.disk == a.disk,
        forall|x: u64| x != id ==> #[trigger] b.page(x) == a.page(x),
        !trail.parted ==> calm(state_of(b.page(id))) == calm(meant(a, trail.open, id)),
        b.page(id).len() == PAGE_SIZE,
    ensures
        sound(b, Trail { open: trail.open.remove(id), ..trail }),
        passed(a, trail, b, Trail { open: trail.open.remove(id), ..trail }),
{
    assert forall|x: PageId| !trail.parted implies #[trigger] calm(
        meant(b, trail.open.remove(id), x),
    ) == calm(meant(a, trail.open, x)) by {
        if x != id {
            assert(b.page(x) == a.page(x));
        }
    }
    lemma_passed(a, trail, b, Trail { open: trail.open.remove(id), ..trail });
    if b.wal@.error is None && !trail.parted {
        reveal(kept);
        let recs = log_records(a.wal@);
        let less = trail.open.remove(id);
        assert forall|x: PageId| #[trigger] page_kept(b, less, x) by {
            assert(page_kept(a, trail.open, x));
            let st = state_of(plain(a.disk@.content(x)));
            if x == id {
                assert(calmed(replayed(recs, recs.len() as int, id, st)) == Some(
                    calm(state_of(b.page(id))),
                ));
                lemma_state(b.page(id));
                lemma_plain(b.page(id));
            } else {
                assert(b.page(x) == a.page(x));
            }
        }
    }
}

/// The last page that was open is released.
pub proof fn lemma_released(
    a: BufferPoolManager,
    b: BufferPoolManager,
    g: PageWriteGuard,
    trail: Trail,
)
    requires
        sound(a, trail),
        b.wal == a.wal,
        b.disk == a.disk,
        forall|x: u64| x != g.page_id ==> #[trigger] b.page(x) == a.page(x),
        b.page(g.page_id) == plain(g@),
        g@.len() == PAGE_SIZE,
        follows(a, trail, g),
    ensures
        sound(b, closing(trail, g.page_id)),
        passed(a, trail, b, closing(trail, g.page_id)),
        only_open(trail, g.page_id) ==> settled(closing(trail, g.page_id)),
{
    lemma_state(g@);
    lemma_plain(g@);
    lemma_sound_released(a, b, g.page_id, trail);
    if only_open(trail, g.page_id) && !trail.parted {
        assert(trail.open.remove(g.page_id) =~= Map::empty());
    }
}

} // verus!
