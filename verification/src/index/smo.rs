//! Changes to the tree: rows put into leaves, leaves and internal pages split, downlinks
//! inserted, splits that were left incomplete finished.

use crate::buffer_pool::manager::{
    lemma_upheld_logged, same_contents, same_storage, unpinned, upheld, BufferPoolManager,
    PageWriteGuard,
};
use crate::constants::{MAX_KEY_SIZE, MAX_VALUE_SIZE};
use crate::error::{IndexError, PageError, WalError};
use crate::index::floor::{
    carried, floats, floor_kept, grounded, lemma_carried, lemma_level, lemma_same_passed, level,
    steady, told_by,
};
use crate::index::ops::{lemma_spared_chain, lemma_told_chain};
use crate::index::rows::{
    left_of, lemma_empty_has_room, lemma_halves, lemma_kept_rows, lemma_put_rows, lemma_split_point,
    no_space, placed, put, right_of, room, splice, split_and_put, split_point, vacuumed,
};
use crate::index::trail::{
    awaits, calm, closing, follows, lemma_bare_redone, lemma_calm_flags, lemma_internal_image,
    lemma_leaf_image, lemma_logged_one, lemma_logged_three, lemma_logged_two, lemma_on_trail,
    lemma_released, lemma_root_redone, lemma_sound_step, meant, noted, on_trail, only_open, parting,
    paced, passed, settled, signed, sound, spared, stamped, trailed, within, Trail,
};
use crate::index::tree::{
    at_least, at_most, child_added, fresh, good_children, good_internal, good_key, good_leaf, grown,
    has_parent, leaf_parts, lemma_child_added, lemma_children_insert, lemma_children_kept,
    lemma_children_split,
    lemma_fresh, lemma_node_edit, lemma_node_split, lemma_same_meta, lemma_same_view,
    lemma_loose, lemma_mark_cleared, lemma_mark_raised,
    lemma_mark_split, lemma_marks_kept, lemma_parent_kept, lemma_tree_kept, lemma_upright_same, linked, loose,
    marked_halves, marked_only, names_child, node_wf, pointed_back, raised, tree_wf, Part, Shape,
};
use crate::index::{
    broke, held, holds_leaf, lemma_hold, lemma_unhold, log_stuck, BTreeIndex, LOG_NEED,
};
use crate::page::internal::{
    child_index, int_used, int_view, int_wf, key_total, key_views, keys_sorted,
    InternalPageAccessor, InternalPageBuilder, InternalPageMutator, InternalView,
};
use crate::page::leaf::{
    kept_rows, leaf_view, leaf_wf, packed_room, row_need, search, LeafPageAccessor, LeafPageBuilder,
    LeafPageMutator, LeafView, Row, Version,
};
use crate::page::{plain, split_incomplete, Lsn, PageId, PAGE_SIZE};
use crate::recovery::clog::names;
use crate::recovery::redo::{
    int_room, law_logged_downlink_is_redone, law_logged_insert_is_redone, state_of, PageState,
};
use crate::transaction::SYSTEM_TXN_ID;
use crate::transaction_manager::{TmView, TransactionManager};
use crate::types::{canonical, key_order, Key, Value};
use crate::wal::log::{
    bare_block, data_block, downlink_payload, image_block, insert_payload, law_blocks_are_readable,
    lemma_small_record,
};
use crate::wal::record::{record_size, BlockView, WalRecordType};
use crate::wal::segment::read_all;
use crate::wal::{appended, WalView};
use vstd::prelude::*;

verus! {

broadcast use crate::bytes::group_int_bytes;

/// The pages, in the pool and on disk, are what they were.
pub open spec fn same_pages<K: Key, V: Value>(a: BTreeIndex<K, V>, b: BTreeIndex<K, V>) -> bool {
    &&& b.root == a.root
    &&& b.shape@ == a.shape@
    &&& b.pool.shards == a.pool.shards
    &&& b.pool.disk == a.pool.disk
    &&& b.pool.next_page_id == a.pool.next_page_id
    &&& b.pool.wal.wf()
    &&& !b.pool.wal@.flushing
    &&& sound(b.pool, b.trail@)
}

/// The same pages are marked as split as before.
pub open spec fn marks_kept<K: Key, V: Value>(a: BTreeIndex<K, V>, b: BTreeIndex<K, V>) -> bool {
    forall|pid: Option<PageId>| #[trigger]
        marked_only(a.pool, a.shape@, pid) ==> marked_only(b.pool, b.shape@, pid)
}

/// It is so where no page has a mark that it did not have.
pub(crate) proof fn lemma_same_marks<K: Key, V: Value>(a: BTreeIndex<K, V>, b: BTreeIndex<K, V>)
    requires
        b.shape@ == a.shape@,
        forall|l: int, i: int|
            0 <= l < a.shape@.levels.len() && 0 <= i < a.shape@.levels[l].len()
                && split_incomplete(b.pool.page(#[trigger] a.shape@.levels[l][i]))
                ==> split_incomplete(a.pool.page(a.shape@.levels[l][i])),
    ensures
        marks_kept(a, b),
{
    assert forall|pid: Option<PageId>| #[trigger] marked_only(
        a.pool,
        a.shape@,
        pid,
    ) implies marked_only(b.pool, b.shape@, pid) by {
        lemma_marks_kept(a.pool, b.pool, a.shape@, pid);
    }
}

/// Only the log changed, and its segments did not.
pub open spec fn only_logged<K: Key, V: Value>(a: BTreeIndex<K, V>, b: BTreeIndex<K, V>) -> bool {
    &&& same_pages(a, b)
    &&& b.pool.wal@.segments == a.pool.wal@.segments
    &&& b.pool.wal@.error == a.pool.wal@.error
    &&& b.trail@.floor == a.trail@.floor
    &&& a.trail@.parted ==> b.trail@.parted
    &&& b.pool.wal@.next <= a.pool.wal@.next + 1
}

/// Logging keeps the index in order.
pub proof fn lemma_only_logged<K: Key, V: Value>(a: BTreeIndex<K, V>, b: BTreeIndex<K, V>)
    requires
        a.tree(),
        only_logged(a, b),
    ensures
        b.tree(),
        b.parts() == a.parts(),
        same_contents(a.pool, b.pool),
        forall|s: Set<u64>, n: int| #[trigger] held(a.pool, s, n) ==> held(b.pool, s, n),
        forall|id: u64| #[trigger] b.pool.pins(id) == a.pool.pins(id),
{
    assert forall|k: int| 0 <= k < b.pool.shards@.len() implies #[trigger] b.pool.shard_wf(k) by {
        assert(a.pool.shard_wf(k));
    }
    assert(b.pool.wf());
    assert forall|id: u64| #[trigger] b.pool.page(id) == a.pool.page(id) by {}
    lemma_tree_kept::<K, V>(a.pool, b.pool, a.root, a.shape@);
    assert forall|s: Set<u64>, n: int| #[trigger] held(a.pool, s, n) implies held(
        b.pool,
        s,
        n,
    ) by {
        assert forall|id: u64| #[trigger]
            b.pool.pins(id) == (if s.contains(id) {
                1int
            } else {
                0
            }) by {
            assert(b.pool.pins(id) == a.pool.pins(id));
        }
    }
}

/// A record that the index logs is refused only by a log that takes none.
pub proof fn lemma_refused(
    w: WalView,
    kind: WalRecordType,
    txn_id: u64,
    blocks: Seq<BlockView>,
    main: Option<Seq<u8>>,
)
    requires
        0 <= record_size(blocks, main) <= LOG_NEED,
    ensures
        appended(w, kind, txn_id, blocks, main).0 is Err ==> log_stuck(
            appended(w, kind, txn_id, blocks, main).1,
        ),
        appended(w, kind, txn_id, blocks, main).1.flushing == w.flushing,
        paced(w, appended(w, kind, txn_id, blocks, main).1),
        appended(w, kind, txn_id, blocks, main).1.next <= w.next + 1,
        w.ready() ==> appended(w, kind, txn_id, blocks, main).1.ready(),
{
}

impl<K: Key, V: Value> BTreeIndex<K, V> {
    /// Puts a new version into the leaf that is held, and logs it. The outer error says
    /// that it does not fit; the inner one, that it is there but could not be logged.
    pub(crate) fn try_put(
        &mut self,
        guard: &mut PageWriteGuard,
        key: &[u8],
        val: &[u8],
        txn_id: u64,
    ) -> (r: Result<Result<(), WalError>, PageError>)
        requires
            old(self).tree(),
            leaf_wf(old(guard)@),
            crate::page::leaf::rows_typed::<K, V>(leaf_view(old(guard)@).rows),
            K::accepts(key@),
            key@.len() <= MAX_KEY_SIZE,
            val@.len() <= MAX_VALUE_SIZE,
            follows(old(self).pool, old(self).trail@, *old(guard)),
        ensures
            only_logged(*old(self), *final(self)),
            follows(final(self).pool, final(self).trail@, *final(guard)),
            final(self).trail@ == (match r {
                Err(_) => old(self).trail@,
                Ok(Ok(())) => Trail {
                    open: old(self).trail@.open.insert(
                        old(guard).page_id,
                        state_of(final(guard)@),
                    ),
                    ..old(self).trail@
                },
                Ok(Err(_)) => parting(old(self).trail@),
            }),
            spared(
                *old(self),
                *final(self),
                r matches Ok(logged) && logged is Err,
            ),
            final(guard).page_id == old(guard).page_id,
            final(guard).dirty,
            leaf_wf(final(guard)@),
            leaf_view(final(guard)@).flags == leaf_view(old(guard)@).flags,
            ({
                let leaf = leaf_view(old(guard)@);
                let after = leaf_view(final(guard)@);
                let at = search::<K>(leaf.rows, key@, 0, leaf.rows.len() as int).0;
                match r {
                    Err(e) => {
                        &&& row_need(key@, val@) > leaf.free
                        &&& e == PageError::InsufficientSpace {
                            needed: row_need(key@, val@) as usize,
                            available: leaf.free as usize,
                        }
                        &&& after == leaf
                        &&& final(self).pool.wal@ == old(self).pool.wal@
                    },
                    Ok(logged) => {
                        &&& row_need(key@, val@) <= leaf.free
                        &&& 0 <= at <= leaf.rows.len()
                        &&& after.rows == leaf.rows.insert(
                            at,
                            Version { key: key@, val: val@, xmin: txn_id, xmax: 0 },
                        )
                        &&& after == (LeafView {
                            rows: after.rows,
                            free: leaf.free - row_need(key@, val@),
                            lsn: after.lsn,
                            ..leaf
                        })
                        &&& logged is Ok ==> {
                            &&& after.lsn == old(self).pool.wal@.next
                            &&& (Ok::<u64, WalError>(after.lsn), final(self).pool.wal@) == appended(
                                old(self).pool.wal@,
                                WalRecordType::Insert,
                                txn_id,
                                seq![
                                    data_block(
                                        old(guard).page_id,
                                        insert_payload(at as u16, key@, val@, txn_id),
                                    ),
                                ],
                                None,
                            )
                        }
                        &&& logged is Err ==> log_stuck(final(self).pool.wal@)
                        &&& signed(*final(self), txn_id)
                    },
                }
            }),
    {
        let ghost a = *self;
        let ghost leaf = leaf_view(guard@);
        let (slot, _found) = LeafPageAccessor::<K, V>::new(guard.memory()).position_bytes(key);
        let mut m = LeafPageMutator::<K, V>::new(guard.memory_mut());
        match m.insert_bytes(slot, key, val) {
            Ok(()) => {},
            Err(e) => {
                return Err(e);
            },
        }
        m.set_xmin(slot, txn_id);
        proof {
            let r = Version { key: key@, val: val@, xmin: 0, xmax: 0 };
            assert(leaf.rows.insert(slot as int, r).update(
                slot as int,
                Version { xmin: txn_id, ..r },
            ) =~= leaf.rows.insert(slot as int, Version { xmin: txn_id, ..r }));
        }
        let pid: PageId = guard.page_id;
        let ghost w = self.pool.wal@;
        let ghost payload = insert_payload(slot as u16, key@, val@, txn_id);
        let logged = self.pool.wal.log_insert(txn_id, pid, slot as u16, key, val, txn_id);
        proof {
            let bs = seq![data_block(pid, payload)];
            lemma_small_record(bs, None);
            lemma_refused(w, WalRecordType::Insert, txn_id, bs, None);
            lemma_upheld_logged(a.pool, self.pool);
        }
        match logged {
            Ok(lsn) => {
                LeafPageMutator::<K, V>::new(guard.memory_mut()).set_lsn(lsn);
                let ghost now = state_of(guard@);
                self.trail = Ghost(Trail { open: a.trail@.open.insert(pid, now), ..a.trail@ });
                proof {
                    law_blocks_are_readable(pid, payload, guard@);
                    if leaf.lsn < w.next {
                        law_logged_insert_is_redone(
                            leaf,
                            pid,
                            slot as u16,
                            key@,
                            val@,
                            txn_id,
                            lsn,
                        );
                    }
                    lemma_logged_one(
                        a.pool,
                        self.pool,
                        WalRecordType::Insert,
                        txn_id,
                        data_block(pid, payload),
                        a.trail@,
                        PageState::Leaf(leaf),
                        now,
                    );
                }
                Ok(Ok(()))
            },
            Err(e) => {
                self.trail = Ghost(parting(a.trail@));
                Ok(Err(e))
            },
        }
    }

    /// Releases a leaf whose rows were changed.
    pub(crate) fn put_back(&mut self, guard: PageWriteGuard, at: Ghost<int>)
        requires
            old(self).tree(),
            held(old(self).pool, Set::empty().insert(guard.page_id), 1),
            0 <= at@ < old(self).shape@.levels[0].len(),
            old(self).shape@.levels[0][at@] == guard.page_id,
            guard.dirty,
            good_leaf::<K, V>(guard@, old(self).shape@.low[guard.page_id]),
            leaf_view(guard@).high == leaf_view(old(self).pool.page(guard.page_id)).high,
            leaf_view(guard@).right == leaf_view(old(self).pool.page(guard.page_id)).right,
            leaf_view(guard@).prev == leaf_view(old(self).pool.page(guard.page_id)).prev,
            split_incomplete(guard@) == split_incomplete(old(self).pool.page(guard.page_id)),
            on_trail(old(self).pool, old(self).trail@, guard),
        ensures
            final(self).wf(),
            final(self).trail@ == closing(old(self).trail@, guard.page_id),
            passed(old(self).pool, old(self).trail@, final(self).pool, final(self).trail@),
            final(self).root == old(self).root,
            final(self).shape@ == old(self).shape@,
            final(self).pool.wal == old(self).pool.wal,
            final(self).pool.next_page_id == old(self).pool.next_page_id,
            final(self).rooted() == old(self).rooted(),
            final(self).parts() == old(self).parts().update(
                at@,
                Part { rows: leaf_view(guard@).rows, ..old(self).parts()[at@] },
            ),
            leaf_view(final(self).pool.page(guard.page_id)) == leaf_view(guard@),
            marks_kept(*old(self), *final(self)),
            forall|id: u64|
                id != guard.page_id ==> #[trigger] final(self).pool.page(id) == old(self).pool.page(id),
            old(self).pool.faulty() ==> final(self).pool.faulty(),
            upheld(old(self).pool, final(self).pool),
    {
        let ghost a = *self;
        let ghost g = guard;
        self.pool.release_mut(guard);
        self.trail = Ghost(closing(a.trail@, g.page_id));
        proof {
            let sh = a.shape@;
            lemma_released(a.pool, self.pool, g, a.trail@);
            lemma_same_view(g@);
            assert(node_wf::<K, V>(a.pool, sh, 0, at@));
            lemma_node_edit::<K, V>(a.pool, self.pool, a.root, sh, 0, at@);
            lemma_same_marks(a, *self);
            lemma_unhold(a.pool, self.pool, Set::empty().insert(g.page_id), 1, g.page_id);
            assert(Set::<u64>::empty().insert(g.page_id).remove(g.page_id) =~= Set::empty());
            assert(self.pool.page(0) == a.pool.page(0));
        }
    }
}

/// What a split of a leaf came to.
pub(crate) enum LeafSplit {
    /// The leaf is as it was.
    Failed(IndexError),
    /// The leaf holds its lower half; the page `rid` holds the upper one, from `sep` on. The
    /// old right neighbour is still held.
    Done {
        sep: Vec<u8>,
        rid: PageId,
        neighbour: Option<PageWriteGuard>,
        logged: Result<(), WalError>,
    },
}

/// The rows of a leaf.
fn collect_rows<K: Key, V: Value>(acc: &LeafPageAccessor<'_, K, V>) -> (rows: Vec<Row>)
    requires
        acc.wf(),
    ensures
        crate::page::leaf::row_views(rows@) == acc.leaf().rows,
{
    let n: usize = acc.num_pairs() as usize;
    let mut rows: Vec<Row> = Vec::new();
    let mut i: usize = 0;
    while i < n
        invariant
            acc.wf(),
            n == acc.leaf().rows.len(),
            i <= n,
            rows@.len() == i,
            forall|j: int| 0 <= j < i ==> (#[trigger] rows@[j]).ver() == acc.leaf().rows[j],
        decreases n - i,
    {
        rows.push(
            Row {
                key: vstd::slice::slice_to_vec(acc.key_bytes_at(i)),
                val: vstd::slice::slice_to_vec(acc.value_bytes_at(i)),
                xmin: acc.get_xmin(i),
                xmax: acc.get_xmax(i),
            },
        );
        i = i + 1;
    }
    assert(crate::page::leaf::row_views(rows@) =~= acc.leaf().rows);
    rows
}

/// Where to split the rows.
fn find_split_point<K: Key>(rows: &Vec<Row>) -> (m: usize)
    requires
        K::width_fits(),
        rows@.len() > 0,
        forall|i: int| 0 <= i < rows@.len() ==> K::accepts((#[trigger] rows@[i]).key@),
    ensures
        m == split_point::<K>(crate::page::leaf::row_views(rows@)),
        m < rows@.len(),
{
    let ghost all = crate::page::leaf::row_views(rows@);
    let n: usize = rows.len();
    let target: usize = n / 2;
    let ghost key = all[target as int].key;
    proof {
        lemma_split_point::<K>(all);
    }
    let mut end: usize = target;
    while end < n
        invariant
            K::width_fits(),
            n == rows@.len(),
            target < n,
            target <= end <= n,
            all == crate::page::leaf::row_views(rows@),
            key == all[target as int].key,
            forall|i: int| 0 <= i < rows@.len() ==> K::accepts((#[trigger] rows@[i]).key@),
            crate::index::rows::run_end::<K>(all, key, end as int)
                == crate::index::rows::run_end::<K>(all, key, target as int),
        ensures
            end == crate::index::rows::run_end::<K>(all, key, target as int),
        decreases n - end,
    {
        assert(all[end as int].key == rows@[end as int].key@);
        if key_order::<K>(rows[end].key.as_slice(), rows[target].key.as_slice()) != 0 {
            break;
        }
        end = end + 1;
    }
    let mut at: usize = end;
    if end >= n {
        at = target;
        while at > 0
            invariant
                K::width_fits(),
                n == rows@.len(),
                target < n,
                at <= target,
                all == crate::page::leaf::row_views(rows@),
                key == all[target as int].key,
                forall|i: int| 0 <= i < rows@.len() ==> K::accepts((#[trigger] rows@[i]).key@),
                crate::index::rows::run_start::<K>(all, key, at as int)
                    == crate::index::rows::run_start::<K>(all, key, target as int),
            ensures
                at == crate::index::rows::run_start::<K>(all, key, target as int),
            decreases at,
        {
            assert(all[at - 1].key == rows@[at - 1].key@);
            if key_order::<K>(rows[at - 1].key.as_slice(), rows[target].key.as_slice()) != 0 {
                break;
            }
            at = at - 1;
        }
    }
    if at == 0 {
        target
    } else {
        at
    }
}

/// Writes a leaf with the rows `lo..hi`.
fn build_leaf<K: Key, V: Value>(
    data: &mut [u8],
    pid: PageId,
    high: Option<&[u8]>,
    right: Option<PageId>,
    prev: Option<PageId>,
    rows: &Vec<Row>,
    lo: usize,
    hi: usize,
)
    requires
        old(data).len() == PAGE_SIZE,
        lo <= hi <= rows@.len(),
        high matches Some(h) ==> 0 < h@.len() <= MAX_KEY_SIZE,
        0 <= packed_room(
            crate::wal::record::seq_of(high),
            crate::page::leaf::row_views(rows@).subrange(lo as int, hi as int),
        ),
    ensures
        leaf_wf(final(data)@),
        ({
            let part = crate::page::leaf::row_views(rows@).subrange(lo as int, hi as int);
            let h = crate::wal::record::seq_of(high);
            leaf_view(final(data)@) == (LeafView {
                id: pid,
                lsn: 0,
                flags: 0,
                prev: crate::page::leaf::link(prev.unwrap_or(0)),
                right: crate::page::leaf::link(right.unwrap_or(0)),
                high: h,
                rows: part,
                free: packed_room(h, part),
            })
        }),
{
    let ghost part = crate::page::leaf::row_views(rows@).subrange(lo as int, hi as int);
    let mut b = LeafPageBuilder::<K, V>::new(pid, data);
    if let Some(h) = high {
        b.set_high_key(h);
    }
    b.set_rightlink(right);
    b.set_prev_page(prev);
    assert(b.leaf().rows + part =~= part);
    b.push_rows(rows, lo, hi);
    let _m = b.finish();
}

/// A page without flags is not marked.
proof fn lemma_unmarked()
    ensures
        0u8 & crate::page::FLAG_INCOMPLETE_SPLIT == 0,
{
    assert(0u8 & 1u8 == 0) by (bit_vector);
}

/// A page outside the tree may hold anything.
pub proof fn lemma_outside<K: Key, V: Value>(
    a: BufferPoolManager,
    b: BufferPoolManager,
    root: PageId,
    sh: Shape,
    rid: PageId,
)
    requires
        tree_wf::<K, V>(a, root, sh),
        fresh(sh, rid),
        a.next_page_id <= b.next_page_id,
        forall|o: u64| o != rid ==> #[trigger] b.page(o) == a.page(o),
    ensures
        tree_wf::<K, V>(b, root, sh),
        leaf_parts(b, sh) == leaf_parts(a, sh),
{
    assert forall|l: int, i: int|
        0 <= l < sh.levels.len() && 0 <= i < sh.levels[l].len() implies #[trigger] node_wf::<K, V>(
        b,
        sh,
        l,
        i,
    ) by {
        assert(node_wf::<K, V>(a, sh, l, i));
        assert(sh.levels[l][i] != rid);
        assert(b.page(sh.levels[l][i]) == a.page(sh.levels[l][i]));
    }
    if sh.firm {
        assert forall|l: int, i: int|
            0 <= l < sh.levels.len() && 0 <= i < sh.levels[l].len() implies b.page(
            #[trigger] sh.levels[l][i],
        ) == a.page(sh.levels[l][i]) by {
            assert(sh.levels[l][i] != rid);
        }
        lemma_upright_same(a, b, sh);
    }
    assert forall|i: int| 0 <= i < sh.levels[0].len() implies leaf_parts(b, sh)[i] == leaf_parts(
        a,
        sh,
    )[i] by {
        assert(sh.levels[0][i] != rid);
        assert(b.page(sh.levels[0][i]) == a.page(sh.levels[0][i]));
    }
    assert(leaf_parts(b, sh) =~= leaf_parts(a, sh));
}

/// Pages that were level still are.
proof fn lemma_level_step<K: Key, V: Value>(a: BTreeIndex<K, V>, b: BTreeIndex<K, V>)
    requires
        level(a.pool, a.trail@),
        b.trail@.open == a.trail@.open,
        b.trail@.parted == a.trail@.parted,
        same_contents(a.pool, b.pool),
    ensures
        level(b.pool, b.trail@),
{
    assert forall|id: PageId| !b.trail@.parted && #[trigger] b.trail@.open.dom().contains(id) implies
        crate::index::floor::bare(b.trail@.open[id]) == crate::index::floor::bare(
        state_of(b.pool.page(id)),
    ) by {
        assert(b.pool.page(id) == a.pool.page(id));
    }
}

/// The pool changed no page of the tree.
pub proof fn lemma_pool_kept<K: Key, V: Value>(a: BTreeIndex<K, V>, b: BTreeIndex<K, V>)
    requires
        a.tree(),
        b.pool.wf(),
        b.root == a.root,
        b.shape@ == a.shape@,
        b.trail@.open == a.trail@.open,
        b.trail@.parted == a.trail@.parted,
        grounded::<K, V>(b.pool, b.root, b.trail@),
        same_contents(a.pool, b.pool),
        same_storage(a.pool, b.pool),
        a.pool.next_page_id <= b.pool.next_page_id,
    ensures
        b.tree(),
        b.parts() == a.parts(),
        b.rooted() == a.rooted(),
        crate::buffer_pool::manager::same_pins(a.pool, b.pool) ==> forall|s: Set<u64>, n: int|
            #[trigger] held(a.pool, s, n) ==> held(b.pool, s, n),
{
    lemma_tree_kept::<K, V>(a.pool, b.pool, a.root, a.shape@);
    lemma_sound_step(a.pool, b.pool, a.trail@);
    assert(b.pool.page(0) == a.pool.page(0));
    if crate::buffer_pool::manager::same_pins(a.pool, b.pool) {
        assert forall|s: Set<u64>, n: int| #[trigger] held(a.pool, s, n) implies held(
            b.pool,
            s,
            n,
        ) by {
            assert forall|id: u64| #[trigger]
                b.pool.pins(id) == (if s.contains(id) {
                    1int
                } else {
                    0
                }) by {
                assert(b.pool.pins(id) == a.pool.pins(id));
            }
        }
    }
}

/// The leaf that is held may replace the page that it was read from.
pub open spec fn leaf_ready<K: Key, V: Value>(
    t: BTreeIndex<K, V>,
    g: PageWriteGuard,
    at: int,
) -> bool {
    &&& t.tree()
    &&& held(t.pool, Set::empty().insert(g.page_id), 1)
    &&& 0 <= at < t.shape@.levels[0].len()
    &&& t.shape@.levels[0][at] == g.page_id
    &&& good_leaf::<K, V>(g@, t.shape@.low[g.page_id])
    &&& leaf_view(g@).high == leaf_view(t.pool.page(g.page_id)).high
    &&& leaf_view(g@).right == leaf_view(t.pool.page(g.page_id)).right
    &&& leaf_view(g@).prev == leaf_view(t.pool.page(g.page_id)).prev
    &&& split_incomplete(g@) == split_incomplete(t.pool.page(g.page_id))
    &&& on_trail(t.pool, t.trail@, g)
}

/// The halves of a leaf: the lower one is held, and marked as split; the upper one is the
/// page `rid`, which no page of the tree names yet. The old right neighbour is held too, and
/// points back to the upper half.
pub open spec fn leaf_halved<K: Key, V: Value>(
    t: BTreeIndex<K, V>,
    g: PageWriteGuard,
    at: int,
    rid: PageId,
    sep: Seq<u8>,
    n: Option<PageWriteGuard>,
) -> bool {
    let old_page = t.pool.page(g.page_id);
    let right = t.pool.page(rid);
    &&& t.tree()
    &&& held(t.pool, left_set(g.page_id, n), left_count(n))
    &&& 0 <= at < t.shape@.levels[0].len()
    &&& t.shape@.levels[0][at] == g.page_id
    &&& g.dirty
    &&& fresh(t.shape@, rid)
    &&& 0 < rid < t.pool.next_page_id
    &&& good_key::<K>(sep)
    &&& 0 < sep.len()
    &&& at_least::<K>(sep, t.shape@.low[g.page_id])
    &&& at_most::<K>(sep, leaf_view(old_page).high)
    &&& good_leaf::<K, V>(g@, t.shape@.low[g.page_id])
    &&& split_incomplete(g@)
    &&& leaf_view(g@).high == Some(sep)
    &&& leaf_view(g@).right == Some(rid)
    &&& leaf_view(g@).prev == leaf_view(old_page).prev
    &&& good_leaf::<K, V>(right, Some(sep))
    &&& leaf_view(right).high == leaf_view(old_page).high
    &&& leaf_view(right).right == leaf_view(old_page).right
    &&& leaf_view(right).prev == Some(g.page_id)
    &&& split_incomplete(old_page) ==> split_incomplete(right)
    &&& neighbour_held(t, at, n, rid)
    &&& follows(t.pool, t.trail@, g)
    &&& n matches Some(x) ==> follows(t.pool, t.trail@, x)
    &&& both_open(t.trail@, g.page_id, n)
}

/// No page is open but the given one and the neighbour.
pub open spec fn both_open(trail: Trail, pid: PageId, n: Option<PageWriteGuard>) -> bool {
    !trail.parted ==> forall|x: PageId| #[trigger]
        trail.open.dom().contains(x) ==> x == pid || (n matches Some(g) && x == g.page_id)
}

/// The right neighbour of the leaf at `at` is held, where there is one; nothing of it was
/// changed but its back link, which leads to `rid`, and its log sequence number.
pub open spec fn neighbour_held<K: Key, V: Value>(
    t: BTreeIndex<K, V>,
    at: int,
    g: Option<PageWriteGuard>,
    rid: PageId,
) -> bool {
    let chain = t.shape@.levels[0];
    match g {
        Some(g) => {
            &&& at + 1 < chain.len()
            &&& g.page_id == chain[at + 1]
            &&& g.dirty
            &&& pointed_back(t.pool.page(g.page_id), g@, rid)
        },
        None => at + 1 == chain.len(),
    }
}

/// The pages that are held until the lower half is released.
pub open spec fn left_set(pid: PageId, g: Option<PageWriteGuard>) -> Set<u64> {
    match g {
        Some(g) => Set::<u64>::empty().insert(pid).insert(g.page_id),
        None => Set::<u64>::empty().insert(pid),
    }
}

/// Their number.
pub open spec fn left_count(g: Option<PageWriteGuard>) -> int {
    match g {
        Some(_) => 2,
        None => 1,
    }
}

/// The pages that a split of a leaf holds.
spec fn split_set(pid: PageId, rid: PageId, g: Option<PageWriteGuard>) -> Set<u64> {
    let two = Set::<u64>::empty().insert(pid).insert(rid);
    match g {
        Some(g) => two.insert(g.page_id),
        None => two,
    }
}

/// The number of pages that a split of a leaf holds.
spec fn split_count(g: Option<PageWriteGuard>) -> int {
    match g {
        Some(_) => 3,
        None => 2,
    }
}

/// A new page that is held, with the given leaf in it.
spec fn new_leaf<K: Key, V: Value>(
    t: BTreeIndex<K, V>,
    g: PageWriteGuard,
    pid: PageId,
    high: Option<Seq<u8>>,
    right: Option<PageId>,
    rows: Seq<Version>,
) -> bool {
    let v = leaf_view(g@);
    &&& g.dirty
    &&& 0 < g.page_id < t.pool.next_page_id
    &&& fresh(t.shape@, g.page_id)
    &&& leaf_wf(g@)
    &&& v.high == high
    &&& v.right == right
    &&& v.prev == Some(pid)
    &&& v.rows == rows
    &&& v.free == packed_room(high, rows)
}

impl<K: Key, V: Value> BTreeIndex<K, V> {
    /// Makes a new leaf of the rows from `mid` on, and points the old right neighbour
    /// back to it. Where the leaf was marked, that is the new leaf's mark now, since the old
    /// neighbour is behind it.
    fn open_right(
        &mut self,
        pid: PageId,
        at: Ghost<int>,
        rows: &Vec<Row>,
        mid: usize,
        old_high: Option<&[u8]>,
        old_right: Option<PageId>,
        marked: bool,
    ) -> (r: Result<(PageWriteGuard, Option<PageWriteGuard>), IndexError>)
        requires
            old(self).tree(),
            level(old(self).pool, old(self).trail@),
            held(old(self).pool, Set::empty().insert(pid), 1),
            0 <= at@ < old(self).shape@.levels[0].len(),
            old(self).shape@.levels[0][at@] == pid,
            mid <= rows@.len(),
            old_high matches Some(h) ==> 0 < h@.len() <= MAX_KEY_SIZE,
            old_right == leaf_view(old(self).pool.page(pid)).right,
            0 <= packed_room(
                crate::wal::record::seq_of(old_high),
                crate::page::leaf::row_views(rows@).subrange(mid as int, rows@.len() as int),
            ),
        ensures
            final(self).tree(),
            final(self).root == old(self).root,
            final(self).shape@ == old(self).shape@,
            final(self).parts() == old(self).parts(),
            final(self).rooted() == old(self).rooted(),
            final(self).pool.page(pid) == old(self).pool.page(pid),
            trailed(*old(self), *final(self), r is Err),
            paced(old(self).pool.wal@, final(self).pool.wal@),
            final(self).pool.wal@.next == old(self).pool.wal@.next,
            within(old(self).pool, final(self).pool, 1),
            match r {
                Ok((g, n)) => {
                    &&& old(self).pool.able() ==> final(self).pool.able_but(Some(g.page_id))
                    &&& steady(*old(self), *final(self))
                    &&& new_leaf(
                        *final(self),
                        g,
                        pid,
                        crate::wal::record::seq_of(old_high),
                        old_right,
                        crate::page::leaf::row_views(rows@).subrange(
                            mid as int,
                            rows@.len() as int,
                        ),
                    )
                    &&& same_contents(old(self).pool, final(self).pool)
                    &&& g.page_id != pid
                    &&& split_incomplete(g@) == marked
                    &&& neighbour_held(*final(self), at@, n, g.page_id)
                    &&& held(final(self).pool, split_set(pid, g.page_id, n), split_count(n))
                },
                Err(e) => {
                    &&& e is BufferPool
                    &&& old(self).pool.able() ==> final(self).pool.able()
                    &&& final(self).pool.faulty()
                    &&& held(final(self).pool, Set::empty().insert(pid), 1)
                    &&& final(self).trail@.open == old(self).trail@.open
                    &&& floats(*old(self), *final(self), old(self).parts())
                },
            },
    {
        let ghost start = *self;
        let ghost sh = self.shape@;
        assert(node_wf::<K, V>(start.pool, sh, 0, at@));
        let made = self.pool.new_page();
        self.trail = Ghost(carried(start, self.pool.wal@));
        proof {
            lemma_carried(start, *self);
        }
        let mut right_guard = match made {
            Ok(g) => g,
            Err(e) => {
                proof {
                    lemma_pool_kept(start, *self);
                }
                return Err(IndexError::BufferPool(e));
            },
        };
        let rid: PageId = right_guard.page_id;
        let ghost s1 = *self;
        proof {
            lemma_fresh::<K, V>(start.pool, start.root, sh, rid);
            lemma_pool_kept(start, s1);
            assert(sh.levels[0][at@] != rid);
            lemma_hold(start.pool, s1.pool, Set::empty().insert(pid), 1, rid);
            assert(s1.pool.page(pid) == start.pool.page(pid));
        }
        build_leaf::<K, V>(
            right_guard.memory_mut(),
            rid,
            old_high,
            old_right,
            Some(pid),
            rows,
            mid,
            rows.len(),
        );
        proof {
            lemma_unmarked();
            crate::page::leaf::lemma_leaf_flags(
                right_guard@,
                right_guard@[1] | crate::page::FLAG_INCOMPLETE_SPLIT,
            );
        }
        if marked {
            crate::page::set_incomplete_split(right_guard.memory_mut());
        }
        let nid: PageId = match old_right {
            None => {
                return Ok((right_guard, None));
            },
            Some(n) => n,
        };
        proof {
            assert(sh.levels[0][at@ + 1] == nid);
            assert(node_wf::<K, V>(s1.pool, sh, 0, at@ + 1));
            assert(sh.levels[0][at@ + 1] != pid);
            assert(sh.levels[0][at@ + 1] != rid);
        }
        proof {
            lemma_level_step(start, s1);
        }
        let fetched = self.pool.fetch_page_mut(nid);
        self.trail = Ghost(carried(s1, self.pool.wal@));
        proof {
            lemma_carried(s1, *self);
        }
        match fetched {
            Ok(g) => {
                let mut g = g;
                proof {
                    lemma_pool_kept(s1, *self);
                    lemma_hold(
                        s1.pool,
                        self.pool,
                        Set::empty().insert(pid).insert(rid),
                        2,
                        nid,
                    );
                    lemma_same_view(g@);
                    assert(self.pool.page(nid) == s1.pool.page(nid));
                    assert(self.pool.page(pid) == s1.pool.page(pid));
                    assert forall|id: u64| #[trigger] self.pool.page(id) == start.pool.page(id) by {
                        assert(s1.pool.page(id) == start.pool.page(id));
                    }
                }
                LeafPageMutator::<K, V>::new(g.memory_mut()).set_prev_page(Some(rid));
                Ok((right_guard, Some(g)))
            },
            Err(e) => {
                let ghost s2 = *self;
                self.pool.release_mut(right_guard);
                self.trail = Ghost(parting(s2.trail@));
                proof {
                    lemma_pool_kept(s1, s2);
                    lemma_outside::<K, V>(s2.pool, self.pool, start.root, sh, rid);
                    let two = Set::<u64>::empty().insert(pid).insert(rid);
                    assert(held(s2.pool, two, 2));
                    lemma_unhold(s2.pool, self.pool, two, 2, rid);
                    assert(two.remove(rid) =~= Set::empty().insert(pid));
                    assert(self.pool.page(0) == s2.pool.page(0));
                    assert(self.pool.page(pid) == s2.pool.page(pid));
                    assert(s2.pool.page(pid) == s1.pool.page(pid));
                }
                Err(IndexError::BufferPool(e))
            },
        }
    }

    /// Releases the new page.
    fn close_right(
        &mut self,
        pid: PageId,
        at: Ghost<int>,
        right_guard: PageWriteGuard,
        neighbour: &Option<PageWriteGuard>,
    )
        requires
            old(self).tree(),
            0 <= at@ < old(self).shape@.levels[0].len(),
            old(self).shape@.levels[0][at@] == pid,
            right_guard.page_id != pid,
            new_leaf(
                *old(self),
                right_guard,
                pid,
                leaf_view(right_guard@).high,
                leaf_view(right_guard@).right,
                leaf_view(right_guard@).rows,
            ),
            neighbour_held(*old(self), at@, *neighbour, right_guard.page_id),
            held(
                old(self).pool,
                split_set(pid, right_guard.page_id, *neighbour),
                split_count(*neighbour),
            ),
            follows(old(self).pool, old(self).trail@, right_guard),
        ensures
            final(self).tree(),
            passed(old(self).pool, old(self).trail@, final(self).pool, final(self).trail@),
            final(self).trail@ == closing(old(self).trail@, right_guard.page_id),
            final(self).root == old(self).root,
            final(self).shape@ == old(self).shape@,
            final(self).pool.wal == old(self).pool.wal,
            final(self).pool.next_page_id == old(self).pool.next_page_id,
            final(self).parts() == old(self).parts(),
            final(self).rooted() == old(self).rooted(),
            forall|id: u64|
                id != right_guard.page_id ==> #[trigger] final(self).pool.page(id) == old(self).pool.page(id),
            final(self).pool.page(right_guard.page_id) == plain(right_guard@),
            leaf_wf(final(self).pool.page(right_guard.page_id)),
            leaf_view(final(self).pool.page(right_guard.page_id)) == leaf_view(right_guard@),
            held(final(self).pool, left_set(pid, *neighbour), left_count(*neighbour)),
            old(self).pool.able_but(Some(right_guard.page_id)) ==> final(self).pool.able(),
    {
        let ghost s4 = *self;
        let ghost sh = self.shape@;
        let ghost rid = right_guard.page_id;
        let ghost right_page = right_guard@;
        let ghost two = Set::<u64>::empty().insert(pid).insert(rid);
        let ghost rg = right_guard;
        self.pool.release_mut(right_guard);
        self.trail = Ghost(closing(s4.trail@, rid));
        let ghost s5 = *self;
        proof {
            lemma_released(s4.pool, s5.pool, rg, s4.trail@);
            lemma_same_view(right_page);
            lemma_outside::<K, V>(s4.pool, s5.pool, s4.root, sh, rid);
            assert(s5.pool.page(0) == s4.pool.page(0));
            match neighbour {
                Some(g) => {
                    let nid = g.page_id;
                    assert(sh.levels[0][at@ + 1] != pid);
                    assert(sh.levels[0][at@ + 1] != rid);
                    lemma_unhold(s4.pool, s5.pool, two.insert(nid), 3, rid);
                    assert(two.insert(nid).remove(rid) =~= Set::empty().insert(pid).insert(nid));
                },
                None => {
                    lemma_unhold(s4.pool, s5.pool, two, 2, rid);
                    assert(two.remove(rid) =~= Set::empty().insert(pid));
                },
            }
        }
    }
}

/// The images of the pages that a split changes.
spec fn split_images(
    left: PageWriteGuard,
    right: PageWriteGuard,
    neighbour: Option<PageWriteGuard>,
) -> Seq<BlockView> {
    match neighbour {
        Some(n) => seq![
            image_block(left.page_id, left@),
            image_block(right.page_id, right@),
            image_block(n.page_id, n@),
        ],
        None => seq![image_block(left.page_id, left@), image_block(right.page_id, right@)],
    }
}

/// The pages that a split changes are open.
spec fn split_trail(
    trail: Trail,
    left: PageWriteGuard,
    right: PageWriteGuard,
    neighbour: Option<PageWriteGuard>,
) -> Trail {
    let two = trail.open.insert(left.page_id, state_of(left@)).insert(
        right.page_id,
        state_of(right@),
    );
    Trail {
        open: match neighbour {
            Some(n) => two.insert(n.page_id, state_of(n@)),
            None => two,
        },
        ..trail
    }
}

/// Nothing of the leaf but its log sequence number was changed.
spec fn restamped(before: PageWriteGuard, after: PageWriteGuard) -> bool {
    &&& after.page_id == before.page_id
    &&& after.dirty
    &&& leaf_wf(after@)
    &&& leaf_view(after@) == (LeafView { lsn: leaf_view(after@).lsn, ..leaf_view(before@) })
}

/// The record of a split gives the pages that were split.
proof fn lemma_split_logged(
    a: BufferPoolManager,
    b: BufferPoolManager,
    trail: Trail,
    before: (PageWriteGuard, PageWriteGuard, Option<PageWriteGuard>),
    after: (PageWriteGuard, PageWriteGuard, Option<PageWriteGuard>),
)
    requires
        a.wf(),
        sound(a, trail),
        b.shards == a.shards,
        b.disk == a.disk,
        (Ok::<u64, WalError>(a.wal@.next), b.wal@) == appended(
            a.wal@,
            WalRecordType::LeafSplit,
            SYSTEM_TXN_ID,
            split_images(before.0, before.1, before.2),
            None,
        ),
        leaf_wf(before.0@),
        leaf_wf(before.1@),
        before.2 matches Some(g) ==> leaf_wf(g@) && g.page_id != before.0.page_id && g.page_id
            != before.1.page_id,
        before.0.page_id != before.1.page_id,
        restamped(before.0, after.0),
        restamped(before.1, after.1),
        after.2 is Some <==> before.2 is Some,
        after.2 matches Some(g) ==> restamped(before.2->0, g) && leaf_view(g@).lsn == a.wal@.next,
        leaf_view(after.0@).lsn == a.wal@.next,
        leaf_view(after.1@).lsn == a.wal@.next,
    ensures
        sound(b, split_trail(trail, after.0, after.1, after.2)),
        passed(a, trail, b, split_trail(trail, after.0, after.1, after.2)),
        noted(a, b, trail, SYSTEM_TXN_ID),
{
    let kind = WalRecordType::LeafSplit;
    let lsn = a.wal@.next;
    let l = meant(a, trail.open, before.0.page_id);
    let r = meant(a, trail.open, before.1.page_id);
    if l.lsn() < lsn {
        lemma_leaf_image(kind, before.0.page_id, before.0@, lsn, l);
    }
    if r.lsn() < lsn {
        lemma_leaf_image(kind, before.1.page_id, before.1@, lsn, r);
    }
    let left = image_block(before.0.page_id, before.0@);
    let right = image_block(before.1.page_id, before.1@);
    let (nl, nr) = (state_of(after.0@), state_of(after.1@));
    match before.2 {
        Some(n) => {
            let m = meant(a, trail.open, n.page_id);
            if m.lsn() < lsn {
                lemma_leaf_image(kind, n.page_id, n@, lsn, m);
            }
            lemma_logged_three(
                a,
                b,
                kind,
                SYSTEM_TXN_ID,
                (left, right, image_block(n.page_id, n@)),
                trail,
                (l, r, m),
                (nl, nr, state_of(after.2->0@)),
            );
        },
        None => {
            lemma_logged_two(
                a,
                b,
                kind,
                SYSTEM_TXN_ID,
                (left, right),
                trail,
                (l, r),
                (nl, nr),
            );
        },
    }
}

impl<K: Key, V: Value> BTreeIndex<K, V> {
    /// Logs the images of the pages that a split changed, and stamps them.
    fn log_split(
        &mut self,
        guard: &mut PageWriteGuard,
        right_guard: &mut PageWriteGuard,
        neighbour: Option<PageWriteGuard>,
    ) -> (r: (Option<PageWriteGuard>, Result<(), WalError>))
        requires
            old(self).tree(),
            leaf_wf(old(guard)@),
            leaf_wf(old(right_guard)@),
            neighbour matches Some(g) ==> leaf_wf(g@) && g.dirty && g.page_id != old(guard).page_id
                && g.page_id != old(right_guard).page_id,
            old(guard).dirty,
            old(right_guard).dirty,
            old(right_guard).page_id != old(guard).page_id,
        ensures
            only_logged(*old(self), *final(self)),
            final(self).trail@ == (if r.1 is Ok {
                split_trail(old(self).trail@, *final(guard), *final(right_guard), r.0)
            } else {
                parting(old(self).trail@)
            }),
            spared(*old(self), *final(self), r.1 is Err),
            upheld(old(self).pool, final(self).pool),
            restamped(*old(guard), *final(guard)),
            restamped(*old(right_guard), *final(right_guard)),
            r.0 is Some <==> neighbour is Some,
            r.0 matches Some(g) ==> restamped(neighbour->0, g),
            r.1 is Err ==> log_stuck(final(self).pool.wal@),
            r.1 is Ok ==> leaf_view(final(guard)@).lsn == old(self).pool.wal@.next,
            final(self).pool.wal@ == appended(
                old(self).pool.wal@,
                WalRecordType::LeafSplit,
                SYSTEM_TXN_ID,
                split_images(*old(guard), *old(right_guard), neighbour),
                None,
            ).1,
    {
        let ghost a = *self;
        let ghost w = self.pool.wal@;
        let ghost lg = *guard;
        let ghost rg = *right_guard;
        let ghost images = split_images(*guard, *right_guard, neighbour);
        let logged = match &neighbour {
            Some(g) => self.pool.wal.log_leaf_split(
                SYSTEM_TXN_ID,
                (guard.page_id, guard.memory()),
                (right_guard.page_id, right_guard.memory()),
                Some((g.page_id, g.memory())),
            ),
            None => self.pool.wal.log_leaf_split(
                SYSTEM_TXN_ID,
                (guard.page_id, guard.memory()),
                (right_guard.page_id, right_guard.memory()),
                None,
            ),
        };
        proof {
            lemma_small_record(images, None);
            lemma_refused(w, WalRecordType::LeafSplit, SYSTEM_TXN_ID, images, None);
            lemma_upheld_logged(a.pool, self.pool);
        }
        match logged {
            Ok(lsn) => {
                LeafPageMutator::<K, V>::new(guard.memory_mut()).set_lsn(lsn);
                LeafPageMutator::<K, V>::new(right_guard.memory_mut()).set_lsn(lsn);
                let ghost ng = neighbour;
                let neighbour: Option<PageWriteGuard> = match neighbour {
                    Some(g) => {
                        let mut g = g;
                        LeafPageMutator::<K, V>::new(g.memory_mut()).set_lsn(lsn);
                        Some(g)
                    },
                    None => None,
                };
                self.trail = Ghost(split_trail(a.trail@, *guard, *right_guard, neighbour));
                proof {
                    lemma_split_logged(
                        a.pool,
                        self.pool,
                        a.trail@,
                        (lg, rg, ng),
                        (*guard, *right_guard, neighbour),
                    );
                }
                (neighbour, Ok(()))
            },
            Err(e) => {
                self.trail = Ghost(parting(a.trail@));
                (neighbour, Err(e))
            },
        }
    }

    /// Moves the upper half of the leaf that is held to a new page. A leaf whose upper
    /// half would begin with the empty key stays whole, since no high key stands for it.
    pub(crate) fn split_leaf_ly(
        &mut self,
        guard: &mut PageWriteGuard,
        at: Ghost<int>,
        needed: usize,
    ) -> (r: LeafSplit)
        requires
            leaf_ready(*old(self), *old(guard), at@),
            settled(old(self).trail@),
            leaf_view(old(guard)@).rows.len() > 0,
        ensures
            final(guard).page_id == old(guard).page_id,
            within(old(self).pool, final(self).pool, 1),
            floats(*old(self), *final(self), old(self).parts()),
            final(self).root == old(self).root,
            final(self).shape@ == old(self).shape@,
            final(self).parts() == old(self).parts(),
            final(self).rooted() == old(self).rooted(),
            ({
                let p = Part {
                    low: old(self).shape@.low[old(guard).page_id],
                    high: leaf_view(old(guard)@).high,
                    rows: leaf_view(old(guard)@).rows,
                };
                let m = split_point::<K>(p.rows);
                match r {
                    LeafSplit::Failed(e) => {
                        &&& leaf_ready(*final(self), *final(guard), at@)
                        &&& settled(final(self).trail@)
                        &&& *final(guard) == *old(guard)
                        &&& p.rows[m].key.len() == 0 ==> e == IndexError::Page(
                            PageError::InsufficientSpace { needed, available: room(p) as usize },
                        )
                        &&& p.rows[m].key.len() > 0 ==> e is BufferPool
                            && final(self).pool.faulty()
                    },
                    LeafSplit::Done { sep, rid, neighbour, logged } => {
                        &&& leaf_halved(
                            *final(self),
                            *final(guard),
                            at@,
                            rid,
                            sep@,
                            neighbour,
                        )
                        &&& split_incomplete(final(self).pool.page(rid)) == split_incomplete(
                            old(guard)@,
                        )
                        &&& forall|id: u64|
                            id != rid ==> #[trigger] final(self).pool.page(id) == old(
                                self,
                            ).pool.page(id)
                        &&& sep@ == p.rows[m].key
                        &&& leaf_view(final(guard)@).rows == p.rows.take(m)
                        &&& leaf_view(final(self).pool.page(rid)).rows == p.rows.skip(m)
                        &&& logged is Err ==> log_stuck(final(self).pool.wal@)
                    },
                }
            }),
            spared(
                *old(self),
                *final(self),
                match r {
                    LeafSplit::Failed(e) => e is BufferPool,
                    LeafSplit::Done { logged, .. } => logged is Err,
                },
            ),
    {
        let ghost start = *self;
        let ghost sh = self.shape@;
        let pid: PageId = guard.page_id;
        let ghost low = sh.low[pid];
        let ghost p = Part { low, high: leaf_view(guard@).high, rows: leaf_view(guard@).rows };
        assert(node_wf::<K, V>(start.pool, sh, 0, at@));
        let acc = LeafPageAccessor::<K, V>::new(guard.memory());
        let rows: Vec<Row> = collect_rows(&acc);
        assert forall|i: int| 0 <= i < rows@.len() implies K::accepts((#[trigger] rows@[i]).key@) by {
            assert(p.rows[i].key == rows@[i].key@);
        }
        let mid: usize = find_split_point::<K>(&rows);
        let ghost m = mid as int;
        let sep: Vec<u8> = vstd::slice::slice_to_vec(rows[mid].key.as_slice());
        assert(p.rows[m].key == rows@[m].key@);
        let old_right: Option<PageId> = acc.rightlink();
        let old_prev: Option<PageId> = acc.prev_page();
        if sep.len() == 0 {
            let available: usize = acc.free_space();
            return LeafSplit::Failed(
                IndexError::Page(PageError::InsufficientSpace { needed, available }),
            );
        }
        proof {
            crate::page::leaf::lemma_packed_room(guard@);
            lemma_halves::<K, V>(p, m);
            assert(p.rows.take(m) =~= crate::page::leaf::row_views(rows@).subrange(0, m));
            assert(p.rows.skip(m) =~= crate::page::leaf::row_views(rows@).subrange(
                m,
                rows@.len() as int,
            ));
        }
        let marked: bool = crate::page::is_incomplete_split(guard.memory());
        let opened = self.open_right(
            pid,
            at,
            &rows,
            mid,
            acc.high_key_bytes(),
            old_right,
            marked,
        );
        let (right_guard, neighbour) = match opened {
            Ok(p) => p,
            Err(e) => {
                return LeafSplit::Failed(e);
            },
        };
        let mut right_guard = right_guard;
        let rid: PageId = right_guard.page_id;
        let ghost s3 = *self;
        build_leaf::<K, V>(
            guard.memory_mut(),
            pid,
            Some(sep.as_slice()),
            Some(rid),
            old_prev,
            &rows,
            0,
            mid,
        );
        proof {
            crate::page::leaf::lemma_leaf_flags(
                guard@,
                guard@[1] | crate::page::FLAG_INCOMPLETE_SPLIT,
            );
        }
        crate::page::set_incomplete_split(guard.memory_mut());
        let (neighbour, logged) = self.log_split(guard, &mut right_guard, neighbour);
        proof {
            lemma_only_logged(s3, *self);
            let n0 = neighbour;
            assert(neighbour_held(*self, at@, neighbour, rid)) by {
                if neighbour is Some {
                    assert(self.pool.page(neighbour->0.page_id) == s3.pool.page(
                        neighbour->0.page_id,
                    ));
                }
            }
            assert(self.pool.page(pid) == s3.pool.page(pid));
            assert(self.pool.page(0) == s3.pool.page(0));
            assert(held(self.pool, split_set(pid, rid, neighbour), split_count(neighbour)));
        }
        let ghost s4 = *self;
        let ghost rg = right_guard;
        self.close_right(pid, at, right_guard, &neighbour);
        proof {
            assert(self.pool.page(pid) == s4.pool.page(pid));
            if neighbour is Some {
                let nid = neighbour->0.page_id;
                assert(sh.levels[0][at@ + 1] != rid);
                assert(self.pool.page(nid) == s4.pool.page(nid));
            }
            lemma_same_view(rg@);
            assert(self.pool.page(rid) == plain(rg@));
            assert forall|id: u64| id != rid implies #[trigger] self.pool.page(id)
                == start.pool.page(id) by {
                assert(s4.pool.page(id) == s3.pool.page(id));
                assert(s3.pool.page(id) == start.pool.page(id));
            }
        }
        LeafSplit::Done { sep, rid, neighbour, logged }
    }
}

impl<K: Key, V: Value> BTreeIndex<K, V> {
    /// Releases the lower half of a leaf that was split, and the old right neighbour; with
    /// that the upper half is part of the tree.
    pub(crate) fn close_left(
        &mut self,
        guard: PageWriteGuard,
        at: Ghost<int>,
        rid: PageId,
        sep: Ghost<Seq<u8>>,
        neighbour: Option<PageWriteGuard>,
    )
        requires
            leaf_halved(*old(self), guard, at@, rid, sep@, neighbour),
        ensures
            final(self).wf(),
            final(self).root == old(self).root,
            final(self).shape@ == grown(old(self).shape@, 0, at@, rid, sep@),
            final(self).pool.wal == old(self).pool.wal,
            final(self).rooted() == old(self).rooted(),
            final(self).parts() == splice(
                old(self).parts(),
                at@,
                seq![
                    Part {
                        low: old(self).parts()[at@].low,
                        high: Some(sep@),
                        rows: leaf_view(guard@).rows,
                    },
                    Part {
                        low: Some(sep@),
                        high: old(self).parts()[at@].high,
                        rows: leaf_view(old(self).pool.page(rid)).rows,
                    },
                ],
            ),
            linked(final(self).shape@, 0, rid, Some(sep@)),
            old(self).pool.faulty() ==> final(self).pool.faulty(),
            upheld(old(self).pool, final(self).pool),
            final(self).pool.next_page_id == old(self).pool.next_page_id,
            final(self).trail@ == (match neighbour {
                Some(g) => closing(closing(old(self).trail@, guard.page_id), g.page_id),
                None => closing(old(self).trail@, guard.page_id),
            }),
            forall|id: u64|
                id != guard.page_id && !(neighbour matches Some(g) && g.page_id == id) ==> #[trigger] final(self).pool.page(id) == old(self).pool.page(id),
            final(self).pool.page(guard.page_id) == plain(guard@),
            passed(old(self).pool, old(self).trail@, final(self).pool, final(self).trail@),
            marked_only(old(self).pool, old(self).shape@, None) && !split_incomplete(
                old(self).pool.page(rid),
            ) ==> marked_only(final(self).pool, final(self).shape@, Some(guard.page_id)),
    {
        let ghost a = *self;
        let ghost sh = self.shape@;
        let ghost g = guard;
        let ghost pid = guard.page_id;
        self.pool.release_mut(guard);
        self.trail = Ghost(closing(a.trail@, pid));
        let ghost m = *self;
        proof {
            lemma_released(a.pool, m.pool, g, a.trail@);
            lemma_same_view(g@);
            assert(node_wf::<K, V>(a.pool, sh, 0, at@));
            assert(sh.levels[0][at@] != rid);
            assert(m.pool.page(rid) == a.pool.page(rid));
            assert(m.pool.page(0) == a.pool.page(0));
            lemma_unhold(a.pool, m.pool, left_set(pid, neighbour), left_count(neighbour), pid);
        }
        match neighbour {
            Some(n) => {
                let ghost ng = n;
                let ghost nid = n.page_id;
                proof {
                    assert(sh.levels[0][at@ + 1] != pid);
                    assert(sh.levels[0][at@ + 1] != rid);
                    assert(node_wf::<K, V>(a.pool, sh, 0, at@ + 1));
                    assert(left_set(pid, neighbour).remove(pid) =~= Set::empty().insert(nid));
                    assert(m.pool.page(nid) == a.pool.page(nid));
                    assert(m.pool.pins(nid) == 1);
                }
                self.pool.release_mut(n);
                self.trail = Ghost(closing(m.trail@, nid));
                proof {
                    lemma_released(m.pool, self.pool, ng, m.trail@);
                    lemma_same_view(ng@);
                    lemma_unhold(m.pool, self.pool, Set::empty().insert(nid), 1, nid);
                    assert(Set::<u64>::empty().insert(nid).remove(nid) =~= Set::empty());
                    assert(self.pool.page(pid) == m.pool.page(pid));
                    assert(self.pool.page(rid) == m.pool.page(rid));
                    assert(self.pool.page(0) == m.pool.page(0));
                    assert forall|id: u64| id != pid && id != nid implies #[trigger] self.pool.page(
                        id,
                    ) == a.pool.page(id) by {
                        assert(m.pool.page(id) == a.pool.page(id));
                    }
                    assert(pointed_back(a.pool.page(nid), self.pool.page(nid), rid));
                }
            },
            None => {
                assert(left_set(pid, neighbour).remove(pid) =~= Set::empty());
            },
        }
        self.shape = Ghost(grown(sh, 0, at@, rid, sep@));
        proof {
            assert(settled(self.trail@)) by {
                if !self.trail@.parted {
                    assert(self.trail@.open =~= Map::empty());
                }
            }
            lemma_node_split::<K, V>(a.pool, self.pool, a.root, sh, 0, at@, rid, sep@);
            assert(self.shape@.levels[0][at@ + 1] == rid);
            if marked_only(a.pool, sh, None) && !split_incomplete(a.pool.page(rid)) {
                lemma_mark_split(a.pool, self.pool, sh, 0, at@, rid, sep@, None);
            }
            let l = Part {
                low: a.parts()[at@].low,
                high: Some(sep@),
                rows: leaf_view(g@).rows,
            };
            let r = Part {
                low: Some(sep@),
                high: a.parts()[at@].high,
                rows: leaf_view(a.pool.page(rid)).rows,
            };
            assert(a.parts().update(at@, l).insert(at@ + 1, r) =~= splice(
                a.parts(),
                at@,
                seq![l, r],
            ));
        }
    }
}

/// The two halves of the keys fit on a page each.
pub open spec fn halves_fit(keys: Seq<Seq<u8>>, high: Option<Seq<u8>>) -> bool {
    let mid = keys.len() as int / 2;
    &&& int_used(keys.take(mid)) + keys[mid].len() <= PAGE_SIZE
    &&& int_used(keys.skip(mid + 1)) + (match high {
        Some(h) => h.len(),
        None => 0,
    }) <= PAGE_SIZE
}

/// An internal page that is too full for a separator cannot be split either, because of
/// where its long keys are.
pub open spec fn uneven<K: Key>(p: BufferPoolManager, sh: Shape) -> bool {
    exists|l: int, i: int, at: int, key: Seq<u8>|
        0 < l < sh.levels.len() && 0 <= i < sh.levels[l].len() && #[trigger] cannot_take::<K>(
            int_view(p.page(sh.levels[l][i])),
            at,
            key,
        )
}

/// The page cannot take the key, not even by a split.
pub open spec fn cannot_take<K: Key>(v: InternalView, at: int, key: Seq<u8>) -> bool {
    &&& child_index::<K>(v.keys, key, at)
    &&& key.len() <= MAX_KEY_SIZE
    &&& !halves_fit(v.keys.insert(at, key), v.high)
}

/// Bytes that a page with the keys `lo..hi` takes.
fn used_by(keys: &Vec<Vec<u8>>, lo: usize, hi: usize) -> (n: usize)
    requires
        lo <= hi <= keys@.len(),
        keys@.len() <= 4096,
        forall|i: int| 0 <= i < keys@.len() ==> (#[trigger] keys@[i])@.len() <= 4096,
    ensures
        n == int_used(key_views(keys@).subrange(lo as int, hi as int)),
        n <= 48 + 12 * 4096 + 4096 * 4096,
{
    let ghost sub = key_views(keys@).subrange(lo as int, hi as int);
    let mut total: usize = 0;
    let mut i: usize = lo;
    while i < hi
        invariant
            lo <= i <= hi <= keys@.len(),
            keys@.len() <= 4096,
            forall|j: int| 0 <= j < keys@.len() ==> (#[trigger] keys@[j])@.len() <= 4096,
            sub == key_views(keys@).subrange(lo as int, hi as int),
            total == key_total(sub, i - lo),
            total <= 4096 * (i - lo),
        decreases hi - i,
    {
        assert(sub[i - lo] == keys@[i as int]@);
        total = total + keys[i].len();
        i = i + 1;
    }
    48 + 12 * (hi - lo) + total
}

/// Writes an internal page with the keys `lo..hi` and the children around them.
fn build_internal<K: Key>(
    data: &mut [u8],
    pid: PageId,
    high: Option<&[u8]>,
    right: Option<PageId>,
    keys: &Vec<Vec<u8>>,
    children: &Vec<PageId>,
    lo: usize,
    hi: usize,
)
    requires
        old(data).len() == PAGE_SIZE,
        lo <= hi <= keys@.len(),
        children@.len() == keys@.len() + 1,
        high matches Some(h) ==> 0 < h@.len() <= MAX_KEY_SIZE,
        int_used(key_views(keys@).subrange(lo as int, hi as int)) + (match high {
            Some(h) => h@.len(),
            None => 0,
        }) <= PAGE_SIZE,
    ensures
        int_wf(final(data)@),
        int_view(final(data)@) == (InternalView {
            id: pid,
            lsn: 0,
            flags: 0,
            right: crate::page::leaf::link(right.unwrap_or(0)),
            high: crate::wal::record::seq_of(high),
            children: children@.subrange(lo as int, hi + 1),
            keys: key_views(keys@).subrange(lo as int, hi as int),
        }),
{
    let ghost kv = key_views(keys@);
    let mut b = InternalPageBuilder::<K>::new(pid, data);
    b.set_rightlink(right);
    if let Some(h) = high {
        b.set_high_key(h);
    }
    b.push_first_child(children[lo]);
    assert(children@.subrange(lo as int, lo + 1) =~= seq![children@[lo as int]]);
    b.push_range(keys, children, lo, hi);
    proof {
        assert(seq![children@[lo as int]] + children@.subrange(lo + 1, hi + 1)
            =~= children@.subrange(lo as int, hi + 1));
        assert(Seq::<Seq<u8>>::empty() + kv.subrange(lo as int, hi as int) =~= kv.subrange(
            lo as int,
            hi as int,
        ));
    }
    let _m = b.finish();
}

/// What a split of an internal page came to.
pub(crate) enum ParentSplit {
    /// The page is as it was.
    Failed(IndexError),
    /// The page holds its lower half; the page `rid` holds the upper one, from `sep` on.
    Done { sep: Vec<u8>, rid: PageId, logged: Result<(), WalError> },
}

/// An internal page is held, and was not changed.
pub open spec fn parent_held<K: Key, V: Value>(
    t: BTreeIndex<K, V>,
    g: PageWriteGuard,
    l: int,
    i: int,
) -> bool {
    &&& t.tree()
    &&& held(t.pool, Set::empty().insert(g.page_id), 1)
    &&& 0 < l < t.shape@.levels.len()
    &&& 0 <= i < t.shape@.levels[l].len()
    &&& t.shape@.levels[l][i] == g.page_id
    &&& int_wf(g@)
    &&& int_view(g@) == int_view(t.pool.page(g.page_id))
    &&& settled(t.trail@)
}

/// The halves of an internal page: the lower one is held, the upper one is the page
/// `rid`, which no page of the tree names yet.
pub open spec fn parent_halved<K: Key, V: Value>(
    t: BTreeIndex<K, V>,
    g: PageWriteGuard,
    l: int,
    i: int,
    rid: PageId,
    sep: Seq<u8>,
) -> bool {
    let old_page = t.pool.page(g.page_id);
    let right = t.pool.page(rid);
    let s2 = grown(t.shape@, l, i, rid, sep);
    &&& t.tree()
    &&& held(t.pool, Set::empty().insert(g.page_id), 1)
    &&& 0 < l < t.shape@.levels.len()
    &&& 0 <= i < t.shape@.levels[l].len()
    &&& t.shape@.levels[l][i] == g.page_id
    &&& g.dirty
    &&& fresh(t.shape@, rid)
    &&& 0 < rid < t.pool.next_page_id
    &&& good_key::<K>(sep)
    &&& 0 < sep.len()
    &&& at_least::<K>(sep, t.shape@.low[g.page_id])
    &&& at_most::<K>(sep, int_view(old_page).high)
    &&& good_internal::<K>(g@, s2, l, t.shape@.low[g.page_id])
    &&& int_view(g@).high == Some(sep)
    &&& int_view(g@).right == Some(rid)
    &&& good_internal::<K>(right, s2, l, Some(sep))
    &&& int_view(right).high == int_view(old_page).high
    &&& int_view(right).right == int_view(old_page).right
    &&& marked_halves(old_page, g@, right, l)
    &&& on_trail(t.pool, t.trail@, g)
}

/// The keys and children were divided in the middle: the lower page has those before the
/// separator, the upper one those behind it, and the lower page is marked.
pub open spec fn halves_of(
    left: Seq<u8>,
    right: Seq<u8>,
    ks: Seq<Seq<u8>>,
    cs: Seq<PageId>,
    sep: Seq<u8>,
) -> bool {
    let mid = ks.len() as int / 2;
    &&& sep == ks[mid]
    &&& int_view(left).keys == ks.take(mid)
    &&& int_view(left).children == cs.take(mid + 1)
    &&& int_view(right).keys == ks.skip(mid + 1)
    &&& int_view(right).children == cs.skip(mid + 1)
    &&& split_incomplete(left)
}

/// What is divided is in one of the halves.
proof fn lemma_in_halves(cs: Seq<PageId>, mid: int, c: PageId)
    requires
        cs.contains(c),
        0 <= mid < cs.len(),
    ensures
        cs.take(mid + 1).contains(c) || cs.skip(mid + 1).contains(c),
{
    let j = choose|j: int| 0 <= j < cs.len() && cs[j] == c;
    if j <= mid {
        assert(cs.take(mid + 1)[j] == c);
    } else {
        assert(cs.skip(mid + 1)[j - mid - 1] == c);
    }
}

/// The children of an internal page.
fn collect_children<K: Key>(acc: &InternalPageAccessor<'_, K>) -> (r: (Vec<PageId>, Vec<Vec<u8>>))
    requires
        acc.wf(),
    ensures
        r.0@ == acc.node().children,
        key_views(r.1@) == acc.node().keys,
{
    let n: usize = acc.num_keys() as usize;
    let mut children: Vec<PageId> = Vec::new();
    let mut keys: Vec<Vec<u8>> = Vec::new();
    children.push(acc.child_page_at(0));
    let mut i: usize = 0;
    while i < n
        invariant
            acc.wf(),
            n == acc.node().keys.len(),
            acc.node().children.len() == n + 1,
            i <= n,
            children@.len() == i + 1,
            keys@.len() == i,
            forall|j: int| 0 <= j <= i ==> children@[j] == #[trigger] acc.node().children[j],
            forall|j: int| 0 <= j < i ==> (#[trigger] keys@[j])@ == acc.node().keys[j],
        decreases n - i,
    {
        keys.push(vstd::slice::slice_to_vec(acc.key_bytes_at(i)));
        children.push(acc.child_page_at(i + 1));
        i = i + 1;
    }
    assert(children@ =~= acc.node().children);
    assert(key_views(keys@) =~= acc.node().keys);
    (children, keys)
}

/// The children and keys of an internal page with one more of each.
fn merged<K: Key>(acc: &InternalPageAccessor<'_, K>, sep_key: &[u8], right_child: PageId) -> (r: (
    Vec<PageId>,
    Vec<Vec<u8>>,
    Ghost<int>,
))
    requires
        acc.wf(),
        K::width_fits(),
        K::accepts(sep_key@),
        keys_sorted::<K>(acc.node().keys),
        forall|i: int| 0 <= i < acc.node().keys.len() ==> K::accepts(#[trigger] acc.node().keys[i]),
    ensures
        child_index::<K>(acc.node().keys, sep_key@, r.2@),
        r.0@ == acc.node().children.insert(r.2@ + 1, right_child),
        key_views(r.1@) == acc.node().keys.insert(r.2@, sep_key@),
{
    let (at, _child) = acc.find_child_bytes(sep_key);
    let (children, keys) = collect_children(acc);
    let mut children = children;
    let mut keys = keys;
    keys.insert(at, vstd::slice::slice_to_vec(sep_key));
    children.insert(at + 1, right_child);
    assert(key_views(keys@) =~= acc.node().keys.insert(at as int, sep_key@));
    (children, keys, Ghost(at as int))
}

/// Checks that both halves of the keys fit on a page.
fn check_halves(keys: &Vec<Vec<u8>>, high: Option<&[u8]>) -> (r: Result<(), PageError>)
    requires
        0 < keys@.len() <= 4096,
        forall|i: int| 0 <= i < keys@.len() ==> (#[trigger] keys@[i])@.len() <= 4096,
        high matches Some(h) ==> h@.len() <= 4096,
    ensures
        r is Ok <==> halves_fit(key_views(keys@), crate::wal::record::seq_of(high)),
{
    let high_len: usize = match high {
        Some(h) => h.len(),
        None => 0,
    };
    let total: usize = keys.len();
    let mid: usize = total / 2;
    let ghost ks = key_views(keys@);
    let left_need: usize = used_by(keys, 0, mid) + keys[mid].len();
    let right_need: usize = used_by(keys, mid + 1, total) + high_len;
    proof {
        assert(ks.take(mid as int) =~= ks.subrange(0, mid as int));
        assert(ks.skip(mid + 1) =~= ks.subrange(mid + 1, total as int));
        assert(ks[mid as int] == keys@[mid as int]@);
    }
    if left_need > PAGE_SIZE {
        Err(PageError::InsufficientSpace { needed: left_need, available: PAGE_SIZE })
    } else if right_need > PAGE_SIZE {
        Err(PageError::InsufficientSpace { needed: right_need, available: PAGE_SIZE })
    } else {
        Ok(())
    }
}

/// The halves of an internal page are good pages of the tree that they will be in.
proof fn lemma_two_nodes<K: Key>(
    sh: Shape,
    l: int,
    i: int,
    rid: PageId,
    low: Option<Seq<u8>>,
    high: Option<Seq<u8>>,
    ks: Seq<Seq<u8>>,
    cs: Seq<PageId>,
)
    requires
        0 < l < sh.levels.len(),
        0 <= i < sh.levels[l].len(),
        fresh(sh, rid),
        good_children::<K>(sh, l, low, high, ks, cs),
        ks.len() > 0,
    ensures
        ({
            let mid = ks.len() as int / 2;
            let sep = ks[mid];
            let s2 = grown(sh, l, i, rid, sep);
            &&& good_children::<K>(s2, l, low, Some(sep), ks.take(mid), cs.take(mid + 1))
            &&& good_children::<K>(s2, l, Some(sep), high, ks.skip(mid + 1), cs.skip(mid + 1))
            &&& good_key::<K>(sep)
            &&& 0 < sep.len()
            &&& at_least::<K>(sep, low)
            &&& at_most::<K>(sep, high)
        }),
{
    let mid = ks.len() as int / 2;
    let sep = ks[mid];
    lemma_children_split::<K>(sh, l, low, high, ks, cs, mid);
    lemma_children_kept::<K>(
        sh,
        l,
        i,
        rid,
        sep,
        l,
        low,
        Some(sep),
        ks.take(mid),
        cs.take(mid + 1),
    );
    lemma_children_kept::<K>(
        sh,
        l,
        i,
        rid,
        sep,
        l,
        Some(sep),
        high,
        ks.skip(mid + 1),
        cs.skip(mid + 1),
    );
    assert(canonical::<K>(ks[mid]));
}

/// Nothing of the internal page but its log sequence number was changed.
spec fn restamped_parent(before: PageWriteGuard, after: PageWriteGuard, lsn: Lsn) -> bool {
    &&& after.page_id == before.page_id
    &&& int_wf(before@)
    &&& int_wf(after@)
    &&& int_view(after@) == (InternalView { lsn, ..int_view(before@) })
}

/// The record of a split of an internal page gives the pages that were split.
proof fn lemma_parent_split_logged(
    a: BufferPoolManager,
    b: BufferPoolManager,
    trail: Trail,
    before: (PageWriteGuard, PageWriteGuard),
    after: (PageWriteGuard, PageWriteGuard),
)
    requires
        a.wf(),
        sound(a, trail),
        b.shards == a.shards,
        b.disk == a.disk,
        (Ok::<u64, WalError>(a.wal@.next), b.wal@) == appended(
            a.wal@,
            WalRecordType::InternalSPlit,
            SYSTEM_TXN_ID,
            seq![
                image_block(before.0.page_id, before.0@),
                image_block(before.1.page_id, before.1@),
            ],
            None,
        ),
        before.0.page_id != before.1.page_id,
        restamped_parent(before.0, after.0, a.wal@.next),
        restamped_parent(before.1, after.1, a.wal@.next),
    ensures
        sound(b, split_trail(trail, after.0, after.1, None)),
        passed(a, trail, b, split_trail(trail, after.0, after.1, None)),
        noted(a, b, trail, SYSTEM_TXN_ID),
{
    let kind = WalRecordType::InternalSPlit;
    let lsn = a.wal@.next;
    let l = meant(a, trail.open, before.0.page_id);
    let r = meant(a, trail.open, before.1.page_id);
    if l.lsn() < lsn {
        lemma_internal_image(kind, before.0.page_id, before.0@, lsn, l);
    }
    if r.lsn() < lsn {
        lemma_internal_image(kind, before.1.page_id, before.1@, lsn, r);
    }
    lemma_logged_two(
        a,
        b,
        kind,
        SYSTEM_TXN_ID,
        (
            image_block(before.0.page_id, before.0@),
            image_block(before.1.page_id, before.1@),
        ),
        trail,
        (l, r),
        (state_of(after.0@), state_of(after.1@)),
    );
}

impl<K: Key, V: Value> BTreeIndex<K, V> {
    /// Writes the two halves of the keys and children to the page that is held and to a
    /// new one, and logs them.
    fn write_halves(
        &mut self,
        guard: &mut PageWriteGuard,
        l: Ghost<int>,
        i: Ghost<int>,
        keys: &Vec<Vec<u8>>,
        children: &Vec<PageId>,
        old_high: Option<&[u8]>,
        old_right: Option<PageId>,
    ) -> (r: ParentSplit)
        requires
            parent_held(*old(self), *old(guard), l@, i@),
            0 < keys@.len(),
            crate::wal::record::seq_of(old_high) == int_view(old(guard)@).high,
            old_right == int_view(old(guard)@).right,
            good_children::<K>(
                old(self).shape@,
                l@,
                old(self).shape@.low[old(guard).page_id],
                int_view(old(guard)@).high,
                key_views(keys@),
                children@,
            ),
            halves_fit(key_views(keys@), int_view(old(guard)@).high),
            forall|c: PageId| #[trigger]
                names_child(old(self).pool.page(old(guard).page_id), c) ==> children@.contains(c),
        ensures
            final(guard).page_id == old(guard).page_id,
            within(old(self).pool, final(self).pool, 1),
            floats(*old(self), *final(self), old(self).parts()),
            final(self).root == old(self).root,
            final(self).shape@ == old(self).shape@,
            final(self).parts() == old(self).parts(),
            final(self).rooted() == old(self).rooted(),
            old(self).pool.next_page_id <= final(self).pool.next_page_id,
            forall|id: u64|
                id < old(self).pool.next_page_id ==> #[trigger] final(self).pool.page(id) == old(self).pool.page(id),
            match r {
                ParentSplit::Failed(e) => {
                    &&& parent_held(*final(self), *final(guard), l@, i@)
                    &&& *final(guard) == *old(guard)
                    &&& e is BufferPool && final(self).pool.faulty()
                },
                ParentSplit::Done { sep, rid, logged } => {
                    &&& parent_halved(*final(self), *final(guard), l@, i@, rid, sep@)
                    &&& halves_of(
                        final(guard)@,
                        final(self).pool.page(rid),
                        key_views(keys@),
                        children@,
                        sep@,
                    )
                    &&& split_incomplete(final(self).pool.page(rid)) == split_incomplete(
                        old(guard)@,
                    )
                    &&& logged is Err ==> log_stuck(final(self).pool.wal@)
                },
            },
            spared(
                *old(self),
                *final(self),
                r matches ParentSplit::Done { logged, .. } && logged is Err,
            ),
    {
        let ghost start = *self;
        let ghost sh = self.shape@;
        let pid: PageId = guard.page_id;
        let ghost low = sh.low[pid];
        let ghost high = int_view(guard@).high;
        let ghost ks = key_views(keys@);
        let ghost cs = children@;
        assert(node_wf::<K, V>(start.pool, sh, l@, i@));
        let total: usize = keys.len();
        let mid: usize = total / 2;
        let push_up: Vec<u8> = vstd::slice::slice_to_vec(keys[mid].as_slice());
        proof {
            assert(ks.take(mid as int) =~= ks.subrange(0, mid as int));
            assert(ks.skip(mid + 1) =~= ks.subrange(mid + 1, total as int));
            assert(cs.take(mid + 1) =~= cs.subrange(0, mid + 1));
            assert(cs.skip(mid + 1) =~= cs.subrange(mid + 1, total + 1));
            assert(ks[mid as int] == keys@[mid as int]@);
            assert(canonical::<K>(ks[mid as int]));
        }
        let made = self.pool.new_page();
        self.trail = Ghost(carried(start, self.pool.wal@));
        proof {
            lemma_carried(start, *self);
        }
        let mut right_guard = match made {
            Ok(g) => g,
            Err(e) => {
                proof {
                    lemma_pool_kept(start, *self);
                    assert(self.pool.page(pid) == start.pool.page(pid));
                }
                return ParentSplit::Failed(IndexError::BufferPool(e));
            },
        };
        let rid: PageId = right_guard.page_id;
        let ghost s1 = *self;
        proof {
            lemma_fresh::<K, V>(start.pool, start.root, sh, rid);
            lemma_pool_kept(start, s1);
            assert(sh.levels[l@][i@] != rid);
            lemma_hold(start.pool, s1.pool, Set::empty().insert(pid), 1, rid);
            assert(s1.pool.page(pid) == start.pool.page(pid));
        }
        build_internal::<K>(
            right_guard.memory_mut(),
            rid,
            old_high,
            old_right,
            keys,
            children,
            mid + 1,
            total,
        );
        proof {
            lemma_unmarked();
            crate::page::internal::lemma_int_flags(
                right_guard@,
                right_guard@[1] | crate::page::FLAG_INCOMPLETE_SPLIT,
            );
        }
        if crate::page::is_incomplete_split(guard.memory()) {
            crate::page::set_incomplete_split(right_guard.memory_mut());
        }
        build_internal::<K>(
            guard.memory_mut(),
            pid,
            Some(push_up.as_slice()),
            Some(rid),
            keys,
            children,
            0,
            mid,
        );
        proof {
            crate::page::internal::lemma_int_flags(
                guard@,
                guard@[1] | crate::page::FLAG_INCOMPLETE_SPLIT,
            );
        }
        crate::page::set_incomplete_split(guard.memory_mut());
        let logged = self.log_parent_split(guard, &mut right_guard);
        let ghost s4 = *self;
        let ghost right_page = right_guard@;
        let ghost two = Set::<u64>::empty().insert(pid).insert(rid);
        let ghost rg = right_guard;
        proof {
            lemma_only_logged(s1, s4);
        }
        self.pool.release_mut(right_guard);
        self.trail = Ghost(closing(s4.trail@, rid));
        proof {
            let sep = push_up@;
            lemma_released(s4.pool, self.pool, rg, s4.trail@);
            lemma_same_view(right_page);
            lemma_outside::<K, V>(s4.pool, self.pool, start.root, sh, rid);
            lemma_unhold(s4.pool, self.pool, two, 2, rid);
            assert(two.remove(rid) =~= Set::empty().insert(pid));
            assert(self.pool.page(0) == s4.pool.page(0));
            assert(s4.pool.page(0) == s1.pool.page(0));
            assert(self.pool.page(pid) == s4.pool.page(pid));
            assert(s4.pool.page(pid) == s1.pool.page(pid));
            lemma_two_nodes::<K>(sh, l@, i@, rid, low, high, ks, cs);
            assert forall|c: PageId| #[trigger] names_child(
                start.pool.page(pid),
                c,
            ) implies names_child(guard@, c) || names_child(self.pool.page(rid), c) by {
                lemma_in_halves(cs, mid as int, c);
            }
            assert forall|id: u64| id < start.pool.next_page_id implies #[trigger] self.pool.page(id)
                == start.pool.page(id) by {
                assert(s4.pool.page(id) == s1.pool.page(id));
                assert(s1.pool.page(id) == start.pool.page(id));
            }
        }
        ParentSplit::Done { sep: push_up, rid, logged }
    }

    /// Logs the images of both halves of an internal page, and stamps them.
    fn log_parent_split(&mut self, guard: &mut PageWriteGuard, right_guard: &mut PageWriteGuard)
        -> (r: Result<(), WalError>)
        requires
            old(self).tree(),
            int_wf(old(guard)@),
            int_wf(old(right_guard)@),
            old(guard).dirty,
            old(right_guard).dirty,
            old(guard).page_id != old(right_guard).page_id,
        ensures
            only_logged(*old(self), *final(self)),
            final(self).trail@ == (if r is Ok {
                split_trail(old(self).trail@, *final(guard), *final(right_guard), None)
            } else {
                parting(old(self).trail@)
            }),
            spared(*old(self), *final(self), r is Err),
            upheld(old(self).pool, final(self).pool),
            final(guard).page_id == old(guard).page_id,
            final(guard).dirty,
            int_wf(final(guard)@),
            int_view(final(guard)@) == (InternalView {
                lsn: int_view(final(guard)@).lsn,
                ..int_view(old(guard)@)
            }),
            final(right_guard).page_id == old(right_guard).page_id,
            final(right_guard).dirty,
            int_wf(final(right_guard)@),
            int_view(final(right_guard)@) == (InternalView {
                lsn: int_view(final(right_guard)@).lsn,
                ..int_view(old(right_guard)@)
            }),
            r is Err ==> log_stuck(final(self).pool.wal@),
            final(self).pool.wal@ == appended(
                old(self).pool.wal@,
                WalRecordType::InternalSPlit,
                SYSTEM_TXN_ID,
                seq![
                    image_block(old(guard).page_id, old(guard)@),
                    image_block(old(right_guard).page_id, old(right_guard)@),
                ],
                None,
            ).1,
    {
        let ghost a = *self;
        let ghost lg = *guard;
        let ghost rg = *right_guard;
        let ghost images = seq![
            image_block(guard.page_id, guard@),
            image_block(right_guard.page_id, right_guard@),
        ];
        let ghost w = self.pool.wal@;
        let logged = self.pool.wal.log_internal_split(
            SYSTEM_TXN_ID,
            (guard.page_id, guard.memory()),
            (right_guard.page_id, right_guard.memory()),
        );
        proof {
            lemma_small_record(images, None);
            lemma_refused(w, WalRecordType::InternalSPlit, SYSTEM_TXN_ID, images, None);
            lemma_upheld_logged(a.pool, self.pool);
        }
        match logged {
            Ok(lsn) => {
                InternalPageMutator::<K>::new(guard.memory_mut()).set_lsn(lsn);
                InternalPageMutator::<K>::new(right_guard.memory_mut()).set_lsn(lsn);
                self.trail = Ghost(split_trail(a.trail@, *guard, *right_guard, None));
                proof {
                    lemma_parent_split_logged(
                        a.pool,
                        self.pool,
                        a.trail@,
                        (lg, rg),
                        (*guard, *right_guard),
                    );
                }
                Ok(())
            },
            Err(e) => {
                self.trail = Ghost(parting(a.trail@));
                Err(e)
            },
        }
    }

    /// Puts a separator and its child into the internal page that is held, and moves the
    /// page's upper half to a new page.
    pub(crate) fn split_internal_ly(
        &mut self,
        guard: &mut PageWriteGuard,
        l: Ghost<int>,
        i: Ghost<int>,
        sep_key: &[u8],
        right_child: PageId,
    ) -> (r: ParentSplit)
        requires
            parent_held(*old(self), *old(guard), l@, i@),
            good_key::<K>(sep_key@),
            0 < sep_key@.len(),
            at_least::<K>(sep_key@, old(self).shape@.low[old(guard).page_id]),
            at_most::<K>(sep_key@, int_view(old(guard)@).high),
            linked(old(self).shape@, l@ - 1, right_child, Some(sep_key@)),
        ensures
            final(guard).page_id == old(guard).page_id,
            within(old(self).pool, final(self).pool, 1),
            floats(*old(self), *final(self), old(self).parts()),
            final(self).root == old(self).root,
            final(self).shape@ == old(self).shape@,
            final(self).parts() == old(self).parts(),
            final(self).rooted() == old(self).rooted(),
            old(self).pool.next_page_id <= final(self).pool.next_page_id,
            forall|id: u64|
                id < old(self).pool.next_page_id ==> #[trigger] final(self).pool.page(id) == old(self).pool.page(id),
            match r {
                ParentSplit::Failed(e) => {
                    &&& parent_held(*final(self), *final(guard), l@, i@)
                    &&& *final(guard) == *old(guard)
                    &&& e is BufferPool && final(self).pool.faulty() || e is Page && uneven::<K>(
                        final(self).pool,
                        final(self).shape@,
                    )
                },
                ParentSplit::Done { sep, rid, logged } => {
                    &&& parent_halved(*final(self), *final(guard), l@, i@, rid, sep@)
                    &&& exists|at: int|
                        #[trigger] child_index::<K>(int_view(old(guard)@).keys, sep_key@, at)
                            && halves_of(
                            final(guard)@,
                            final(self).pool.page(rid),
                            int_view(old(guard)@).keys.insert(at, sep_key@),
                            int_view(old(guard)@).children.insert(at + 1, right_child),
                            sep@,
                        )
                    &&& split_incomplete(final(self).pool.page(rid)) == split_incomplete(
                        old(guard)@,
                    )
                    &&& logged is Err ==> log_stuck(final(self).pool.wal@)
                },
            },
            spared(
                *old(self),
                *final(self),
                r matches ParentSplit::Done { logged, .. } && logged is Err,
            ),
    {
        let ghost sh = self.shape@;
        let ghost node = int_view(guard@);
        let ghost low = sh.low[guard.page_id];
        assert(node_wf::<K, V>(self.pool, sh, l@, i@));
        let page: Vec<u8> = vstd::slice::slice_to_vec(guard.memory());
        let acc = InternalPageAccessor::<K>::new(page.as_slice());
        let (children, keys, at) = merged(&acc, sep_key, right_child);
        proof {
            let ks = key_views(keys@);
            assert(acc.node() == node);
            assert(ks == node.keys.insert(at@, sep_key@));
            assert(ks.len() == keys@.len());
            crate::page::internal::lemma_int_used(page@);
            crate::page::internal::lemma_key_total_bound(node.keys, node.keys.len() as int);
            assert forall|j: int| 0 <= j < keys@.len() implies (#[trigger] keys@[j])@.len()
                <= 4096 by {
                assert(ks[j] == keys@[j]@);
                if j < at@ {
                    assert(ks[j] == node.keys[j]);
                } else if j > at@ {
                    assert(ks[j] == node.keys[j - 1]);
                } else {
                    assert(ks[j] == sep_key@);
                }
            }
            lemma_children_insert::<K>(
                sh,
                l@,
                low,
                node.high,
                node.keys,
                node.children,
                at@,
                sep_key@,
                right_child,
            );
        }
        match check_halves(&keys, acc.high_key_bytes()) {
            Ok(()) => {},
            Err(e) => {
                assert(cannot_take::<K>(
                    int_view(self.pool.page(sh.levels[l@][i@])),
                    at@,
                    sep_key@,
                ));
                return ParentSplit::Failed(IndexError::Page(e));
            },
        }
        proof {
            assert forall|c: PageId| #[trigger] names_child(
                self.pool.page(guard.page_id),
                c,
            ) implies children@.contains(c) by {
                let k = choose|k: int| 0 <= k < node.children.len() && node.children[k] == c;
                let k2 = if k <= at@ {
                    k
                } else {
                    k + 1
                };
                assert(children@[k2] == c);
            }
        }
        let done = self.write_halves(
            guard,
            l,
            i,
            &keys,
            &children,
            acc.high_key_bytes(),
            acc.rightlink(),
        );
        assert(child_index::<K>(node.keys, sep_key@, at@));
        done
    }

    /// Releases the lower half of an internal page that was split; with that the upper
    /// half is part of the tree.
    pub(crate) fn close_parent(
        &mut self,
        guard: PageWriteGuard,
        l: Ghost<int>,
        i: Ghost<int>,
        rid: PageId,
        sep: Ghost<Seq<u8>>,
    )
        requires
            parent_halved(*old(self), guard, l@, i@, rid, sep@),
        ensures
            final(self).wf(),
            final(self).root == old(self).root,
            final(self).shape@ == grown(old(self).shape@, l@, i@, rid, sep@),
            final(self).pool.wal == old(self).pool.wal,
            final(self).rooted() == old(self).rooted(),
            final(self).parts() == old(self).parts(),
            final(self).pool.page(guard.page_id) == plain(guard@),
            linked(final(self).shape@, l@, rid, Some(sep@)),
            final(self).pool.next_page_id == old(self).pool.next_page_id,
            forall|id: u64|
                id != guard.page_id ==> #[trigger] final(self).pool.page(id) == old(self).pool.page(id),
            old(self).pool.faulty() ==> final(self).pool.faulty(),
            upheld(old(self).pool, final(self).pool),
            final(self).trail@ == closing(old(self).trail@, guard.page_id),
            passed(old(self).pool, old(self).trail@, final(self).pool, final(self).trail@),
    {
        let ghost a = *self;
        let ghost sh = self.shape@;
        let ghost g = guard;
        let ghost pid = guard.page_id;
        self.pool.release_mut(guard);
        self.trail = Ghost(closing(a.trail@, pid));
        self.shape = Ghost(grown(sh, l@, i@, rid, sep@));
        proof {
            lemma_released(a.pool, self.pool, g, a.trail@);
            lemma_same_view(g@);
            assert(node_wf::<K, V>(a.pool, sh, l@, i@));
            assert(sh.levels[l@][i@] != rid);
            assert(self.pool.page(rid) == a.pool.page(rid));
            lemma_node_split::<K, V>(a.pool, self.pool, a.root, sh, l@, i@, rid, sep@);
            lemma_unhold(a.pool, self.pool, Set::empty().insert(pid), 1, pid);
            assert(Set::<u64>::empty().insert(pid).remove(pid) =~= Set::empty());
            assert(self.pool.page(0) == a.pool.page(0));
            assert(self.shape@.levels[l@][i@ + 1] == rid);
        }
    }
}

/// A bound that is not above another one.
pub open spec fn low_le<K: Key>(a: Option<Seq<u8>>, b: Option<Seq<u8>>) -> bool {
    a matches Some(x) ==> (b matches Some(y) && K::le(x, y))
}

/// The pages that a search passed on its way down to a page with the given low key: one
/// on each level above, none of them to the right of the page.
pub open spec fn stack_ok<K: Key>(
    sh: Shape,
    stack: Seq<PageId>,
    l: int,
    low: Option<Seq<u8>>,
) -> bool
    decreases stack.len(),
{
    stack.len() == 0 || {
        let e = stack.last();
        &&& l + 1 < sh.levels.len()
        &&& sh.levels[l + 1].contains(e)
        &&& low_le::<K>(sh.low[e], low)
        &&& stack_ok::<K>(sh, stack.drop_last(), l + 1, sh.low[e])
    }
}

/// Pages stay on their level and keep their low keys.
pub open spec fn extends(a: Shape, b: Shape) -> bool {
    &&& a.levels.len() <= b.levels.len()
    &&& forall|m: int, id: PageId|
        0 <= m < a.levels.len() && #[trigger] a.levels[m].contains(id) ==> b.levels[m].contains(id)
            && b.low[id] == a.low[id]
}

/// A level that grows keeps its pages.
pub proof fn lemma_grown_extends(sh: Shape, l: int, i: int, rid: PageId, sep: Seq<u8>)
    requires
        0 <= l < sh.levels.len(),
        0 <= i < sh.levels[l].len(),
        fresh(sh, rid),
    ensures
        extends(sh, grown(sh, l, i, rid, sep)),
{
    let s2 = grown(sh, l, i, rid, sep);
    assert forall|m: int, id: PageId|
        0 <= m < sh.levels.len() && #[trigger] sh.levels[m].contains(id) implies s2.levels[m].contains(
        id,
    ) && s2.low[id] == sh.low[id] by {
        let chain = sh.levels[m];
        let q = choose|q: int| 0 <= q < chain.len() && chain[q] == id;
        assert(sh.levels[m][q] != rid);
        let q2 = if m == l && q > i {
            q + 1
        } else {
            q
        };
        assert(s2.levels[m][q2] == id);
    }
}

/// A tree that grows in height keeps its pages.
pub proof fn lemma_raised_extends(sh: Shape, top: PageId)
    requires
        fresh(sh, top),
    ensures
        extends(sh, raised(sh, top)),
{
    let s2 = raised(sh, top);
    assert forall|m: int, id: PageId|
        0 <= m < sh.levels.len() && #[trigger] sh.levels[m].contains(id) implies s2.levels[m].contains(
        id,
    ) && s2.low[id] == sh.low[id] by {
        let chain = sh.levels[m];
        let q = choose|q: int| 0 <= q < chain.len() && chain[q] == id;
        assert(sh.levels[m][q] != top);
        assert(s2.levels[m][q] == id);
    }
}

pub proof fn lemma_extends_chain(a: Shape, b: Shape, c: Shape)
    requires
        extends(a, b),
        extends(b, c),
    ensures
        extends(a, c),
{
    assert forall|m: int, id: PageId|
        0 <= m < a.levels.len() && #[trigger] a.levels[m].contains(id) implies c.levels[m].contains(
        id,
    ) && c.low[id] == a.low[id] by {
        assert(b.levels[m].contains(id));
    }
}

/// The way down is good in a tree that grew.
pub proof fn lemma_stack_kept<K: Key>(
    a: Shape,
    b: Shape,
    stack: Seq<PageId>,
    l: int,
    low: Option<Seq<u8>>,
)
    requires
        extends(a, b),
        0 <= l,
        stack_ok::<K>(a, stack, l, low),
    ensures
        stack_ok::<K>(b, stack, l, low),
    decreases stack.len(),
{
    if stack.len() > 0 {
        let e = stack.last();
        assert(a.levels[l + 1].contains(e));
        lemma_stack_kept::<K>(a, b, stack.drop_last(), l + 1, a.low[e]);
    }
}

/// The way down is good for a page further right.
pub proof fn lemma_stack_right<K: Key, V: Value>(
    p: BufferPoolManager,
    root: PageId,
    sh: Shape,
    stack: Seq<PageId>,
    l: int,
    low: Option<Seq<u8>>,
    further: Option<Seq<u8>>,
)
    requires
        tree_wf::<K, V>(p, root, sh),
        0 <= l,
        stack_ok::<K>(sh, stack, l, low),
        low_le::<K>(low, further),
        low matches Some(x) ==> K::accepts(x),
        further matches Some(x) ==> K::accepts(x),
    ensures
        stack_ok::<K>(sh, stack, l, further),
{
    if stack.len() > 0 {
        let e = stack.last();
        let chain = sh.levels[l + 1];
        let q = choose|q: int| 0 <= q < chain.len() && chain[q] == e;
        assert(node_wf::<K, V>(p, sh, l + 1, q));
        if sh.low[e] is Some {
            crate::index::tree::lemma_le_chain::<K>(sh.low[e]->0, low->0, further->0);
        }
    }
}

/// Where the tree is upright, the right neighbour of the page has a parent.
#[verifier::opaque]
pub open spec fn downlinked(p: BufferPoolManager, sh: Shape, l: int, pid: PageId) -> bool {
    sh.firm ==> forall|i: int|
        0 <= i && i + 1 < sh.levels[l].len() && #[trigger] sh.levels[l][i] == pid ==> has_parent(
            p,
            sh,
            l,
            sh.levels[l][i + 1],
        )
}

/// The second page is the right neighbour of the first.
#[verifier::opaque]
pub open spec fn adjoins(sh: Shape, l: int, left: PageId, rid: PageId) -> bool {
    forall|i: int|
        0 <= i < sh.levels[l].len() && #[trigger] sh.levels[l][i] == left ==> i + 1
            < sh.levels[l].len() && sh.levels[l][i + 1] == rid
}

/// Two pages next to each other adjoin.
proof fn lemma_adjoins<K: Key, V: Value>(
    p: BufferPoolManager,
    root: PageId,
    sh: Shape,
    l: int,
    i: int,
)
    requires
        tree_wf::<K, V>(p, root, sh),
        0 <= l < sh.levels.len(),
        0 <= i,
        i + 1 < sh.levels[l].len(),
    ensures
        adjoins(sh, l, sh.levels[l][i], sh.levels[l][i + 1]),
{
    reveal(adjoins);
}

/// The right neighbour that has a parent is the one.
proof fn lemma_downlinked(
    p: BufferPoolManager,
    sh: Shape,
    s2: Shape,
    l: int,
    left: PageId,
    rid: PageId,
)
    requires
        adjoins(sh, l, left, rid),
        s2.levels[l] == sh.levels[l],
        has_parent(p, s2, l, rid),
    ensures
        downlinked(p, s2, l, left),
{
    reveal(adjoins);
    reveal(downlinked);
}

/// Nothing is asked of a page where nothing is said of parents, or that has no right neighbour.
proof fn lemma_free_of_parents(p: BufferPoolManager, sh: Shape, l: int, pid: PageId)
    requires
        !sh.firm || forall|i: int|
            0 <= i && i + 1 < sh.levels[l].len() ==> #[trigger] sh.levels[l][i] != pid,
    ensures
        downlinked(p, sh, l, pid),
{
    reveal(downlinked);
}

/// The way up leads to the root, which is alone on its level or has been split.
pub open spec fn topped(sh: Shape, path: Seq<PageId>, l: int, left: PageId, rid: PageId) -> bool {
    &&& path.len() == sh.levels.len() - 1 - l
    &&& if path.len() > 0 {
        sh.levels.last().len() == 1
    } else {
        sh.levels.last() == seq![left, rid]
    }
}

impl<K: Key, V: Value> BTreeIndex<K, V> {
    /// Marks a page's split as complete, and stamps it where a record says so.
    fn clear_flag(&mut self, pid: PageId, l: Ghost<int>, lsn: Option<Lsn>) -> (r: Result<
        (),
        IndexError,
    >)
        requires
            old(self).tree(),
            held(old(self).pool, Set::empty(), 0),
            0 <= l@ < old(self).shape@.levels.len(),
            old(self).shape@.levels[l@].contains(pid),
            only_open(old(self).trail@, pid),
            awaits(old(self).pool, old(self).trail@, pid, lsn),
            downlinked(old(self).pool, old(self).shape@, l@, pid),
        ensures
            final(self).wf(),
            spared(*old(self), *final(self), r is Err),
            floats(*old(self), *final(self), old(self).parts()),
            r is Err ==> final(self).trail@.parted && same_contents(old(self).pool, final(self).pool),
            final(self).root == old(self).root,
            final(self).shape@ == old(self).shape@,
            final(self).parts() == old(self).parts(),
            final(self).rooted() == old(self).rooted(),
            within(old(self).pool, final(self).pool, 0),
            l@ > 0 ==> int_view(final(self).pool.page(pid)).children == int_view(
                old(self).pool.page(pid),
            ).children,
            match r {
                Ok(()) => !split_incomplete(final(self).pool.page(pid)),
                Err(e) => e is BufferPool && final(self).pool.faulty(),
            },
            forall|id: u64|
                id != pid ==> #[trigger] final(self).pool.page(id) == old(self).pool.page(id),
    {
        let ghost a = *self;
        let ghost sh = self.shape@;
        let ghost chain = sh.levels[l@];
        let ghost i = choose|q: int| 0 <= q < chain.len() && chain[q] == pid;
        assert(node_wf::<K, V>(a.pool, sh, l@, i));
        let fetched = self.pool.fetch_page_mut(pid);
        self.trail = Ghost(carried(a, self.pool.wal@));
        proof {
            lemma_level(a.pool, a.trail@, pid, lsn);
            lemma_carried(a, *self);
        }
        let mut g = match fetched {
            Ok(g) => g,
            Err(e) => {
                proof {
                    lemma_pool_kept(a, *self);
                    assert(held(a.pool, Set::empty(), 0));
                }
                self.trail = Ghost(parting(self.trail@));
                return Err(IndexError::BufferPool(e));
            },
        };
        let ghost b = *self;
        let ghost before = g@;
        proof {
            lemma_pool_kept(a, b);
            lemma_hold(a.pool, b.pool, Set::empty(), 0, pid);
            lemma_same_view(before);
            let f = before[1] & !crate::page::FLAG_INCOMPLETE_SPLIT;
            if l@ == 0 {
                crate::page::leaf::lemma_leaf_flags(before, f);
            } else {
                crate::page::internal::lemma_int_flags(before, f);
            }
        }
        crate::page::clear_incomplete_split(g.memory_mut());
        if let Some(x) = lsn {
            proof {
                if l@ == 0 {
                    crate::page::leaf::lemma_leaf_lsn(g@, x);
                } else {
                    crate::page::internal::lemma_int_lsn(g@, x);
                }
            }
            crate::page::set_lsn(g.memory_mut(), x);
        }
        let ghost after = g@;
        let ghost held_page = g;
        self.pool.release_mut(g);
        self.trail = Ghost(closing(b.trail@, pid));
        proof {
            assert(b.pool.page(pid) == a.pool.page(pid));
            assert(follows(b.pool, b.trail@, held_page)) by {
                lemma_calm_flags(before[1], before[1]);
                assert(calm(state_of(after)) == calm(stamped(state_of(before), lsn)));
            }
            lemma_released(b.pool, self.pool, held_page, b.trail@);
            lemma_same_view(after);
            if sh.firm && i + 1 < chain.len() {
                reveal(downlinked);
                assert(chain[i] == pid);
                lemma_same_reached(a, b, l@, chain[i + 1]);
            }
            lemma_node_edit::<K, V>(b.pool, self.pool, a.root, sh, l@, i);
            lemma_unhold(b.pool, self.pool, Set::empty().insert(pid), 1, pid);
            assert(Set::<u64>::empty().insert(pid).remove(pid) =~= Set::empty());
            assert(self.pool.page(0) == b.pool.page(0));
            assert(self.parts() =~= a.parts());
            assert forall|id: u64| id != pid implies #[trigger] self.pool.page(id) == a.pool.page(
                id,
            ) by {
                assert(b.pool.page(id) == a.pool.page(id));
            }
        }
        Ok(())
    }

    /// From a page that the separator is not left of, goes right to the page that it
    /// belongs to, and holds it.
    fn settle_parent(&mut self, start: PageId, sep: &[u8], l: Ghost<int>) -> (r: Result<
        (PageWriteGuard, Ghost<int>),
        IndexError,
    >)
        requires
            old(self).wf(),
            K::accepts(sep@),
            0 < l@ < old(self).shape@.levels.len(),
            old(self).shape@.levels[l@].contains(start),
            at_least::<K>(sep@, old(self).shape@.low[start]),
        ensures
            crate::index::untouched(*old(self), *final(self)),
            final(self).parts() == old(self).parts(),
            final(self).rooted() == old(self).rooted(),
            match r {
                Ok((g, i)) => {
                    &&& parent_held(*final(self), g, l@, i@)
                    &&& !g.dirty
                    &&& at_least::<K>(sep@, final(self).shape@.low[g.page_id])
                    &&& crate::index::tree::under::<K>(sep@, int_view(g@).high)
                    &&& low_le::<K>(
                        final(self).shape@.low[start],
                        final(self).shape@.low[g.page_id],
                    )
                },
                Err(e) => final(self).wf() && e is BufferPool && final(self).pool.faulty(),
            },
    {
        let ghost sh = self.shape@;
        let ghost chain = sh.levels[l@];
        let ghost mut i: int = choose|q: int| 0 <= q < chain.len() && chain[q] == start;
        let mut pid: PageId = start;
        proof {
            assert(node_wf::<K, V>(self.pool, sh, l@, i));
            if sh.low[start] is Some {
                K::le_total(sh.low[start]->0, sh.low[start]->0);
            }
        }
        loop
            invariant
                self.wf(),
                old(self).tree(),
                crate::index::untouched(*old(self), *self),
                self.parts() == old(self).parts(),
                sh == self.shape@,
                0 < l@ < sh.levels.len(),
                chain == sh.levels[l@],
                K::accepts(sep@),
                0 <= i < chain.len(),
                pid == chain[i],
                at_least::<K>(sep@, sh.low[pid]),
                low_le::<K>(sh.low[start], sh.low[pid]),
                sh.low[start] matches Some(x) ==> K::accepts(x),
            decreases chain.len() - i,
        {
            let ghost here = *self;
            assert(node_wf::<K, V>(self.pool, sh, l@, i));
            let fetched = self.pool.fetch_page_mut(pid);
            self.trail = Ghost(carried(here, self.pool.wal@));
            proof {
                lemma_carried(here, *self);
            }
            let guard = match fetched {
                Ok(g) => g,
                Err(e) => {
                    proof {
                        lemma_pool_kept(here, *self);
                        crate::index::lemma_steps(*old(self), here, *self);
                        assert(held(here.pool, Set::empty(), 0));
                        lemma_pool_kept(*old(self), *self);
                    }
                    return Err(IndexError::BufferPool(e));
                },
            };
            let ghost mid = *self;
            proof {
                lemma_pool_kept(here, mid);
                lemma_hold(here.pool, mid.pool, Set::empty(), 0, pid);
                lemma_same_view(guard@);
                assert(node_wf::<K, V>(mid.pool, sh, l@, i));
                assert(mid.pool.page(pid) == here.pool.page(pid));
                crate::index::lemma_steps(*old(self), here, mid);
                lemma_pool_kept(*old(self), mid);
            }
            let acc = InternalPageAccessor::<K>::new(guard.memory());
            let mut next: Option<PageId> = None;
            if let Some(hk) = acc.high_key_bytes() {
                if key_order::<K>(sep, hk) >= 0 {
                    proof {
                        K::le_total(hk@, sep@);
                    }
                    next = acc.rightlink();
                }
            }
            match next {
                Some(right) => {
                    self.pool.release_mut(guard);
                    proof {
                        assert forall|id: u64| #[trigger] self.pool.page(id) == mid.pool.page(
                            id,
                        ) by {}
                        lemma_same_passed(mid, *self);
                        crate::index::lemma_steps(*old(self), mid, *self);
                        lemma_unhold(mid.pool, self.pool, Set::empty().insert(pid), 1, pid);
                        assert(Set::<u64>::empty().insert(pid).remove(pid) =~= Set::empty());
                        lemma_pool_kept(mid, *self);
                        if sh.low[start] is Some {
                            crate::index::tree::lemma_le_chain::<K>(
                                sh.low[start]->0,
                                sh.low[pid]->0,
                                sh.low[right]->0,
                            );
                        }
                        i = i + 1;
                    }
                    pid = right;
                },
                None => {
                    return Ok((guard, Ghost(i)));
                },
            }
        }
    }
}

/// Why an operation on the structure failed, and that it is so.
pub open spec fn structure_error<K: Key, V: Value>(e: IndexError, t: BTreeIndex<K, V>) -> bool {
    ||| e is BufferPool && t.pool.faulty()
    ||| e is Wal && log_stuck(t.pool.wal@)
    ||| e is Page && uneven::<K>(t.pool, t.shape@)
}

/// The new root, the metadata page and the old root are open.
spec fn root_trail(
    trail: Trail,
    top: (PageId, PageState),
    meta: PageState,
    left: (PageId, PageState),
) -> Trail {
    Trail { open: trail.open.insert(top.0, top.1).insert(0, meta).insert(left.0, left.1), ..trail }
}

/// The record of a new root gives it and the metadata page, and takes the mark off the old
/// root.
proof fn lemma_root_logged(
    a: BufferPoolManager,
    b: BufferPoolManager,
    trail: Trail,
    top: PageId,
    top_page: (Seq<u8>, Seq<u8>),
    meta_page: (Seq<u8>, Seq<u8>),
    left: PageId,
)
    requires
        a.wf(),
        sound(a, trail),
        settled(trail),
        b.shards == a.shards,
        b.disk == a.disk,
        (Ok::<u64, WalError>(a.wal@.next), b.wal@) == appended(
            a.wal@,
            WalRecordType::NewRoot,
            SYSTEM_TXN_ID,
            seq![
                image_block(top, top_page.0),
                data_block(0, crate::bytes::u64_bytes(top)),
                bare_block(left),
            ],
            None,
        ),
        top != 0,
        left != 0,
        top != left,
        int_wf(top_page.0),
        int_wf(top_page.1),
        int_view(top_page.1) == (InternalView { lsn: a.wal@.next, ..int_view(top_page.0) }),
        meta_page.0.len() == PAGE_SIZE,
        crate::page::meta::is_meta(meta_page.0),
        crate::page::plain(meta_page.0) == a.page(0),
        meta_page.1 == crate::page::with_lsn(
            crate::page::meta::with_root(meta_page.0, top),
            a.wal@.next,
        ),
        !(state_of(a.page(left)) is Raw),
    ensures
        sound(
            b,
            root_trail(
                trail,
                (top, state_of(top_page.1)),
                state_of(meta_page.1),
                (left, stamped(state_of(a.page(left)), Some(a.wal@.next))),
            ),
        ),
        passed(
            a,
            trail,
            b,
            root_trail(
                trail,
                (top, state_of(top_page.1)),
                state_of(meta_page.1),
                (left, stamped(state_of(a.page(left)), Some(a.wal@.next))),
            ),
        ),
        noted(a, b, trail, SYSTEM_TXN_ID),
{
    broadcast use crate::bytes::group_int_bytes;

    let kind = WalRecordType::NewRoot;
    let lsn = a.wal@.next;
    let root_bytes = crate::bytes::u64_bytes(top);
    let st = state_of(a.page(left));
    let was = meant(a, trail.open, top);
    law_blocks_are_readable(0, root_bytes, top_page.0);
    if was.lsn() < lsn {
        lemma_internal_image(kind, top, top_page.0, lsn, was);
    }
    lemma_root_redone(meta_page.0, top, lsn);
    crate::recovery::redo::lemma_state(meta_page.0);
    if st.lsn() < lsn {
        lemma_bare_redone(kind, left, lsn, st);
    }
    lemma_logged_three(
        a,
        b,
        kind,
        SYSTEM_TXN_ID,
        (image_block(top, top_page.0), data_block(0, root_bytes), bare_block(left)),
        trail,
        (was, state_of(meta_page.0), st),
        (state_of(top_page.1), state_of(meta_page.1), stamped(st, Some(lsn))),
    );
}

impl<K: Key, V: Value> BTreeIndex<K, V> {
    /// Releases the new root and the metadata page.
    fn close_root(&mut self, top_guard: PageWriteGuard, meta_guard: PageWriteGuard)
        requires
            old(self).tree(),
            held(
                old(self).pool,
                Set::empty().insert(top_guard.page_id).insert(meta_guard.page_id),
                2,
            ),
            top_guard.dirty,
            meta_guard.dirty,
            top_guard.page_id > 0,
            meta_guard.page_id == 0,
            fresh(old(self).shape@, top_guard.page_id),
            int_wf(top_guard@),
            meta_guard@.len() == PAGE_SIZE,
            crate::page::meta::is_meta(meta_guard@),
            follows(old(self).pool, old(self).trail@, top_guard),
            follows(old(self).pool, old(self).trail@, meta_guard),
        ensures
            final(self).pages(),
            final(self).pool.disk == old(self).pool.disk,
            held(final(self).pool, Set::empty(), 0),
            final(self).trail@ == closing(closing(old(self).trail@, top_guard.page_id), 0),
            passed(old(self).pool, old(self).trail@, final(self).pool, final(self).trail@),
            final(self).root == old(self).root,
            final(self).shape@ == old(self).shape@,
            final(self).parts() == old(self).parts(),
            final(self).pool.next_page_id == old(self).pool.next_page_id,
            final(self).pool.wal == old(self).pool.wal,
            old(self).pool.able_but(Some(top_guard.page_id)) ==> final(self).pool.able(),
            crate::page::meta::root_of(final(self).pool.page(0)) == crate::page::meta::root_of(
                meta_guard@,
            ),
            int_wf(final(self).pool.page(top_guard.page_id)),
            int_view(final(self).pool.page(top_guard.page_id)) == int_view(top_guard@),
            forall|id: u64|
                id != 0 && id != top_guard.page_id ==> #[trigger] final(self).pool.page(id) == old(self).pool.page(id),
    {
        let ghost a = *self;
        let ghost sh = self.shape@;
        let ghost top = top_guard.page_id;
        let ghost top_page = top_guard@;
        let ghost meta_page = meta_guard@;
        let ghost tg = top_guard;
        let ghost mg = meta_guard;
        self.pool.release_mut(top_guard);
        self.trail = Ghost(closing(a.trail@, top));
        let ghost b = *self;
        proof {
            lemma_released(a.pool, b.pool, tg, a.trail@);
            lemma_same_view(top_page);
            lemma_same_meta(meta_page);
            lemma_same_view(meta_page);
            lemma_outside::<K, V>(a.pool, b.pool, a.root, sh, top);
            lemma_unhold(a.pool, b.pool, Set::empty().insert(top).insert(0), 2, top);
            assert(Set::<u64>::empty().insert(top).insert(0).remove(top) =~= Set::empty().insert(
                0u64,
            ));
        }
        self.pool.release_mut(meta_guard);
        self.trail = Ghost(closing(b.trail@, 0));
        proof {
            assert(b.pool.page(0) == a.pool.page(0));
            lemma_released(b.pool, self.pool, mg, b.trail@);
            lemma_fresh::<K, V>(b.pool, b.root, sh, 0);
            lemma_outside::<K, V>(b.pool, self.pool, a.root, sh, 0);
            lemma_unhold(b.pool, self.pool, Set::empty().insert(0), 1, 0);
            assert(Set::<u64>::empty().insert(0u64).remove(0) =~= Set::empty());
            assert(self.pool.page(top) == b.pool.page(top));
            assert forall|id: u64| id != 0 && id != top implies #[trigger] self.pool.page(id)
                == a.pool.page(id) by {
                assert(b.pool.page(id) == a.pool.page(id));
            }
        }
    }

    /// Puts a root over the old one and its right neighbour, and writes it to the
    /// metadata page.
    #[verifier::rlimit(60)]
    fn new_root(&mut self, sep: Vec<u8>, rid: PageId, left: PageId) -> (r: Result<(), IndexError>)
        requires
            old(self).wf(),
            left == old(self).root,
            linked(old(self).shape@, old(self).shape@.levels.len() - 1, rid, Some(sep@)),
            adjoins(old(self).shape@, old(self).shape@.levels.len() - 1, left, rid),
            good_key::<K>(sep@),
            0 < sep@.len(),
        ensures
            final(self).wf(),
            final(self).parts() == old(self).parts(),
            within(old(self).pool, final(self).pool, 1),
            floats(*old(self), *final(self), old(self).parts()),
            spared(*old(self), *final(self), broke(r)),
            match r {
                Ok(()) => {
                    &&& final(self).shape@ == raised(old(self).shape@, final(self).root)
                    &&& fresh(old(self).shape@, final(self).root)
                    &&& final(self).rooted()
                    &&& !split_incomplete(final(self).pool.page(left))
                    &&& !split_incomplete(final(self).pool.page(final(self).root))
                    &&& int_view(final(self).pool.page(final(self).root)).keys == seq![sep@]
                    &&& int_view(final(self).pool.page(final(self).root)).children == seq![
                        left,
                        rid,
                    ]
                    &&& old(self).shape@.levels.len() > 1 ==> int_view(
                        final(self).pool.page(left),
                    ).children == int_view(old(self).pool.page(left)).children
                    &&& forall|id: u64|
                        0 < id < old(self).pool.next_page_id && id != left ==> #[trigger] final(self).pool.page(id) == old(self).pool.page(id)
                },
                Err(e) => {
                    &&& final(self).shape@ == old(self).shape@
                    &&& final(self).root == old(self).root
                    &&& structure_error(e, *final(self))
                },
            },
    {
        let ghost a = *self;
        let ghost sh = self.shape@;
        let ghost h = sh.levels.len() - 1;
        assert(sh.levels[h].len() > 0);
        assert(node_wf::<K, V>(a.pool, sh, h, 0));
        assert(sh.levels[h].contains(left)) by {
            assert(sh.levels[h][0] == left);
        }
        let made = self.pool.new_page();
        self.trail = Ghost(carried(a, self.pool.wal@));
        proof {
            lemma_carried(a, *self);
        }
        let mut top_guard = match made {
            Ok(g) => g,
            Err(e) => {
                proof {
                    lemma_pool_kept(a, *self);
                    assert(held(a.pool, Set::empty(), 0));
                }
                return Err(IndexError::BufferPool(e));
            },
        };
        let top: PageId = top_guard.page_id;
        let ghost s1 = *self;
        proof {
            lemma_fresh::<K, V>(a.pool, a.root, sh, top);
            lemma_pool_kept(a, s1);
            lemma_hold(a.pool, s1.pool, Set::empty(), 0, top);
        }
        let mut keys: Vec<Vec<u8>> = Vec::new();
        keys.push(sep);
        let mut children: Vec<PageId> = Vec::new();
        children.push(left);
        children.push(rid);
        proof {
            let kv = key_views(keys@);
            assert(kv.subrange(0, 1) =~= seq![sep@]);
            assert(key_total(seq![sep@], 1) == sep@.len()) by {
                reveal_with_fuel(key_total, 2);
            }
            assert(children@.subrange(0, 2) =~= seq![left, rid]);
        }
        build_internal::<K>(top_guard.memory_mut(), top, None, None, &keys, &children, 0, 1);
        proof {
            lemma_unmarked();
        }
        let fetched = self.pool.fetch_page_mut(0);
        self.trail = Ghost(carried(s1, self.pool.wal@));
        proof {
            lemma_carried(s1, *self);
        }
        let mut meta_guard = match fetched {
            Ok(g) => g,
            Err(e) => {
                let ghost s2 = *self;
                let ghost top_page = top_guard@;
                self.pool.release_mut(top_guard);
                self.trail = Ghost(parting(s2.trail@));
                proof {
                    lemma_pool_kept(s1, s2);
                    lemma_outside::<K, V>(s2.pool, self.pool, a.root, sh, top);
                    assert(held(s2.pool, Set::empty().insert(top), 1));
                    lemma_unhold(s2.pool, self.pool, Set::empty().insert(top), 1, top);
                    assert(Set::<u64>::empty().insert(top).remove(top) =~= Set::empty());
                    assert(self.pool.page(0) == s2.pool.page(0));
                }
                return Err(IndexError::BufferPool(e));
            },
        };
        let ghost s3 = *self;
        proof {
            lemma_pool_kept(s1, s3);
            lemma_hold(s1.pool, s3.pool, Set::empty().insert(top), 1, 0);
            lemma_same_meta(meta_guard@);
            crate::page::meta::law_root(meta_guard@, top, 0);
        }
        let ghost meta_page = meta_guard@;
        let ghost top_page = top_guard@;
        crate::page::meta::set_root(meta_guard.memory_mut(), top);
        let ghost w = self.pool.wal@;
        let ghost blocks = seq![
            image_block(top, top_guard@),
            data_block(0, crate::bytes::u64_bytes(top)),
            bare_block(left),
        ];
        let logged = self.pool.wal.log_new_root(SYSTEM_TXN_ID, (top, top_guard.memory()), left);
        proof {
            lemma_small_record(blocks, None);
            lemma_refused(w, WalRecordType::NewRoot, SYSTEM_TXN_ID, blocks, None);
            lemma_upheld_logged(s3.pool, self.pool);
        }
        let lsn: Lsn = match logged {
            Ok(lsn) => lsn,
            Err(e) => {
                self.trail = Ghost(parting(s3.trail@));
                proof {
                    lemma_only_logged(s3, *self);
                    assert(held(self.pool, Set::empty().insert(top).insert(0), 2));
                }
                self.close_root(top_guard, meta_guard);
                return Err(IndexError::Wal(e));
            },
        };
        InternalPageMutator::<K>::new(top_guard.memory_mut()).set_lsn(lsn);
        crate::page::meta::set_lsn(meta_guard.memory_mut(), lsn);
        let ghost st = state_of(s3.pool.page(left));
        let ghost now = stamped(st, Some(lsn));
        self.trail = Ghost(
            root_trail(s3.trail@, (top, state_of(top_guard@)), state_of(meta_guard@), (left, now)),
        );
        let ghost s4 = *self;
        proof {
            assert(s3.pool.page(left) == s1.pool.page(left));
            assert(s1.pool.page(left) == a.pool.page(left));
            lemma_root_logged(
                s3.pool,
                s4.pool,
                s3.trail@,
                top,
                (top_page, top_guard@),
                (meta_page, meta_guard@),
                left,
            );
            lemma_only_logged(s3, s4);
            assert(held(s4.pool, Set::empty().insert(top).insert(0), 2));
        }
        self.close_root(top_guard, meta_guard);
        let ghost s5 = *self;
        proof {
            assert(s5.pool.page(left) == s4.pool.page(left));
            assert(s4.pool.page(left) == s3.pool.page(left));
            assert(sh.levels[h][0] != top);
            assert(crate::index::tree::root_split::<K>(s5.pool, s5.pool, sh, top, sep@, rid));
            crate::index::tree::lemma_root_split::<K, V>(
                s5.pool,
                s5.pool,
                left,
                sh,
                top,
                sep@,
                rid,
            );
        }
        self.root = top;
        self.shape = Ghost(raised(sh, top));
        proof {
            assert(self.shape@.levels[h + 1] == seq![top]);
            assert(int_view(self.pool.page(top)).children[1] == rid);
            assert(names_child(self.pool.page(self.shape@.levels[h + 1][0]), rid));
            assert(self.shape@.levels[h] == sh.levels[h]);
            lemma_downlinked(self.pool, sh, self.shape@, h, left, rid);
        }
        match self.clear_flag(left, Ghost(h), Some(lsn)) {
            Ok(()) => {},
            Err(e) => {
                proof {
                    lemma_tree_kept::<K, V>(s5.pool, self.pool, left, sh);
                }
                self.root = left;
                self.shape = Ghost(sh);
                return Err(e);
            },
        }
        proof {
            assert forall|id: u64|
                0 < id < a.pool.next_page_id && id != left implies #[trigger] self.pool.page(id)
                == a.pool.page(id) by {
                assert(s5.pool.page(id) == s4.pool.page(id));
                assert(s4.pool.page(id) == s3.pool.page(id));
                assert(s3.pool.page(id) == s1.pool.page(id));
                assert(s1.pool.page(id) == a.pool.page(id));
            }
        }
        Ok(())
    }

    /// Puts a separator and its child into the internal page that is held, which has room
    /// for them, logs that, and releases the page.
    fn add_child(
        &mut self,
        guard: PageWriteGuard,
        l: Ghost<int>,
        i: Ghost<int>,
        at: usize,
        sep: &[u8],
        rid: PageId,
        left: PageId,
    ) -> (r: Result<Lsn, IndexError>)
        requires
            parent_held(*old(self), guard, l@, i@),
            child_index::<K>(int_view(guard@).keys, sep@, at as int),
            good_key::<K>(sep@),
            0 < sep@.len(),
            at_least::<K>(sep@, old(self).shape@.low[guard.page_id]),
            at_most::<K>(sep@, int_view(guard@).high),
            linked(old(self).shape@, l@ - 1, rid, Some(sep@)),
            PAGE_SIZE - int_used(int_view(guard@).keys) - crate::page::internal::int_hkl(guard@)
                >= 12 + sep@.len(),
            old(self).shape@.levels[l@ - 1].contains(left),
        ensures
            final(self).tree(),
            held(final(self).pool, Set::empty(), 0),
            within(old(self).pool, final(self).pool, 1),
            spared(*old(self), *final(self), r is Err),
            floor_kept(*old(self), *final(self)),
            only_open(final(self).trail@, left),
            match r {
                Ok(lsn) => awaits(final(self).pool, final(self).trail@, left, Some(lsn)),
                Err(_) => final(self).trail@.parted,
            },
            final(self).root == old(self).root,
            final(self).shape@ == old(self).shape@,
            final(self).parts() == old(self).parts(),
            final(self).rooted() == old(self).rooted(),
            forall|id: u64|
                id != guard.page_id ==> #[trigger] final(self).pool.page(id) == old(self).pool.page(id),
            int_view(final(self).pool.page(guard.page_id)).keys == int_view(guard@).keys.insert(
                at as int,
                sep@,
            ),
            int_view(final(self).pool.page(guard.page_id)).children == int_view(
                guard@,
            ).children.insert(at + 1, rid),
            split_incomplete(final(self).pool.page(guard.page_id)) == split_incomplete(
                old(self).pool.page(guard.page_id),
            ),
            r matches Err(e) ==> e is Wal && log_stuck(final(self).pool.wal@),
    {
        let ghost a = *self;
        let ghost sh = self.shape@;
        let mut guard = guard;
        let pid: PageId = guard.page_id;
        let ghost node = int_view(guard@);
        assert(node_wf::<K, V>(a.pool, sh, l@, i@));
        let inserted = InternalPageMutator::<K>::new(guard.memory_mut()).insert_bytes(at, sep, rid);
        assert(inserted is Ok);
        let ghost w = self.pool.wal@;
        let ghost blocks = seq![
            data_block(pid, downlink_payload(at as u16, sep@, rid)),
            bare_block(left),
        ];
        let logged = self.pool.wal.log_insert_downlink(
            SYSTEM_TXN_ID,
            pid,
            at as u16,
            sep,
            rid,
            left,
        );
        proof {
            lemma_small_record(blocks, None);
            lemma_refused(w, WalRecordType::InsertDownLink, SYSTEM_TXN_ID, blocks, None);
            lemma_upheld_logged(a.pool, self.pool);
            lemma_levels_apart::<K, V>(a.pool, a.root, sh, l@ - 1, left, l@, pid);
        }
        let ghost st = state_of(a.pool.page(left));
        let out: Result<Lsn, IndexError> = match logged {
            Ok(lsn) => {
                InternalPageMutator::<K>::new(guard.memory_mut()).set_lsn(lsn);
                self.trail = Ghost(
                    Trail {
                        open: a.trail@.open.insert(pid, state_of(guard@)).insert(
                            left,
                            stamped(st, Some(lsn)),
                        ),
                        ..a.trail@
                    },
                );
                proof {
                    assert(node_wf::<K, V>(a.pool, sh, l@, i@));
                    lemma_child_logged::<K, V>(
                        a,
                        self.pool,
                        l@ - 1,
                        pid,
                        node,
                        (at as int, sep@, rid),
                        left,
                        state_of(guard@),
                    );
                }
                Ok(lsn)
            },
            Err(e) => {
                self.trail = Ghost(parting(a.trail@));
                Err(IndexError::Wal(e))
            },
        };
        let ghost b = *self;
        proof {
            lemma_only_logged(a, b);
            assert(held(b.pool, Set::empty().insert(pid), 1));
        }
        let ghost page = guard@;
        let ghost g = guard;
        self.pool.release_mut(guard);
        self.trail = Ghost(closing(b.trail@, pid));
        proof {
            lemma_released(b.pool, self.pool, g, b.trail@);
            assert(self.pool.page(left) == b.pool.page(left));
            assert(b.pool.page(left) == a.pool.page(left));
            lemma_same_view(page);
            assert(b.pool.page(pid) == a.pool.page(pid));
            assert(child_added::<K>(b.pool, self.pool, sh, l@, i@, at as int, sep@, rid));
            lemma_child_added::<K, V>(
                b.pool,
                self.pool,
                a.root,
                sh,
                l@,
                i@,
                at as int,
                sep@,
                rid,
            );
            lemma_unhold(b.pool, self.pool, Set::empty().insert(pid), 1, pid);
            assert(Set::<u64>::empty().insert(pid).remove(pid) =~= Set::empty());
            assert(self.pool.page(0) == b.pool.page(0));
            assert forall|id: u64| id != pid implies #[trigger] self.pool.page(id) == a.pool.page(
                id,
            ) by {
                assert(b.pool.page(id) == a.pool.page(id));
            }
        }
        out
    }
}

/// The record of a downlink gives the parent that has it, and takes the mark off the child
/// that was split.
proof fn lemma_child_logged<K: Key, V: Value>(
    a: BTreeIndex<K, V>,
    b: BufferPoolManager,
    l: int,
    pid: PageId,
    node: InternalView,
    added: (int, Seq<u8>, PageId),
    left: PageId,
    now: PageState,
)
    requires
        a.tree(),
        settled(a.trail@),
        b.shards == a.pool.shards,
        b.disk == a.pool.disk,
        0 <= added.0 <= node.keys.len() < 65536,
        (Ok::<u64, WalError>(a.pool.wal@.next), b.wal@) == appended(
            a.pool.wal@,
            WalRecordType::InsertDownLink,
            SYSTEM_TXN_ID,
            seq![
                data_block(pid, downlink_payload(added.0 as u16, added.1, added.2)),
                bare_block(left),
            ],
            None,
        ),
        pid != left,
        state_of(a.pool.page(pid)) == PageState::Internal(node),
        added.1.len() <= MAX_KEY_SIZE,
        12 + added.1.len() <= int_room(node),
        0 <= l < a.shape@.levels.len(),
        a.shape@.levels[l].contains(left),
        now == PageState::Internal(
            InternalView {
                lsn: a.pool.wal@.next,
                keys: node.keys.insert(added.0, added.1),
                children: node.children.insert(added.0 + 1, added.2),
                ..node
            },
        ),
    ensures
        sound(
            b,
            (Trail {
                open: a.trail@.open.insert(pid, now).insert(
                    left,
                    stamped(state_of(a.pool.page(left)), Some(a.pool.wal@.next)),
                ),
                ..a.trail@
            }),
        ),
        passed(
            a.pool,
            a.trail@,
            b,
            (Trail {
                open: a.trail@.open.insert(pid, now).insert(
                    left,
                    stamped(state_of(a.pool.page(left)), Some(a.pool.wal@.next)),
                ),
                ..a.trail@
            }),
        ),
        noted(a.pool, b, a.trail@, SYSTEM_TXN_ID),
{
    let kind = WalRecordType::InsertDownLink;
    let lsn = a.pool.wal@.next;
    let chain = a.shape@.levels[l];
    let q = choose|q: int| 0 <= q < chain.len() && chain[q] == left;
    assert(node_wf::<K, V>(a.pool, a.shape@, l, q));
    let payload = downlink_payload(added.0 as u16, added.1, added.2);
    let st = state_of(a.pool.page(left));
    law_blocks_are_readable(pid, payload, a.pool.page(0));
    if node.lsn < lsn {
        law_logged_downlink_is_redone(node, pid, added.0 as u16, added.1, added.2, lsn);
    }
    if st.lsn() < lsn {
        lemma_bare_redone(kind, left, lsn, st);
    }
    lemma_logged_two(
        a.pool,
        b,
        kind,
        SYSTEM_TXN_ID,
        (data_block(pid, payload), bare_block(left)),
        a.trail@,
        (PageState::Internal(node), st),
        (now, stamped(st, Some(lsn))),
    );
}

/// What a step up the tree came to.
pub(crate) enum Climb {
    /// No page above needs a downlink any more, or the step failed.
    Done(Result<(), IndexError>),
    /// The page `left` was split, and `rid` holds its upper half, from `sep` on.
    Up { sep: Vec<u8>, rid: PageId, left: PageId },
}

impl<K: Key, V: Value> BTreeIndex<K, V> {
    /// Where no page of the way down is left: a root above the old one gets both downlinks. Where
    /// the page is not the root, only the mark is taken off.
    fn climb_last(
        &mut self,
        sep: Vec<u8>,
        rid: PageId,
        left: PageId,
        l: Ghost<int>,
        level: Ghost<int>,
        left_child: Ghost<PageId>,
        right_pid: Ghost<PageId>,
    ) -> (r: Result<(), IndexError>)
        requires
            old(self).wf(),
            0 <= level@ <= l@ < old(self).shape@.levels.len(),
            old(self).shape@.levels[l@].contains(left),
            linked(old(self).shape@, l@, rid, Some(sep@)),
            good_key::<K>(sep@),
            0 < sep@.len(),
            adjoins(old(self).shape@, l@, left, rid),
            old(self).shape@.levels[level@].contains(left_child@),
            l@ == level@ ==> left == left_child@ && rid == right_pid@,
            l@ > level@ ==> !split_incomplete(old(self).pool.page(left_child@)) && has_parent(
                old(self).pool,
                old(self).shape@,
                level@,
                right_pid@,
            ),
            stack_ok::<K>(old(self).shape@, Seq::empty(), l@, old(self).shape@.low[left]),
        ensures
            final(self).wf(),
            topped(old(self).shape@, Seq::empty(), l@, left, rid) ==> {
                &&& final(self).shape@.firm == old(self).shape@.firm
                &&& r is Ok ==> final(self).shape@.levels.last().len() == 1
                &&& r is Ok && marked_only(old(self).pool, old(self).shape@, Some(left))
                    ==> marked_only(final(self).pool, final(self).shape@, None)
            },
            final(self).parts() == old(self).parts(),
            floats(*old(self), *final(self), old(self).parts()),
            extends(old(self).shape@, final(self).shape@),
            forall|m: int|
                0 <= m <= l@ ==> #[trigger] final(self).shape@.levels[m] == old(self).shape@.levels[m],
            r is Ok && old(self).rooted() ==> final(self).rooted(),
            r matches Err(e) ==> structure_error(e, *final(self)),
            r is Ok ==> !split_incomplete(final(self).pool.page(left_child@)),
            r is Ok && (l@ > level@ || old(self).root == left) ==> has_parent(
                final(self).pool,
                final(self).shape@,
                level@,
                right_pid@,
            ),
            spared(*old(self), *final(self), broke(r)),
            within(old(self).pool, final(self).pool, 1),
    {
        let ghost l: int = l@;
        let ghost level: int = level@;
        let ghost left_child: PageId = left_child@;
        let ghost right_pid: PageId = right_pid@;
        let ghost tidy = topped(self.shape@, Seq::empty(), l, left, rid) && marked_only(
            self.pool,
            self.shape@,
            Some(left),
        );
        proof {
            if l > level {
                lemma_levels_apart::<K, V>(
                    self.pool,
                    self.root,
                    self.shape@,
                    level,
                    left_child,
                    l,
                    left,
                );
            }
        }
        if self.root != left {
            proof {
                lemma_loose::<K, V>(self.pool, self.root, self.shape@);
            }
            self.shape = Ghost(loose(self.shape@));
            let ghost before = *self;
            proof {
                lemma_free_of_parents(self.pool, self.shape@, l, left);
            }
            let done = self.clear_flag(left, Ghost(l), None);
            proof {
                if l > level {
                    lemma_flag_reached(before, *self, level, right_pid, l, left);
                }
            }
            return done;
        }
        proof {
            lemma_root_level::<K, V>(self.pool, self.root, self.shape@, l);
        }
        let ghost before = *self;
        let done = self.new_root(sep, rid, left);
        proof {
            if done is Ok {
                if tidy {
                    lemma_root_marks(before, *self, left);
                }
                if l > level {
                    lemma_root_reached(before, *self, level, right_pid, left);
                } else {
                    assert(self.shape@.levels[l + 1] == seq![self.root]);
                    assert(int_view(self.pool.page(self.root)).children[1] == rid);
                    assert(names_child(
                        self.pool.page(self.shape@.levels[l + 1][0]),
                        right_pid,
                    ));
                }
                lemma_raised_extends(before.shape@, self.root);
            }
        }
        done
    }

    /// Puts the downlink to `rid` into the parent of `left`, or into the two halves of it. In
    /// that case the parent's own parent is next.
    #[verifier::rlimit(100)]
    fn climb(
        &mut self,
        entry: PageId,
        path: Ghost<Seq<PageId>>,
        sep: Vec<u8>,
        rid: PageId,
        left: PageId,
        l: Ghost<int>,
        level: Ghost<int>,
        left_child: Ghost<PageId>,
        right_pid: Ghost<PageId>,
    ) -> (r: Climb)
        requires
            old(self).wf(),
            0 <= level@ <= l@ < old(self).shape@.levels.len(),
            old(self).shape@.levels[l@].contains(left),
            linked(old(self).shape@, l@, rid, Some(sep@)),
            good_key::<K>(sep@),
            0 < sep@.len(),
            adjoins(old(self).shape@, l@, left, rid),
            old(self).shape@.levels[level@].contains(left_child@),
            l@ == level@ ==> left == left_child@ && rid == right_pid@,
            l@ > level@ ==> !split_incomplete(old(self).pool.page(left_child@)) && has_parent(
                old(self).pool,
                old(self).shape@,
                level@,
                right_pid@,
            ),
            path@.len() > 0,
            entry == path@.last(),
            stack_ok::<K>(old(self).shape@, path@, l@, old(self).shape@.low[left]),
            low_le::<K>(old(self).shape@.low[left], Some(sep@)),
        ensures
            final(self).wf(),
            final(self).parts() == old(self).parts(),
            floats(*old(self), *final(self), old(self).parts()),
            extends(old(self).shape@, final(self).shape@),
            forall|m: int|
                0 <= m <= l@ ==> #[trigger] final(self).shape@.levels[m] == old(self).shape@.levels[m],
            old(self).rooted() ==> final(self).rooted(),
            within(old(self).pool, final(self).pool, 1),
            topped(old(self).shape@, path@, l@, left, rid) ==> final(self).shape@.firm
                == old(self).shape@.firm,
            match r {
                Climb::Done(done) => {
                    &&& spared(*old(self), *final(self), broke(done))
                    &&& done matches Err(e) ==> structure_error(e, *final(self))
                    &&& done is Ok ==> {
                        &&& !split_incomplete(final(self).pool.page(left_child@))
                        &&& has_parent(final(self).pool, final(self).shape@, level@, right_pid@)
                        &&& topped(old(self).shape@, path@, l@, left, rid) ==> {
                            &&& final(self).shape@.levels.last().len() == 1
                            &&& marked_only(old(self).pool, old(self).shape@, Some(left))
                                ==> marked_only(final(self).pool, final(self).shape@, None)
                        }
                    }
                },
                Climb::Up { sep: sep2, rid: rid2, left: left2 } => {
                    &&& spared(*old(self), *final(self), false)
                    &&& !split_incomplete(final(self).pool.page(left_child@))
                    &&& has_parent(final(self).pool, final(self).shape@, level@, right_pid@)
                    &&& l@ + 1 < final(self).shape@.levels.len()
                    &&& final(self).shape@.levels[l@ + 1].contains(left2)
                    &&& linked(final(self).shape@, l@ + 1, rid2, Some(sep2@))
                    &&& good_key::<K>(sep2@)
                    &&& 0 < sep2@.len()
                    &&& stack_ok::<K>(
                        final(self).shape@,
                        path@.drop_last(),
                        l@ + 1,
                        final(self).shape@.low[left2],
                    )
                    &&& low_le::<K>(final(self).shape@.low[left2], Some(sep2@))
                    &&& adjoins(final(self).shape@, l@ + 1, left2, rid2)
                    &&& topped(old(self).shape@, path@, l@, left, rid) ==> {
                        &&& topped(final(self).shape@, path@.drop_last(), l@ + 1, left2, rid2)
                        &&& marked_only(old(self).pool, old(self).shape@, Some(left))
                            ==> marked_only(final(self).pool, final(self).shape@, Some(left2))
                    }
                },
            },
    {
        let ghost l: int = l@;
        let ghost level: int = level@;
        let ghost left_child: PageId = left_child@;
        let ghost right_pid: PageId = right_pid@;
        let ghost sh = self.shape@;
        let ghost rest = path@.drop_last();
        let ghost tidy = topped(sh, path@, l, left, rid) && marked_only(self.pool, sh, Some(left));
        proof {
            if l > level {
                lemma_levels_apart::<K, V>(self.pool, self.root, sh, level, left_child, l, left);
            }
            lemma_sep_above::<K, V>(self.pool, self.root, sh, l, entry, left, sep@);
        }
        let ghost before = *self;
        let (guard, at) = match self.settle_parent(entry, sep.as_slice(), Ghost(l + 1)) {
            Ok(p) => p,
            Err(e) => {
                return Climb::Done(Err(e));
            },
        };
        let mut guard = guard;
        let parent: PageId = guard.page_id;
        proof {
            assert(sh.levels[l + 1].contains(parent)) by {
                assert(sh.levels[l + 1][at@] == parent);
            }
            lemma_levels_apart::<K, V>(
                self.pool,
                self.root,
                sh,
                level,
                left_child,
                l + 1,
                parent,
            );
            assert(self.pool.page(left_child) == before.pool.page(left_child));
            assert(node_wf::<K, V>(self.pool, sh, l + 1, at@));
            if int_view(guard@).high is Some {
                K::le_total(sep@, int_view(guard@).high->0);
            }
        }
        let acc = InternalPageAccessor::<K>::new(guard.memory());
        if has_child(&acc, rid) {
            let ghost held_state = *self;
            self.pool.release_mut(guard);
            proof {
                lemma_released_parent(held_state, *self, parent);
                assert(self.pool.page(parent) == held_state.pool.page(parent));
                assert(names_child(self.pool.page(self.shape@.levels[l + 1][at@]), rid));
                if l > level {
                    lemma_same_reached(before, *self, level, right_pid);
                }
            }
            let ghost released = *self;
            proof {
                lemma_downlinked(self.pool, self.shape@, self.shape@, l, left, rid);
            }
            let done = self.clear_flag(left, Ghost(l), None);
            proof {
                if tidy && done is Ok {
                    lemma_cleared_marks(before, released, released, *self, left);
                }
                lemma_flag_reached(released, *self, level, right_pid, l, left);
            }
            return Climb::Done(done);
        }
        let (idx, _child) = acc.find_child_bytes(sep.as_slice());
        if acc.can_fit(sep.len()) {
            let ghost whole = *self;
            let ghost node = int_view(guard@);
            match self.add_child(guard, Ghost(l + 1), at, idx, sep.as_slice(), rid, left) {
                Ok(lsn) => {
                    let ghost added = *self;
                    proof {
                        let now = node.children.insert(idx + 1, rid);
                        assert(now[idx + 1] == rid);
                        assert(names_child(self.pool.page(self.shape@.levels[l + 1][at@]), rid));
                        if l > level {
                            lemma_same_reached(before, whole, level, right_pid);
                            lemma_grown_reached(
                                whole,
                                added,
                                level,
                                right_pid,
                                l + 1,
                                parent,
                            );
                        }
                    }
                    proof {
                        lemma_downlinked(self.pool, self.shape@, self.shape@, l, left, rid);
                    }
                    let done = self.clear_flag(left, Ghost(l), Some(lsn));
                    proof {
                        if tidy && done is Ok {
                            lemma_cleared_marks(before, whole, added, *self, left);
                        }
                        lemma_flag_reached(added, *self, level, right_pid, l, left);
                    }
                    return Climb::Done(done);
                },
                Err(e) => {
                    return Climb::Done(Err(e));
                },
            }
        }
        let ghost settled = *self;
        let ghost node = int_view(guard@);
        match self.split_internal_ly(&mut guard, Ghost(l + 1), at, sep.as_slice(), rid) {
            ParentSplit::Failed(e) => {
                let ghost held_state = *self;
                self.pool.release_mut(guard);
                proof {
                    lemma_released_parent(held_state, *self, parent);
                    lemma_error_kept(e, held_state, *self);
                }
                return Climb::Done(Err(e));
            },
            ParentSplit::Done { sep: sep2, rid: rid2, logged } => {
                let ghost halved = *self;
                let ghost halved_page = guard@;
                self.close_parent(guard, Ghost(l + 1), at, rid2, Ghost(sep2@));
                let ghost closed = *self;
                proof {
                    assert(halved.pool.page(left_child) == settled.pool.page(left_child));
                    assert(closed.pool.page(left_child) == halved.pool.page(left_child));
                    lemma_grown_extends(sh, l + 1, at@, rid2, sep2@);
                    assert(sh.levels[l].contains(left));
                    assert(self.shape@.levels[l] == sh.levels[l]);
                    lemma_same_view(halved_page);
                    lemma_halves_reach::<K>(
                        closed.pool,
                        closed.shape@,
                        l,
                        at@,
                        node,
                        sep@,
                        rid,
                        parent,
                        rid2,
                        sep2@,
                        halved_page,
                    );
                    lemma_downlinked(closed.pool, sh, closed.shape@, l, left, rid);
                    if l > level {
                        lemma_same_reached(before, settled, level, right_pid);
                        lemma_above_reached(settled, closed, level, right_pid, l + 1, parent);
                    }
                }
                match logged {
                    Ok(()) => {},
                    Err(e) => {
                        return Climb::Done(Err(IndexError::Wal(e)));
                    },
                }
                match self.clear_flag(left, Ghost(l), None) {
                    Ok(()) => {},
                    Err(e) => {
                        return Climb::Done(Err(e));
                    },
                }
                proof {
                    if tidy {
                        lemma_parent_marks(
                            before,
                            settled,
                            closed,
                            *self,
                            l,
                            at@,
                            rid2,
                            sep2@,
                            left,
                        );
                    }
                    lemma_flag_reached(closed, *self, level, right_pid, l, left);
                    lemma_next_up::<K, V>(
                        self.pool,
                        self.root,
                        sh,
                        self.shape@,
                        l,
                        entry,
                        parent,
                        rest,
                    );
                    assert(sh.levels[l + 1].contains(parent)) by {
                        assert(sh.levels[l + 1][at@] == parent);
                    }
                    assert(self.shape@.levels[l + 1][at@] == parent);
                    assert(self.shape@.levels[l + 1][at@ + 1] == rid2);
                    lemma_adjoins::<K, V>(self.pool, self.root, self.shape@, l + 1, at@);
                    if topped(old(self).shape@, path@, l, left, rid) {
                        assert(l + 2 == self.shape@.levels.len() ==> self.shape@.levels.last()
                            =~= seq![parent, rid2]);
                    }
                }
                Climb::Up { sep: sep2, rid: rid2, left: parent }
            },
        }
    }

    /// Puts the downlink to `rid` into the parent of `left`, the page that was split, and
    /// marks the split as complete. `stack` holds the pages passed on the way down. Where
    /// the parent has the downlink already, only the mark is taken off. Where the parent
    /// is full, it is split too, and its own parent gets a downlink.
    #[verifier::rlimit(40)]
    pub(crate) fn insert_separator_via_stack(
        &mut self,
        stack: Vec<PageId>,
        sep_key: Vec<u8>,
        right_pid: PageId,
        left_child: PageId,
        level: Ghost<int>,
    ) -> (r: Result<(), IndexError>)
        requires
            old(self).wf(),
            0 <= level@ < old(self).shape@.levels.len(),
            old(self).shape@.levels[level@].contains(left_child),
            linked(old(self).shape@, level@, right_pid, Some(sep_key@)),
            good_key::<K>(sep_key@),
            0 < sep_key@.len(),
            stack_ok::<K>(
                old(self).shape@,
                stack@,
                level@,
                old(self).shape@.low[left_child],
            ),
            low_le::<K>(old(self).shape@.low[left_child], Some(sep_key@)),
            adjoins(old(self).shape@, level@, left_child, right_pid),
        ensures
            final(self).wf(),
            topped(old(self).shape@, stack@, level@, left_child, right_pid) ==> {
                &&& final(self).shape@.firm == old(self).shape@.firm
                &&& r is Ok ==> final(self).shape@.levels.last().len() == 1
                &&& r is Ok && marked_only(old(self).pool, old(self).shape@, Some(left_child))
                    ==> marked_only(final(self).pool, final(self).shape@, None)
            },
            final(self).parts() == old(self).parts(),
            floats(*old(self), *final(self), old(self).parts()),
            extends(old(self).shape@, final(self).shape@),
            forall|m: int|
                0 <= m <= level@ ==> #[trigger] final(self).shape@.levels[m] == old(self).shape@.levels[m],
            r is Ok && old(self).rooted() ==> final(self).rooted(),
            r matches Err(e) ==> structure_error(e, *final(self)),
            r is Ok ==> !split_incomplete(final(self).pool.page(left_child)),
            r is Ok && !(stack@.len() == 0 && old(self).root != left_child) ==> has_parent(
                final(self).pool,
                final(self).shape@,
                level@,
                right_pid,
            ),
            spared(*old(self), *final(self), broke(r)),
            within(old(self).pool, final(self).pool, (stack@.len() + 1) as int),
    {
        let mut path = stack;
        let mut sep: Vec<u8> = sep_key;
        let mut rid: PageId = right_pid;
        let mut left: PageId = left_child;
        let ghost mut l: int = level@;
        let ghost a = *self;
        let ghost top = topped(a.shape@, stack@, level@, left_child, right_pid);
        let ghost tidy = top && marked_only(a.pool, a.shape@, Some(left));
        loop
            invariant
                a == *old(self),
                top == topped(a.shape@, stack@, level@, left_child, right_pid),
                tidy == (top && marked_only(a.pool, a.shape@, Some(left_child))),
                tidy ==> marked_only(self.pool, self.shape@, Some(left)),
                self.wf(),
                self.parts() == a.parts(),
                floats(a, *self, a.parts()),
                extends(a.shape@, self.shape@),
                0 <= level@ <= l < self.shape@.levels.len(),
                level@ < a.shape@.levels.len(),
                forall|m: int|
                    0 <= m <= level@ ==> #[trigger] self.shape@.levels[m] == a.shape@.levels[m],
                a.rooted() ==> self.rooted(),
                spared(a, *self, false),
                path@.len() <= stack@.len(),
                within(a.pool, self.pool, stack@.len() - path@.len()),
                self.shape@.levels[l].contains(left),
                linked(self.shape@, l, rid, Some(sep@)),
                good_key::<K>(sep@),
                0 < sep@.len(),
                stack_ok::<K>(self.shape@, path@, l, self.shape@.low[left]),
                low_le::<K>(self.shape@.low[left], Some(sep@)),
                adjoins(self.shape@, l, left, rid),
                top ==> topped(self.shape@, path@, l, left, rid) && self.shape@.firm
                    == a.shape@.firm,
                self.shape@.levels[level@].contains(left_child),
                l == level@ ==> left == left_child,
                l > level@ ==> !split_incomplete(self.pool.page(left_child)),
                l == level@ ==> rid == right_pid && path@ == stack@ && self.root == a.root,
                l > level@ ==> has_parent(self.pool, self.shape@, level@, right_pid),
            decreases path@.len(),
        {
            let ghost here = *self;
            if path.len() == 0 {
                assert(path@ =~= Seq::empty());
                let done = self.climb_last(
                    sep,
                    rid,
                    left,
                    Ghost(l),
                    level,
                    Ghost(left_child),
                    Ghost(right_pid),
                );
                proof {
                    lemma_risen(a, here, *self, broke(done));
                }
                return done;
            }
            let entry: PageId = path[path.len() - 1];
            let ghost way = path@;
            path.pop();
            assert(path@ =~= way.drop_last());
            let step = self.climb(
                entry,
                Ghost(way),
                sep,
                rid,
                left,
                Ghost(l),
                level,
                Ghost(left_child),
                Ghost(right_pid),
            );
            match step {
                Climb::Done(done) => {
                    proof {
                        lemma_risen(a, here, *self, broke(done));
                    }
                    return done;
                },
                Climb::Up { sep: sep2, rid: rid2, left: left2 } => {
                    proof {
                        lemma_risen(a, here, *self, false);
                        l = l + 1;
                    }
                    sep = sep2;
                    rid = rid2;
                    left = left2;
                },
            }
        }
    }
}

/// A step up the tree after others.
proof fn lemma_risen<K: Key, V: Value>(
    a: BTreeIndex<K, V>,
    b: BTreeIndex<K, V>,
    c: BTreeIndex<K, V>,
    failed: bool,
)
    requires
        spared(a, b, false),
        spared(b, c, failed),
        b.parts() == a.parts(),
        floats(a, b, a.parts()),
        floats(b, c, b.parts()),
        extends(a.shape@, b.shape@),
        extends(b.shape@, c.shape@),
    ensures
        spared(a, c, failed),
        floats(a, c, a.parts()),
        extends(a.shape@, c.shape@),
{
    lemma_spared_chain(a, b, c, failed);
    lemma_extends_chain(a.shape@, b.shape@, c.shape@);
    if c.pool.wal@.error is None && !c.trail@.parted {
        lemma_told_chain(a, b, c);
    }
}

/// The old root was marked, and is no more.
proof fn lemma_root_marks<K: Key, V: Value>(
    a: BTreeIndex<K, V>,
    b: BTreeIndex<K, V>,
    left: PageId,
)
    requires
        a.tree(),
        marked_only(a.pool, a.shape@, Some(left)),
        b.shape@ == raised(a.shape@, b.root),
        !split_incomplete(b.pool.page(left)),
        !split_incomplete(b.pool.page(b.root)),
        forall|id: u64|
            0 < id < a.pool.next_page_id && id != left ==> #[trigger] b.pool.page(id)
                == a.pool.page(id),
    ensures
        marked_only(b.pool, b.shape@, None),
{
    let sh = a.shape@;
    assert forall|m: int, j: int|
        0 <= m < sh.levels.len() && 0 <= j < sh.levels[m].len() && sh.levels[m][j]
            != left implies b.pool.page(#[trigger] sh.levels[m][j]) == a.pool.page(
        sh.levels[m][j],
    ) by {
        assert(node_wf::<K, V>(a.pool, sh, m, j));
    }
    lemma_mark_raised(a.pool, b.pool, sh, b.root, left);
}

/// The page was marked, and is no more; another page was changed, but for its mark.
proof fn lemma_cleared_marks<K: Key, V: Value>(
    a: BTreeIndex<K, V>,
    b: BTreeIndex<K, V>,
    c: BTreeIndex<K, V>,
    d: BTreeIndex<K, V>,
    left: PageId,
)
    requires
        marked_only(a.pool, a.shape@, Some(left)),
        b.shape@ == a.shape@,
        c.shape@ == a.shape@,
        d.shape@ == a.shape@,
        same_contents(a.pool, b.pool),
        forall|id: u64|
            split_incomplete(#[trigger] c.pool.page(id)) ==> split_incomplete(b.pool.page(id)),
        forall|id: u64| id != left ==> #[trigger] d.pool.page(id) == c.pool.page(id),
        !split_incomplete(d.pool.page(left)),
    ensures
        marked_only(d.pool, d.shape@, None),
{
    lemma_marks_kept(a.pool, b.pool, a.shape@, Some(left));
    lemma_marks_kept(b.pool, c.pool, a.shape@, Some(left));
    lemma_mark_cleared(c.pool, d.pool, a.shape@, left);
}

/// The parent was split and is marked now; the page below it is no more.
proof fn lemma_parent_marks<K: Key, V: Value>(
    start: BTreeIndex<K, V>,
    a: BTreeIndex<K, V>,
    b: BTreeIndex<K, V>,
    c: BTreeIndex<K, V>,
    l: int,
    at: int,
    rid: PageId,
    sep: Seq<u8>,
    left: PageId,
)
    requires
        a.tree(),
        0 <= l,
        l + 1 < a.shape@.levels.len(),
        0 <= at < a.shape@.levels[l + 1].len(),
        a.shape@.levels[l].contains(left),
        fresh(a.shape@, rid),
        marked_only(start.pool, start.shape@, Some(left)),
        a.shape@ == start.shape@,
        same_contents(start.pool, a.pool),
        b.shape@ == grown(a.shape@, l + 1, at, rid, sep),
        c.shape@ == b.shape@,
        split_incomplete(b.pool.page(rid)) == split_incomplete(
            a.pool.page(a.shape@.levels[l + 1][at]),
        ),
        forall|id: u64|
            id != a.shape@.levels[l + 1][at] && id < a.pool.next_page_id ==> #[trigger] b.pool.page(
                id,
            ) == a.pool.page(id),
        forall|id: u64| id != left ==> #[trigger] c.pool.page(id) == b.pool.page(id),
        !split_incomplete(c.pool.page(left)),
    ensures
        marked_only(c.pool, c.shape@, Some(a.shape@.levels[l + 1][at])),
{
    let sh = a.shape@;
    let parent = sh.levels[l + 1][at];
    lemma_marks_kept(start.pool, a.pool, sh, Some(left));
    let q = choose|q: int| 0 <= q < sh.levels[l].len() && sh.levels[l][q] == left;
    assert(sh.levels[l][q] != sh.levels[l + 1][at]);
    assert(!split_incomplete(a.pool.page(parent))) by {
        reveal(marked_only);
    }
    assert(sh.levels[l][q] != rid);
    assert(c.pool.page(rid) == b.pool.page(rid));
    assert forall|m: int, j: int|
        0 <= m < sh.levels.len() && 0 <= j < sh.levels[m].len() && sh.levels[m][j] != parent
            && split_incomplete(
            c.pool.page(#[trigger] sh.levels[m][j]),
        ) implies split_incomplete(a.pool.page(sh.levels[m][j])) by {
        let x = sh.levels[m][j];
        assert(node_wf::<K, V>(a.pool, sh, m, j));
        assert(c.pool.page(x) == b.pool.page(x));
        assert(b.pool.page(x) == a.pool.page(x));
    }
    lemma_mark_split(a.pool, c.pool, sh, l + 1, at, rid, sep, Some(left));
}

/// Pages that are the same lead where they led.
proof fn lemma_same_reached<K: Key, V: Value>(
    a: BTreeIndex<K, V>,
    b: BTreeIndex<K, V>,
    m: int,
    child: PageId,
)
    requires
        has_parent(a.pool, a.shape@, m, child),
        b.shape@ == a.shape@,
        same_contents(a.pool, b.pool),
    ensures
        has_parent(b.pool, b.shape@, m, child),
{
    assert forall|q: int|
        0 <= q < a.shape@.levels[m + 1].len() && names_child(
            #[trigger] a.pool.page(a.shape@.levels[m + 1][q]),
            child,
        ) implies names_child(b.pool.page(a.shape@.levels[m + 1][q]), child) by {
        assert(b.pool.page(a.shape@.levels[m + 1][q]) == a.pool.page(a.shape@.levels[m + 1][q]));
    }
    lemma_parent_kept(a.pool, a.shape@, b.pool, b.shape@, m, child);
}

/// The mark of a page has nothing to do with where pages lead.
proof fn lemma_flag_reached<K: Key, V: Value>(
    a: BTreeIndex<K, V>,
    b: BTreeIndex<K, V>,
    m: int,
    child: PageId,
    l: int,
    pid: PageId,
)
    requires
        a.tree(),
        0 <= m,
        has_parent(a.pool, a.shape@, m, child),
        b.shape@ == a.shape@,
        0 <= l < a.shape@.levels.len(),
        a.shape@.levels[l].contains(pid),
        l > 0 ==> int_view(b.pool.page(pid)).children == int_view(a.pool.page(pid)).children,
        forall|id: u64| id != pid ==> #[trigger] b.pool.page(id) == a.pool.page(id),
    ensures
        has_parent(b.pool, b.shape@, m, child),
{
    let sh = a.shape@;
    assert forall|q: int|
        0 <= q < sh.levels[m + 1].len() && names_child(
            #[trigger] a.pool.page(sh.levels[m + 1][q]),
            child,
        ) implies names_child(b.pool.page(sh.levels[m + 1][q]), child) by {
        let x = sh.levels[m + 1][q];
        if x == pid {
            assert(sh.levels[m + 1].contains(x));
            if l != m + 1 {
                lemma_levels_apart::<K, V>(a.pool, a.root, sh, l, pid, m + 1, x);
            }
        } else {
            assert(b.pool.page(x) == a.pool.page(x));
        }
    }
    lemma_parent_kept(a.pool, sh, b.pool, sh, m, child);
}

/// A page that gets a child leads where it led.
proof fn lemma_grown_reached<K: Key, V: Value>(
    a: BTreeIndex<K, V>,
    b: BTreeIndex<K, V>,
    m: int,
    child: PageId,
    l: int,
    pid: PageId,
)
    requires
        a.tree(),
        0 <= m,
        m + 1 < l < a.shape@.levels.len(),
        has_parent(a.pool, a.shape@, m, child),
        b.shape@ == a.shape@,
        a.shape@.levels[l].contains(pid),
        forall|id: u64| id != pid ==> #[trigger] b.pool.page(id) == a.pool.page(id),
    ensures
        has_parent(b.pool, b.shape@, m, child),
{
    let sh = a.shape@;
    assert forall|q: int|
        0 <= q < sh.levels[m + 1].len() && names_child(
            #[trigger] a.pool.page(sh.levels[m + 1][q]),
            child,
        ) implies names_child(b.pool.page(sh.levels[m + 1][q]), child) by {
        let x = sh.levels[m + 1][q];
        assert(sh.levels[m + 1].contains(x));
        lemma_levels_apart::<K, V>(a.pool, a.root, sh, l, pid, m + 1, x);
        assert(b.pool.page(x) == a.pool.page(x));
    }
    lemma_parent_kept(a.pool, sh, b.pool, sh, m, child);
}

/// A page further up that was split has nothing to do with it.
proof fn lemma_above_reached<K: Key, V: Value>(
    a: BTreeIndex<K, V>,
    b: BTreeIndex<K, V>,
    m: int,
    child: PageId,
    l: int,
    pid: PageId,
)
    requires
        a.tree(),
        0 <= m,
        m + 1 < l < a.shape@.levels.len(),
        has_parent(a.pool, a.shape@, m, child),
        a.shape@.levels[l].contains(pid),
        b.shape@.levels.len() == a.shape@.levels.len(),
        b.shape@.levels[m + 1] == a.shape@.levels[m + 1],
        forall|id: u64|
            id != pid && id < a.pool.next_page_id ==> #[trigger] b.pool.page(id) == a.pool.page(id),
    ensures
        has_parent(b.pool, b.shape@, m, child),
{
    let sh = a.shape@;
    assert forall|q: int|
        0 <= q < sh.levels[m + 1].len() && names_child(
            #[trigger] a.pool.page(sh.levels[m + 1][q]),
            child,
        ) implies names_child(b.pool.page(sh.levels[m + 1][q]), child) by {
        let x = sh.levels[m + 1][q];
        assert(sh.levels[m + 1].contains(x));
        lemma_levels_apart::<K, V>(a.pool, a.root, sh, l, pid, m + 1, x);
        assert(b.pool.page(x) == a.pool.page(x));
    }
    lemma_parent_kept(a.pool, sh, b.pool, b.shape@, m, child);
}

/// A new root keeps where the pages below it lead.
proof fn lemma_root_reached<K: Key, V: Value>(
    a: BTreeIndex<K, V>,
    b: BTreeIndex<K, V>,
    m: int,
    child: PageId,
    left: PageId,
)
    requires
        a.tree(),
        0 <= m,
        m + 1 < a.shape@.levels.len(),
        has_parent(a.pool, a.shape@, m, child),
        b.shape@ == raised(a.shape@, b.root),
        int_view(b.pool.page(left)).children == int_view(a.pool.page(left)).children,
        forall|id: u64|
            0 < id < a.pool.next_page_id && id != left ==> #[trigger] b.pool.page(id)
                == a.pool.page(id),
    ensures
        has_parent(b.pool, b.shape@, m, child),
{
    let sh = a.shape@;
    assert forall|q: int|
        0 <= q < sh.levels[m + 1].len() && names_child(
            #[trigger] a.pool.page(sh.levels[m + 1][q]),
            child,
        ) implies names_child(b.pool.page(sh.levels[m + 1][q]), child) by {
        assert(node_wf::<K, V>(a.pool, sh, m + 1, q));
    }
    lemma_parent_kept(a.pool, sh, b.pool, b.shape@, m, child);
}

/// Of two halves one leads to the child that was put between the others.
proof fn lemma_halves_reach<K: Key>(
    p: BufferPoolManager,
    sh: Shape,
    l: int,
    i: int,
    node: InternalView,
    key: Seq<u8>,
    child: PageId,
    pid: PageId,
    rid: PageId,
    sep: Seq<u8>,
    left: Seq<u8>,
)
    requires
        l + 1 < sh.levels.len(),
        0 <= i,
        i + 1 < sh.levels[l + 1].len(),
        sh.levels[l + 1][i] == pid,
        sh.levels[l + 1][i + 1] == rid,
        node.children.len() == node.keys.len() + 1,
        int_view(p.page(pid)) == int_view(left),
        exists|at: int| #[trigger]
            child_index::<K>(node.keys, key, at) && halves_of(
                left,
                p.page(rid),
                node.keys.insert(at, key),
                node.children.insert(at + 1, child),
                sep,
            ),
    ensures
        has_parent(p, sh, l, child),
{
    let at = choose|at: int| #[trigger]
        child_index::<K>(node.keys, key, at) && halves_of(
            left,
            p.page(rid),
            node.keys.insert(at, key),
            node.children.insert(at + 1, child),
            sep,
        );
    let ks = node.keys.insert(at, key);
    let cs = node.children.insert(at + 1, child);
    let mid = ks.len() as int / 2;
    assert(cs[at + 1] == child);
    if at + 1 < mid + 1 {
        assert(cs.take(mid + 1)[at + 1] == child);
        assert(names_child(p.page(sh.levels[l + 1][i]), child));
    } else {
        assert(cs.skip(mid + 1)[at - mid] == child);
        assert(names_child(p.page(sh.levels[l + 1][i + 1]), child));
    }
}

/// Whether the child is one of the page's.
fn has_child<K: Key>(acc: &InternalPageAccessor<'_, K>, child: PageId) -> (b: bool)
    requires
        acc.wf(),
    ensures
        b == acc.node().children.contains(child),
{
    let n: usize = acc.num_keys() as usize;
    let mut i: usize = 0;
    while i <= n
        invariant
            acc.wf(),
            i <= n + 1,
            n < 65536,
            acc.node().children.len() == n + 1,
            forall|j: int| 0 <= j < i ==> #[trigger] acc.node().children[j] != child,
        decreases n + 1 - i,
    {
        if acc.child_page_at(i) == child {
            return true;
        }
        i = i + 1;
    }
    false
}

/// Pages of two levels are different, and have ids that were given out.
proof fn lemma_levels_apart<K: Key, V: Value>(
    p: BufferPoolManager,
    root: PageId,
    sh: Shape,
    l: int,
    x: PageId,
    m: int,
    y: PageId,
)
    requires
        tree_wf::<K, V>(p, root, sh),
        0 <= l < sh.levels.len(),
        0 <= m < sh.levels.len(),
        sh.levels[l].contains(x),
        sh.levels[m].contains(y),
        l != m,
    ensures
        x != y,
        0 < x < p.next_page_id,
        0 < y < p.next_page_id,
{
    let a = sh.levels[l];
    let b = sh.levels[m];
    let i = choose|i: int| 0 <= i < a.len() && a[i] == x;
    let j = choose|j: int| 0 <= j < b.len() && b[j] == y;
    assert(node_wf::<K, V>(p, sh, l, i));
    assert(node_wf::<K, V>(p, sh, m, j));
    assert(sh.levels[l][i] == x && sh.levels[m][j] == y);
}

/// The root's level is the top.
proof fn lemma_root_level<K: Key, V: Value>(
    p: BufferPoolManager,
    root: PageId,
    sh: Shape,
    l: int,
)
    requires
        tree_wf::<K, V>(p, root, sh),
        0 <= l < sh.levels.len(),
        sh.levels[l].contains(root),
    ensures
        l == sh.levels.len() - 1,
{
    let chain = sh.levels[l];
    let q = choose|q: int| 0 <= q < chain.len() && chain[q] == root;
    let h = sh.levels.len() - 1;
    assert(sh.levels[h].len() > 0);
    assert(sh.levels[l][q] == sh.levels[h][0]);
}

/// A separator that is not below its left page's low key is not below that of a page which
/// was passed on the way down.
proof fn lemma_sep_above<K: Key, V: Value>(
    p: BufferPoolManager,
    root: PageId,
    sh: Shape,
    l: int,
    entry: PageId,
    left: PageId,
    sep: Seq<u8>,
)
    requires
        tree_wf::<K, V>(p, root, sh),
        0 <= l,
        l + 1 < sh.levels.len(),
        sh.levels[l + 1].contains(entry),
        sh.levels[l].contains(left),
        low_le::<K>(sh.low[entry], sh.low[left]),
        low_le::<K>(sh.low[left], Some(sep)),
        K::accepts(sep),
    ensures
        at_least::<K>(sep, sh.low[entry]),
{
    let up = sh.levels[l + 1];
    let q = choose|q: int| 0 <= q < up.len() && up[q] == entry;
    assert(node_wf::<K, V>(p, sh, l + 1, q));
    let here = sh.levels[l];
    let r = choose|r: int| 0 <= r < here.len() && here[r] == left;
    assert(node_wf::<K, V>(p, sh, l, r));
    if sh.low[entry] is Some {
        crate::index::tree::lemma_le_chain::<K>(sh.low[entry]->0, sh.low[left]->0, sep);
    }
}

/// A page that was only looked at was released.
pub proof fn lemma_released_parent<K: Key, V: Value>(
    a: BTreeIndex<K, V>,
    b: BTreeIndex<K, V>,
    pid: PageId,
)
    requires
        a.tree(),
        held(a.pool, Set::empty().insert(pid), 1),
        b.pool.wf(),
        b.root == a.root,
        b.shape@ == a.shape@,
        b.trail@ == a.trail@,
        settled(a.trail@),
        b.pool.wal == a.pool.wal,
        b.pool.disk == a.pool.disk,
        unpinned(a.pool, b.pool, pid),
        b.pool.next_page_id == a.pool.next_page_id,
        b.pool.page(pid) == a.pool.page(pid),
        forall|id: u64| id != pid ==> #[trigger] b.pool.page(id) == a.pool.page(id),
        upheld(a.pool, b.pool),
    ensures
        b.wf(),
        b.parts() == a.parts(),
        b.rooted() == a.rooted(),
        same_contents(a.pool, b.pool),
        passed(a.pool, a.trail@, b.pool, b.trail@),
{
    assert forall|id: u64| #[trigger] b.pool.page(id) == a.pool.page(id) by {}
    lemma_same_passed(a, b);
    lemma_pool_kept(a, b);
    lemma_unhold(a.pool, b.pool, Set::empty().insert(pid), 1, pid);
    assert(Set::<u64>::empty().insert(pid).remove(pid) =~= Set::empty());
}

/// The reason for a failure outlives the release of a page.
proof fn lemma_error_kept<K: Key, V: Value>(
    e: IndexError,
    a: BTreeIndex<K, V>,
    b: BTreeIndex<K, V>,
)
    requires
        e is BufferPool && a.pool.faulty() || e is Page && uneven::<K>(a.pool, a.shape@),
        a.pool.faulty() ==> b.pool.faulty(),
        same_contents(a.pool, b.pool),
        b.shape@ == a.shape@,
    ensures
        structure_error(e, b),
{
    if e is Page {
        let sh = a.shape@;
        let (l, i, at, key) = choose|l: int, i: int, at: int, key: Seq<u8>|
            0 < l < sh.levels.len() && 0 <= i < sh.levels[l].len() && #[trigger] cannot_take::<K>(
                int_view(a.pool.page(sh.levels[l][i])),
                at,
                key,
            );
        assert(b.pool.page(sh.levels[l][i]) == a.pool.page(sh.levels[l][i]));
        assert(cannot_take::<K>(int_view(b.pool.page(sh.levels[l][i])), at, key));
    }
}

/// One level up: what the way down says of the page that was split there.
proof fn lemma_next_up<K: Key, V: Value>(
    p: BufferPoolManager,
    root: PageId,
    sh: Shape,
    s2: Shape,
    l: int,
    entry: PageId,
    parent: PageId,
    rest: Seq<PageId>,
)
    requires
        tree_wf::<K, V>(p, root, s2),
        extends(sh, s2),
        0 <= l,
        l + 1 < sh.levels.len(),
        sh.levels[l + 1].contains(entry),
        sh.levels[l + 1].contains(parent),
        low_le::<K>(sh.low[entry], sh.low[parent]),
        stack_ok::<K>(sh, rest, l + 1, sh.low[entry]),
    ensures
        stack_ok::<K>(s2, rest, l + 1, s2.low[parent]),
{
    lemma_stack_kept::<K>(sh, s2, rest, l + 1, sh.low[entry]);
    let up = s2.levels[l + 1];
    assert(up.contains(entry) && up.contains(parent));
    let q = choose|q: int| 0 <= q < up.len() && up[q] == entry;
    let r = choose|r: int| 0 <= r < up.len() && up[r] == parent;
    assert(node_wf::<K, V>(p, s2, l + 1, q));
    assert(node_wf::<K, V>(p, s2, l + 1, r));
    lemma_stack_right::<K, V>(p, root, s2, rest, l + 1, sh.low[entry], sh.low[parent]);
}

impl<K: Key, V: Value> BTreeIndex<K, V> {
    /// Finishes a split that was left incomplete: puts the missing downlink into the
    /// parent. Does nothing to a page without the mark.
    pub(crate) fn finish_split(&mut self, child_pid: PageId, stack: &Vec<PageId>, level: Ghost<int>)
        -> (r: Result<(), IndexError>)
        requires
            old(self).wf(),
            0 <= level@ < old(self).shape@.levels.len(),
            old(self).shape@.levels[level@].contains(child_pid),
            stack_ok::<K>(old(self).shape@, stack@, level@, old(self).shape@.low[child_pid]),
        ensures
            final(self).wf(),
            !split_incomplete(old(self).pool.page(child_pid)) ==> {
                &&& final(self).shape@ == old(self).shape@
                &&& same_contents(old(self).pool, final(self).pool)
            },
            final(self).parts() == old(self).parts(),
            floats(*old(self), *final(self), old(self).parts()),
            extends(old(self).shape@, final(self).shape@),
            forall|m: int|
                0 <= m <= level@ ==> #[trigger] final(self).shape@.levels[m] == old(self).shape@.levels[m],
            r is Ok && old(self).rooted() ==> final(self).rooted(),
            r matches Err(e) ==> structure_error(e, *final(self)),
            r is Ok ==> !split_incomplete(final(self).pool.page(child_pid)),
            r is Ok && split_incomplete(old(self).pool.page(child_pid)) && !(stack@.len() == 0
                && old(self).root != child_pid) ==> (crate::index::tree::node_right(
                old(self).pool.page(child_pid),
                level@,
            ) matches Some(rid) ==> has_parent(
                final(self).pool,
                final(self).shape@,
                level@,
                rid,
            )),
            spared(*old(self), *final(self), broke(r)),
            within(old(self).pool, final(self).pool, (stack@.len() + 1) as int),
    {
        let ghost a = *self;
        let ghost sh = self.shape@;
        let ghost chain = sh.levels[level@];
        let ghost i = choose|q: int| 0 <= q < chain.len() && chain[q] == child_pid;
        assert(node_wf::<K, V>(a.pool, sh, level@, i));
        let page: Vec<u8> = match self.read(child_pid) {
            Ok(p) => p,
            Err(e) => {
                proof {
                    assert(held(a.pool, Set::empty(), 0));
                    lemma_pool_kept(a, *self);
                }
                return Err(e);
            },
        };
        let ghost b = *self;
        proof {
            assert(held(a.pool, Set::empty(), 0));
            lemma_pool_kept(a, b);
            lemma_same_view(page@);
            assert(b.pool.page(child_pid) == a.pool.page(child_pid));
        }
        if !crate::page::is_incomplete_split(page.as_slice()) {
            return Ok(());
        }
        let kind: u8 = page[0];
        let (high, right): (Option<Vec<u8>>, Option<PageId>) = if kind == crate::page::LEAF {
            let acc = LeafPageAccessor::<K, V>::new(page.as_slice());
            (copy_of(acc.high_key_bytes()), acc.rightlink())
        } else {
            let acc = InternalPageAccessor::<K>::new(page.as_slice());
            (copy_of(acc.high_key_bytes()), acc.rightlink())
        };
        match (high, right) {
            (Some(sep), Some(rid)) => {
                proof {
                    assert(sh.levels[level@][i + 1] == rid);
                    assert(chain.contains(rid));
                    assert(linked(sh, level@, rid, Some(sep@)));
                    lemma_adjoins::<K, V>(b.pool, b.root, sh, level@, i);
                }
                let path: Vec<PageId> = copy_path(stack);
                self.insert_separator_via_stack(path, sep, rid, child_pid, level)
            },
            _ => {
                proof {
                    assert forall|j: int|
                        0 <= j && j + 1 < chain.len() implies #[trigger] chain[j] != child_pid by {
                        assert(sh.levels[level@][j] == chain[j] && sh.levels[level@][i]
                            == child_pid);
                    }
                    lemma_free_of_parents(self.pool, self.shape@, level@, child_pid);
                }
                self.clear_flag(child_pid, level, None)
            },
        }
    }
}

/// The bytes, copied.
fn copy_of(b: Option<&[u8]>) -> (v: Option<Vec<u8>>)
    ensures
        crate::index::bytes_of(v) == crate::wal::record::seq_of(b),
{
    match b {
        Some(s) => Some(vstd::slice::slice_to_vec(s)),
        None => None,
    }
}

fn copy_path(stack: &Vec<PageId>) -> (path: Vec<PageId>)
    ensures
        path@ == stack@,
{
    let mut path: Vec<PageId> = Vec::new();
    let mut i: usize = 0;
    while i < stack.len()
        invariant
            i <= stack@.len(),
            path@ == stack@.take(i as int),
        decreases stack@.len() - i,
    {
        path.push(stack[i]);
        assert(path@ =~= stack@.take(i + 1));
        i = i + 1;
    }
    assert(path@ =~= stack@);
    path
}

/// The leaf that is held, as a search sees it.
pub open spec fn part_held<K: Key, V: Value>(t: BTreeIndex<K, V>, g: PageWriteGuard) -> Part {
    Part {
        low: t.shape@.low[g.page_id],
        high: leaf_view(g@).high,
        rows: leaf_view(g@).rows,
    }
}

/// A version that the index takes for the leaf.
pub open spec fn belongs<K: Key, V: Value>(p: Part, k: Seq<u8>, v: Seq<u8>) -> bool {
    &&& good_key::<K>(k)
    &&& canonical::<V>(v)
    &&& v.len() <= MAX_VALUE_SIZE
    &&& at_least::<K>(k, p.low)
    &&& crate::index::tree::under::<K>(k, p.high)
}

/// What a split of a full leaf for a version came to.
pub open spec fn split_outcome<K: Key, V: Value>(
    before: Seq<Part>,
    at: int,
    p: Part,
    k: Seq<u8>,
    v: Seq<u8>,
    txn_id: u64,
    r: Result<(), IndexError>,
    t: BTreeIndex<K, V>,
) -> bool {
    let (out, full) = split_and_put::<K>(p, k, v, txn_id);
    let m = split_point::<K>(p.rows);
    match r {
        Ok(()) => full is None && t.parts() == splice(before, at, out) && signed(t, txn_id),
        Err(IndexError::Page(e)) => {
            &&& t.parts() == splice(before, at, out)
            &&& full == Some(e) || full is None && uneven::<K>(t.pool, t.shape@) && signed(
                t,
                txn_id,
            )
        },
        Err(e) => {
            &&& e is BufferPool && t.pool.faulty() || e is Wal && log_stuck(t.pool.wal@)
            &&& {
                ||| t.parts() == splice(before, at, seq![p])
                ||| t.parts() == splice(before, at, seq![left_of(p, m), right_of(p, m)])
                ||| t.parts() == splice(before, at, out) && signed(t, txn_id)
            }
        },
    }
}

/// What a crash falls back to after a leaf was split for a version.
pub open spec fn split_floor<K: Key, V: Value>(
    a: BTreeIndex<K, V>,
    at: int,
    p: Part,
    k: Seq<u8>,
    v: Seq<u8>,
    txn_id: u64,
    b: BTreeIndex<K, V>,
) -> bool {
    let m = split_point::<K>(p.rows);
    b.pool.wal@.error is None && !b.trail@.parted ==> {
        ||| floor_kept(a, b)
        ||| told_by(a, b) && {
            ||| b.trail@.floor == splice(a.parts(), at, seq![p])
            ||| b.trail@.floor == splice(a.parts(), at, seq![left_of(p, m), right_of(p, m)])
            ||| b.trail@.floor == splice(a.parts(), at, split_and_put::<K>(p, k, v, txn_id).0)
                && names(read_all(b.pool.wal@.segments), txn_id)
        }
    }
}

/// The row that was put is where a search finds it.
proof fn lemma_put_leaf<K: Key, V: Value>(
    before: Seq<u8>,
    after: Seq<u8>,
    low: Option<Seq<u8>>,
    k: Seq<u8>,
    v: Seq<u8>,
    txn_id: u64,
)
    requires
        good_leaf::<K, V>(before, low),
        leaf_wf(after),
        good_key::<K>(k),
        canonical::<V>(v),
        at_least::<K>(k, low),
        at_most::<K>(k, leaf_view(before).high),
        leaf_view(after).high == leaf_view(before).high,
        leaf_view(after).free == leaf_view(before).free - row_need(k, v),
        ({
            let rows = leaf_view(before).rows;
            leaf_view(after).rows == rows.insert(
                search::<K>(rows, k, 0, rows.len() as int).0,
                Version { key: k, val: v, xmin: txn_id, xmax: 0 },
            )
        }),
    ensures
        good_leaf::<K, V>(after, low),
        leaf_view(after).rows == put::<K>(
            Part { low, high: leaf_view(before).high, rows: leaf_view(before).rows },
            k,
            v,
            txn_id,
        ).rows,
{
    let p = Part { low, high: leaf_view(before).high, rows: leaf_view(before).rows };
    lemma_put_rows::<K, V>(p, k, v, txn_id);
}

/// A key below a bound is not above it.
proof fn lemma_under<K: Key>(k: Seq<u8>, high: Option<Seq<u8>>)
    requires
        K::accepts(k),
        high matches Some(h) ==> K::accepts(h),
        crate::index::tree::under::<K>(k, high),
    ensures
        at_most::<K>(k, high),
{
    if high is Some {
        K::le_total(k, high->0);
    }
}

/// The way down began at the root, which is alone on its level.
pub open spec fn topped_before(sh: Shape, stack: Seq<PageId>) -> bool {
    stack.len() == sh.levels.len() - 1 && sh.levels.last().len() == 1
}

/// Where the way down began at a root that was alone on its level, a tree that was upright
/// still is; and unless an error came in between, the root is alone again, and no split is
/// left incomplete where none was.
pub open spec fn stands_firm<K: Key, V: Value>(
    a: BTreeIndex<K, V>,
    stack: Seq<PageId>,
    r: Result<(), IndexError>,
    b: BTreeIndex<K, V>,
) -> bool {
    topped_before(a.shape@, stack) ==> {
        &&& b.shape@.firm == a.shape@.firm
        &&& r is Ok ==> b.shape@.levels.last().len() == 1
        &&& r is Ok && marked_only(a.pool, a.shape@, None) ==> marked_only(
            b.pool,
            b.shape@,
            None,
        )
    }
}

impl<K: Key, V: Value> BTreeIndex<K, V> {
    /// Puts a version into the right half of a leaf that was split.
    fn put_right(&mut self, at: Ghost<int>, rid: PageId, key: &[u8], val: &[u8], txn_id: u64) -> (r:
        Result<(), IndexError>)
        requires
            old(self).wf(),
            0 <= at@ < old(self).shape@.levels[0].len(),
            old(self).shape@.levels[0][at@] == rid,
            belongs::<K, V>(old(self).parts()[at@], key@, val@),
        ensures
            final(self).wf(),
            final(self).root == old(self).root,
            final(self).shape@ == old(self).shape@,
            final(self).rooted() == old(self).rooted(),
            marks_kept(*old(self), *final(self)),
            spared(*old(self), *final(self), broke(r)),
            within(old(self).pool, final(self).pool, 1),
            floats(*old(self), *final(self), old(self).parts()),
            ({
                let p = old(self).parts()[at@];
                match r {
                    Ok(()) => {
                        &&& row_need(key@, val@) <= room(p)
                        &&& final(self).parts() == old(self).parts().update(
                            at@,
                            put::<K>(p, key@, val@, txn_id),
                        )
                        &&& signed(*final(self), txn_id)
                    },
                    Err(IndexError::Page(e)) => {
                        &&& row_need(key@, val@) > room(p)
                        &&& e == no_space(key@, val@, p)
                        &&& final(self).parts() == old(self).parts()
                    },
                    Err(e) => {
                        ||| e is BufferPool && final(self).pool.faulty() && final(self).parts()
                            == old(self).parts()
                        ||| e is Wal && log_stuck(final(self).pool.wal@) && row_need(key@, val@)
                            <= room(p) && final(self).parts() == old(self).parts().update(
                            at@,
                            put::<K>(p, key@, val@, txn_id),
                        ) && signed(*final(self), txn_id)
                    },
                }
            }),
    {
        let ghost a = *self;
        let ghost sh = self.shape@;
        let ghost p = self.parts()[at@];
        assert(node_wf::<K, V>(a.pool, sh, 0, at@));
        let fetched = self.pool.fetch_page_mut(rid);
        self.trail = Ghost(carried(a, self.pool.wal@));
        proof {
            lemma_carried(a, *self);
        }
        let mut g = match fetched {
            Ok(g) => g,
            Err(e) => {
                proof {
                    lemma_pool_kept(a, *self);
                    lemma_same_marks(a, *self);
                    assert(held(a.pool, Set::empty(), 0));
                }
                return Err(IndexError::BufferPool(e));
            },
        };
        let ghost b = *self;
        let ghost before = g@;
        proof {
            lemma_pool_kept(a, b);
            lemma_hold(a.pool, b.pool, Set::empty(), 0, rid);
            lemma_same_view(before);
            assert(b.pool.page(rid) == a.pool.page(rid));
            lemma_under::<K>(key@, p.high);
            lemma_on_trail(b.pool, b.trail@, g);
        }
        let tried = self.try_put(&mut g, key, val, txn_id);
        proof {
            lemma_only_logged(b, *self);
            assert(held(self.pool, Set::empty().insert(rid), 1));
            assert(self.pool.page(rid) == b.pool.page(rid));
            assert(self.pool.page(0) == b.pool.page(0));
            if tried is Ok {
                lemma_put_leaf::<K, V>(before, g@, sh.low[rid], key@, val@, txn_id);
            }
        }
        let ghost c = *self;
        proof {
            lemma_same_marks(a, c);
        }
        self.put_back(g, at);
        proof {
            if tried is Err {
                assert(a.parts().update(at@, Part { rows: p.rows, ..p }) =~= a.parts());
            }
        }
        match tried {
            Err(e) => Err(IndexError::Page(e)),
            Ok(Err(e)) => Err(IndexError::Wal(e)),
            Ok(Ok(())) => Ok(()),
        }
    }
}

/// Replacing one of two spliced leaves is splicing other ones.
proof fn lemma_splice_update(parts: Seq<Part>, at: int, l: Part, r: Part, x: Part)
    requires
        0 <= at < parts.len(),
    ensures
        splice(parts, at, seq![l, r]).update(at + 1, x) == splice(parts, at, seq![l, x]),
        splice(parts, at, seq![l, r])[at + 1] == r,
        splice(parts, at, seq![l, r]).len() == parts.len() + 1,
        parts.update(at, x) == splice(parts, at, seq![x]),
{
    assert(splice(parts, at, seq![l, r]).update(at + 1, x) =~= splice(parts, at, seq![l, x]));
    assert(parts.update(at, x) =~= splice(parts, at, seq![x]));
}

/// What stood in the place of the leaves that are spliced does not matter.
proof fn lemma_splice_again(parts: Seq<Part>, at: int, x: Part)
    requires
        0 <= at < parts.len(),
    ensures
        forall|out: Seq<Part>| #[trigger] splice(parts.update(at, x), at, out) == splice(
            parts,
            at,
            out,
        ),
{
    assert forall|out: Seq<Part>| #[trigger]
        splice(parts.update(at, x), at, out) == splice(parts, at, out) by {
        assert(splice(parts.update(at, x), at, out) =~= splice(parts, at, out));
    }
}

impl<K: Key, V: Value> BTreeIndex<K, V> {
    /// Splits the leaf that is held, which has no room, puts the version into the half
    /// that it belongs to, and gives the parent its downlink.
    #[verifier::rlimit(60)]
    fn divide_and_put(
        &mut self,
        guard: PageWriteGuard,
        at: Ghost<int>,
        key: &[u8],
        val: &[u8],
        txn_id: u64,
        stack: Vec<PageId>,
    ) -> (r: Result<(), IndexError>)
        requires
            holds_leaf(*old(self), guard, at@),
            !guard.dirty,
            belongs::<K, V>(part_held(*old(self), guard), key@, val@),
            room(part_held(*old(self), guard)) < row_need(key@, val@),
            stack_ok::<K>(old(self).shape@, stack@, 0, old(self).shape@.low[guard.page_id]),
        ensures
            final(self).wf(),
            split_outcome(
                old(self).parts(),
                at@,
                part_held(*old(self), guard),
                key@,
                val@,
                txn_id,
                r,
                *final(self),
            ),
            r is Ok && old(self).rooted() ==> final(self).rooted(),
            r is Ok ==> !split_incomplete(final(self).pool.page(guard.page_id)),
            stands_firm(*old(self), stack@, r, *final(self)),
            spared(*old(self), *final(self), broke(r)),
            within(old(self).pool, final(self).pool, (stack@.len() + 3) as int),
            split_floor(
                *old(self),
                at@,
                part_held(*old(self), guard),
                key@,
                val@,
                txn_id,
                *final(self),
            ),
    {
        let ghost a = *self;
        let ghost sh = self.shape@;
        let ghost p = part_held(a, guard);
        let ghost m = split_point::<K>(p.rows);
        let pid: PageId = guard.page_id;
        let mut guard = guard;
        proof {
            assert(node_wf::<K, V>(a.pool, sh, 0, at@));
            if p.rows.len() == 0 {
                lemma_empty_has_room::<K>(p, key@, val@);
            }
            lemma_split_point::<K>(p.rows);
            crate::page::leaf::lemma_packed_room(guard@);
            lemma_halves::<K, V>(p, m);
            lemma_splice_update(a.parts(), at@, p, p, p);
            lemma_on_trail(a.pool, a.trail@, guard);
            assert(a.parts().update(at@, p) =~= a.parts());
        }
        let needed: usize = needed_bytes(key, val);
        let ghost guard_before = guard@;
        proof {
            lemma_same_view(guard_before);
        }
        let (sep, rid, neighbour, logged) = match self.split_leaf_ly(&mut guard, at, needed) {
            LeafSplit::Failed(e) => {
                let ghost held_state = *self;
                self.pool.release_mut(guard);
                proof {
                    lemma_released_parent(held_state, *self, pid);
                }
                return Err(e);
            },
            LeafSplit::Done { sep, rid, neighbour, logged } => (sep, rid, neighbour, logged),
        };
        let ghost b = *self;
        let ghost l = left_of(p, m);
        let ghost rp = right_of(p, m);
        proof {
            assert forall|i: int, j: int|
                0 <= i < sh.levels.len() && 0 <= j < sh.levels[i].len() && split_incomplete(
                    b.pool.page(#[trigger] sh.levels[i][j]),
                ) implies split_incomplete(a.pool.page(sh.levels[i][j])) by {
                assert(sh.levels[i][j] != rid);
            }
            lemma_same_marks(a, b);
            if marked_only(a.pool, sh, None) {
                assert(!split_incomplete(guard_before)) by {
                    reveal(marked_only);
                    assert(sh.levels[0][at@] == pid);
                }
            }
        }
        if let Err(e) = logged {
            self.close_left(guard, at, rid, Ghost(sep@), neighbour);
            return Err(IndexError::Wal(e));
        }
        let goes_left: bool = key_order::<K>(key, sep.as_slice()) < 0;
        if goes_left {
            let ghost before = guard@;
            let tried = self.try_put(&mut guard, key, val, txn_id);
            proof {
                lemma_only_logged(b, *self);
                assert(held(self.pool, left_set(pid, neighbour), left_count(neighbour)));
                assert(self.pool.page(pid) == b.pool.page(pid));
                assert(self.pool.page(rid) == b.pool.page(rid));
                assert(self.pool.page(0) == b.pool.page(0));
                if neighbour is Some {
                    assert(sh.levels[0][at@ + 1] != pid);
                    assert(self.pool.page(neighbour->0.page_id) == b.pool.page(
                        neighbour->0.page_id,
                    ));
                }
                lemma_under::<K>(key@, Some(sep@));
                lemma_same_marks(b, *self);
                if tried is Ok {
                    lemma_put_leaf::<K, V>(before, guard@, sh.low[pid], key@, val@, txn_id);
                }
            }
            self.close_left(guard, at, rid, Ghost(sep@), neighbour);
            match tried {
                Err(e) => {
                    return Err(IndexError::Page(e));
                },
                Ok(Err(e)) => {
                    return Err(IndexError::Wal(e));
                },
                Ok(Ok(())) => {},
            }
        } else {
            self.close_left(guard, at, rid, Ghost(sep@), neighbour);
            proof {
                lemma_splice_update(a.parts(), at@, l, rp, rp);
                lemma_splice_update(a.parts(), at@, l, rp, put::<K>(rp, key@, val@, txn_id));
                K::le_total(sep@, key@);
                assert(self.shape@.levels[0][at@ + 1] == rid);
            }
            match self.put_right(Ghost(at@ + 1), rid, key, val, txn_id) {
                Ok(()) => {},
                Err(e) => {
                    return Err(e);
                },
            }
        }
        proof {
            lemma_grown_extends(sh, 0, at@, rid, sep@);
            lemma_stack_kept::<K>(sh, self.shape@, stack@, 0, sh.low[pid]);
            assert(sh.levels[0].contains(pid)) by {
                assert(sh.levels[0][at@] == pid);
            }
            assert(self.shape@.levels[0].contains(pid));
            assert(self.shape@.levels[0][at@] == pid);
            assert(self.shape@.levels[0][at@ + 1] == rid);
            lemma_adjoins::<K, V>(self.pool, self.root, self.shape@, 0, at@);
            if topped_before(sh, stack@) && sh.levels.len() == 1 {
                assert(self.shape@.levels.last() =~= seq![pid, rid]);
            }
        }
        self.insert_separator_via_stack(stack, sep, rid, pid, Ghost(0))
    }
}

/// Bytes that a version takes on a leaf.
fn needed_bytes(key: &[u8], val: &[u8]) -> (n: usize)
    requires
        key@.len() <= MAX_KEY_SIZE,
        val@.len() <= MAX_VALUE_SIZE,
    ensures
        n == row_need(key@, val@),
{
    let k: usize = key.len();
    let v: usize = val.len();
    4 + 24 + (k + k % 2) + (v + v % 2)
}

/// A state that putting a version into a leaf can stop in, where the storage fails.
pub open spec fn put_stage<K: Key>(
    p: Part,
    k: Seq<u8>,
    v: Seq<u8>,
    txn_id: u64,
    horizon: u64,
    tm: TmView,
    stage: Seq<Part>,
) -> bool {
    ||| early_stage::<K>(p, k, v, horizon, tm, stage)
    ||| stage == placed::<K>(p, k, v, txn_id, horizon, tm).0
}

/// One of those without the version.
pub open spec fn early_stage<K: Key>(
    p: Part,
    k: Seq<u8>,
    v: Seq<u8>,
    horizon: u64,
    tm: TmView,
    stage: Seq<Part>,
) -> bool {
    let base = vacuumed(p, horizon, tm);
    let m = split_point::<K>(base.rows);
    ||| stage == seq![p]
    ||| stage == seq![base]
    ||| splits(p, k, v, horizon, tm) && stage == seq![left_of(base, m), right_of(base, m)]
}

/// To put the version into the leaf, it has to be split.
pub open spec fn splits(p: Part, k: Seq<u8>, v: Seq<u8>, horizon: u64, tm: TmView) -> bool {
    let base = vacuumed(p, horizon, tm);
    &&& row_need(k, v) > room(p)
    &&& !(base.rows.len() < p.rows.len() && row_need(k, v) <= room(base))
}

/// What putting a version into a leaf came to.
pub open spec fn put_outcome<K: Key, V: Value>(
    before: Seq<Part>,
    at: int,
    p: Part,
    k: Seq<u8>,
    v: Seq<u8>,
    txn_id: u64,
    tm: TmView,
    r: Result<(), IndexError>,
    t: BTreeIndex<K, V>,
) -> bool {
    let (out, full) = placed::<K>(p, k, v, txn_id, tm.global_xmin(), tm);
    match r {
        Ok(()) => full is None && t.parts() == splice(before, at, out) && signed(t, txn_id),
        Err(IndexError::Page(e)) => {
            &&& t.parts() == splice(before, at, out)
            &&& full == Some(e) || full is None && uneven::<K>(t.pool, t.shape@) && signed(
                t,
                txn_id,
            )
        },
        Err(e) => {
            &&& e is BufferPool && t.pool.faulty() || e is Wal && log_stuck(t.pool.wal@)
            &&& exists|stage: Seq<Part>|
                put_stage::<K>(p, k, v, txn_id, tm.global_xmin(), tm, stage) && t.parts()
                    == #[trigger] splice(before, at, stage) && (early_stage::<K>(
                    p,
                    k,
                    v,
                    tm.global_xmin(),
                    tm,
                    stage,
                ) || signed(t, txn_id))
        },
    }
}

/// What a crash falls back to after a version was put into a leaf.
pub open spec fn put_floor<K: Key, V: Value>(
    a: BTreeIndex<K, V>,
    at: int,
    p: Part,
    k: Seq<u8>,
    v: Seq<u8>,
    txn_id: u64,
    tm: TmView,
    b: BTreeIndex<K, V>,
) -> bool {
    let horizon = tm.global_xmin();
    b.pool.wal@.error is None && !b.trail@.parted ==> {
        ||| floor_kept(a, b)
        ||| told_by(a, b) && exists|stage: Seq<Part>|
            put_stage::<K>(p, k, v, txn_id, horizon, tm, stage) && b.trail@.floor
                == #[trigger] splice(a.parts(), at, stage) && (early_stage::<K>(
                p,
                k,
                v,
                horizon,
                tm,
                stage,
            ) || names(read_all(b.pool.wal@.segments), txn_id))
    }
}

impl<K: Key, V: Value> BTreeIndex<K, V> {
    /// Takes the rows that vacuum may remove out of the leaf that is held. Where there
    /// were any, logs the leaf's image.
    pub(crate) fn compact_held(
        &mut self,
        guard: &mut PageWriteGuard,
        horizon: u64,
        tm: &TransactionManager,
    ) -> (r: (usize, Result<(), WalError>))
        requires
            old(self).tree(),
            good_leaf::<K, V>(old(guard)@, old(self).shape@.low[old(guard).page_id]),
            on_trail(old(self).pool, old(self).trail@, *old(guard)),
        ensures
            only_logged(*old(self), *final(self)),
            on_trail(final(self).pool, final(self).trail@, *final(guard)),
            spared(*old(self), *final(self), r.1 is Err),
            final(guard).page_id == old(guard).page_id,
            final(guard).dirty,
            good_leaf::<K, V>(final(guard)@, old(self).shape@.low[old(guard).page_id]),
            leaf_view(final(guard)@).high == leaf_view(old(guard)@).high,
            leaf_view(final(guard)@).right == leaf_view(old(guard)@).right,
            leaf_view(final(guard)@).prev == leaf_view(old(guard)@).prev,
            split_incomplete(final(guard)@) == split_incomplete(old(guard)@),
            leaf_view(final(guard)@).rows == kept_rows(
                leaf_view(old(guard)@).rows,
                horizon,
                tm@,
            ),
            r.0 == leaf_view(old(guard)@).rows.len() - leaf_view(final(guard)@).rows.len(),
            r.0 == 0 ==> r.1 is Ok && final(guard)@ == old(guard)@ && final(self).pool.wal == old(self).pool.wal,
            r.1 is Err ==> log_stuck(final(self).pool.wal@),
    {
        let ghost a = *self;
        let pid: PageId = guard.page_id;
        let ghost leaf = leaf_view(guard@);
        let ghost low = self.shape@.low[pid];
        proof {
            lemma_kept_rows::<K, V>(leaf.rows, low, leaf.high, horizon, tm@);
        }
        let marked: bool = crate::page::is_incomplete_split(guard.memory());
        let removed: usize = LeafPageMutator::<K, V>::compact(
            pid,
            guard.memory_mut(),
            horizon,
            tm,
        );
        if removed == 0 {
            return (0, Ok(()));
        }
        proof {
            lemma_unmarked();
            crate::page::leaf::lemma_leaf_flags(
                guard@,
                guard@[1] | crate::page::FLAG_INCOMPLETE_SPLIT,
            );
        }
        if marked {
            crate::page::set_incomplete_split(guard.memory_mut());
        }
        let ghost image = guard@;
        let ghost images = seq![image_block(pid, image)];
        let ghost w = self.pool.wal@;
        let logged = self.pool.wal.log_page_compact(SYSTEM_TXN_ID, pid, guard.memory());
        proof {
            lemma_small_record(images, None);
            lemma_refused(w, WalRecordType::PageCompact, SYSTEM_TXN_ID, images, None);
            lemma_upheld_logged(a.pool, self.pool);
        }
        match logged {
            Ok(lsn) => {
                LeafPageMutator::<K, V>::new(guard.memory_mut()).set_lsn(lsn);
                let ghost now = state_of(guard@);
                self.trail = Ghost(Trail { open: a.trail@.open.insert(pid, now), ..a.trail@ });
                proof {
                    let before = meant(a.pool, a.trail@.open, pid);
                    if before.lsn() < w.next {
                        lemma_leaf_image(WalRecordType::PageCompact, pid, image, lsn, before);
                    }
                    lemma_logged_one(
                        a.pool,
                        self.pool,
                        WalRecordType::PageCompact,
                        SYSTEM_TXN_ID,
                        image_block(pid, image),
                        a.trail@,
                        before,
                        now,
                    );
                }
                (removed, Ok(()))
            },
            Err(e) => {
                self.trail = Ghost(parting(a.trail@));
                (removed, Err(e))
            },
        }
    }

    /// Releases a leaf whose rows were changed, and holds it again. With that the pool has
    /// what the log tells of the leaf, whenever it flushes the log.
    fn hold_again(&mut self, guard: PageWriteGuard, at: Ghost<int>) -> (r: Result<
        PageWriteGuard,
        IndexError,
    >)
        requires
            leaf_ready(*old(self), guard, at@),
            guard.dirty,
        ensures
            final(self).root == old(self).root,
            final(self).shape@ == old(self).shape@,
            final(self).rooted() == old(self).rooted(),
            final(self).parts() == old(self).parts().update(at@, part_held(*old(self), guard)),
            marks_kept(*old(self), *final(self)),
            spared(*old(self), *final(self), false),
            within(old(self).pool, final(self).pool, 0),
            floats(*old(self), *final(self), final(self).parts()),
            match r {
                Ok(g) => {
                    &&& holds_leaf(*final(self), g, at@)
                    &&& !g.dirty
                    &&& g.page_id == guard.page_id
                    &&& part_held(*final(self), g) == part_held(*old(self), guard)
                },
                Err(e) => final(self).wf() && e is BufferPool && final(self).pool.faulty(),
            },
    {
        let ghost a = *self;
        let ghost before = guard;
        let pid: PageId = guard.page_id;
        assert(node_wf::<K, V>(a.pool, a.shape@, 0, at@));
        self.put_back(guard, at);
        let ghost b = *self;
        assert(node_wf::<K, V>(b.pool, b.shape@, 0, at@));
        let fetched = self.pool.fetch_page_mut(pid);
        self.trail = Ghost(carried(b, self.pool.wal@));
        proof {
            lemma_carried(b, *self);
            lemma_same_marks(b, *self);
            lemma_pool_kept(b, *self);
            assert(b.parts() =~= a.parts().update(at@, part_held(a, before)));
        }
        match fetched {
            Ok(g) => {
                proof {
                    lemma_hold(b.pool, self.pool, Set::empty(), 0, pid);
                    lemma_same_view(g@);
                    assert(self.pool.page(pid) == b.pool.page(pid));
                    assert(node_wf::<K, V>(self.pool, self.shape@, 0, at@));
                }
                Ok(g)
            },
            Err(e) => {
                assert(held(b.pool, Set::empty(), 0));
                Err(IndexError::BufferPool(e))
            },
        }
    }

    /// Makes room in the leaf that is held, by removing what vacuum may remove or else by
    /// splitting it, and puts the version into it.
    pub(crate) fn split_and_insert(
        &mut self,
        guard: PageWriteGuard,
        at: Ghost<int>,
        key: &[u8],
        val: &[u8],
        txn_id: u64,
        tm: &TransactionManager,
        stack: Vec<PageId>,
    ) -> (r: Result<(), IndexError>)
        requires
            leaf_ready(*old(self), guard, at@),
            belongs::<K, V>(part_held(*old(self), guard), key@, val@),
            room(part_held(*old(self), guard)) < row_need(key@, val@),
            stack_ok::<K>(old(self).shape@, stack@, 0, old(self).shape@.low[guard.page_id]),
            tm@.wf(),
        ensures
            final(self).wf(),
            put_outcome(
                old(self).parts(),
                at@,
                part_held(*old(self), guard),
                key@,
                val@,
                txn_id,
                tm@,
                r,
                *final(self),
            ),
            r is Ok && old(self).rooted() ==> final(self).rooted(),
            stands_firm(*old(self), stack@, r, *final(self)),
            spared(*old(self), *final(self), broke(r)),
            within(old(self).pool, final(self).pool, (stack@.len() + 4) as int),
            put_floor(
                *old(self),
                at@,
                part_held(*old(self), guard),
                key@,
                val@,
                txn_id,
                tm@,
                *final(self),
            ),
    {
        let ghost a = *self;
        let ghost sh = self.shape@;
        let ghost p = part_held(a, guard);
        let pid: PageId = guard.page_id;
        let mut guard = guard;
        let horizon: u64 = tm.global_xmin();
        let ghost base = vacuumed(p, horizon, tm@);
        let ghost goal = placed::<K>(p, key@, val@, txn_id, horizon, tm@);
        proof {
            assert(node_wf::<K, V>(a.pool, sh, 0, at@));
            lemma_splice_update(a.parts(), at@, p, p, p);
            lemma_splice_update(a.parts(), at@, p, p, base);
            lemma_splice_update(a.parts(), at@, p, p, put::<K>(base, key@, val@, txn_id));
        }
        let (removed, logged) = self.compact_held(&mut guard, horizon, tm);
        let ghost b = *self;
        proof {
            lemma_only_logged(a, b);
            assert(held(b.pool, Set::empty().insert(pid), 1));
            assert(b.pool.page(pid) == a.pool.page(pid));
            assert(b.pool.page(0) == a.pool.page(0));
            lemma_same_marks(a, b);
            assert(part_held(b, guard) == base);
        }
        if let Err(e) = logged {
            self.put_back(guard, at);
            assert(put_stage::<K>(p, key@, val@, txn_id, horizon, tm@, seq![base]));
            return Err(IndexError::Wal(e));
        }
        if removed > 0 && LeafPageAccessor::<K, V>::new(guard.memory()).can_fit_direct(
            key.len(),
            val.len(),
        ) {
            let ghost before = guard@;
            let tried = self.try_put(&mut guard, key, val, txn_id);
            proof {
                lemma_only_logged(b, *self);
                assert(held(self.pool, Set::empty().insert(pid), 1));
                assert(self.pool.page(pid) == b.pool.page(pid));
                lemma_same_marks(b, *self);
                assert(self.pool.page(0) == b.pool.page(0));
                lemma_under::<K>(key@, p.high);
                assert(tried is Ok);
                lemma_put_leaf::<K, V>(before, guard@, sh.low[pid], key@, val@, txn_id);
            }
            self.put_back(guard, at);
            return match tried {
                Err(e) => Err(IndexError::Page(e)),
                Ok(Err(e)) => {
                    assert(put_stage::<K>(p, key@, val@, txn_id, horizon, tm@, goal.0));
                    Err(IndexError::Wal(e))
                },
                Ok(Ok(())) => Ok(()),
            };
        }
        proof {
            if removed == 0 {
                lemma_kept_rows::<K, V>(p.rows, p.low, p.high, horizon, tm@);
                assert(base == p);
            }
        }
        let guard = match self.hold_again(guard, at) {
            Ok(g) => g,
            Err(e) => {
                assert(put_stage::<K>(p, key@, val@, txn_id, horizon, tm@, seq![base]));
                return Err(e);
            },
        };
        let r = self.divide_and_put(guard, at, key, val, txn_id, stack);
        proof {
            lemma_splice_again(a.parts(), at@, base);
            let m = split_point::<K>(base.rows);
            let halves = seq![left_of(base, m), right_of(base, m)];
            assert(put_stage::<K>(p, key@, val@, txn_id, horizon, tm@, seq![base]));
            assert(put_stage::<K>(p, key@, val@, txn_id, horizon, tm@, halves));
            assert(put_stage::<K>(p, key@, val@, txn_id, horizon, tm@, goal.0));
        }
        r
    }

    /// Puts the version into the leaf that is held.
    pub(crate) fn place(
        &mut self,
        guard: PageWriteGuard,
        at: Ghost<int>,
        key: &[u8],
        val: &[u8],
        txn_id: u64,
        tm: &TransactionManager,
        stack: Vec<PageId>,
    ) -> (r: Result<(), IndexError>)
        requires
            leaf_ready(*old(self), guard, at@),
            belongs::<K, V>(part_held(*old(self), guard), key@, val@),
            stack_ok::<K>(old(self).shape@, stack@, 0, old(self).shape@.low[guard.page_id]),
            tm@.wf(),
        ensures
            final(self).wf(),
            put_outcome(
                old(self).parts(),
                at@,
                part_held(*old(self), guard),
                key@,
                val@,
                txn_id,
                tm@,
                r,
                *final(self),
            ),
            r is Ok && old(self).rooted() ==> final(self).rooted(),
            stands_firm(*old(self), stack@, r, *final(self)),
            spared(*old(self), *final(self), broke(r)),
            within(old(self).pool, final(self).pool, (stack@.len() + 4) as int),
            put_floor(
                *old(self),
                at@,
                part_held(*old(self), guard),
                key@,
                val@,
                txn_id,
                tm@,
                *final(self),
            ),
    {
        let ghost a = *self;
        let ghost sh = self.shape@;
        let ghost p = part_held(a, guard);
        let ghost before = guard@;
        let ghost goal = placed::<K>(p, key@, val@, txn_id, tm@.global_xmin(), tm@);
        let pid: PageId = guard.page_id;
        let mut guard = guard;
        assert(node_wf::<K, V>(a.pool, sh, 0, at@));
        let tried = self.try_put(&mut guard, key, val, txn_id);
        let ghost b = *self;
        proof {
            lemma_only_logged(a, b);
            assert(held(b.pool, Set::empty().insert(pid), 1));
            assert(b.pool.page(pid) == a.pool.page(pid));
            assert(b.pool.page(0) == a.pool.page(0));
            lemma_same_marks(a, b);
            lemma_under::<K>(key@, p.high);
            lemma_splice_update(a.parts(), at@, p, p, put::<K>(p, key@, val@, txn_id));
            if tried is Ok {
                lemma_put_leaf::<K, V>(before, guard@, sh.low[pid], key@, val@, txn_id);
            }
        }
        match tried {
            Ok(Ok(())) => {
                self.put_back(guard, at);
                Ok(())
            },
            Ok(Err(e)) => {
                self.put_back(guard, at);
                assert(put_stage::<K>(
                    p,
                    key@,
                    val@,
                    txn_id,
                    tm@.global_xmin(),
                    tm@,
                    goal.0,
                ));
                Err(IndexError::Wal(e))
            },
            Err(_) => self.split_and_insert(guard, at, key, val, txn_id, tm, stack),
        }
    }
}

} // verus!
