//! The index: a B+Tree of row versions over the buffer pool.
//!
//! A search goes from the root to a leaf and follows right links where a page was split
//! after its parent was read. Every change is logged, and the log sequence number of its
//! record is stamped on the pages that it changed.

pub mod answers;
pub mod flat;
pub mod floor;
pub mod laws;
pub mod lifecycle;
pub mod ops;
pub mod places;
pub mod range;
pub mod rows;
pub mod run;
pub mod smo;
pub mod stages;
pub mod trail;
pub mod tree;
pub mod vacuum;

use crate::buffer_pool::manager::{
    lemma_storage_chain, pinned, same_contents, same_pins, same_storage, unpinned,
    BufferPoolManager, PageWriteGuard,
};
use crate::error::IndexError;
use crate::index::flat::all_rows;
use crate::index::floor::{
    carried, grounded, lemma_carried, lemma_same_parts, lemma_same_passed, level, steady,
};
use crate::index::rows::{
    covers, first_conflict, first_visible, lemma_skip_rows, lemma_versions_together, seen, shows,
    wait_or_die, write_conflict,
};
use crate::index::run::find_in_run;
use crate::index::trail::{lemma_sound_step, paced, settled, sound, within, Trail};
use crate::index::tree::{
    at_least, before, leaf_parts, lemma_bounds_ordered, lemma_le_chain, lemma_same_view,
    lemma_tree_kept, node_wf, parts_wf, tree_wf, Part, Shape,
};
use crate::page::internal::{child_index, int_view, InternalPageAccessor};
use crate::page::leaf::{
    leaf_view, leaf_wf, lemma_search, rows_sorted, search, LeafPageAccessor, Version,
};
use crate::page::meta::{is_meta, root_of};
use crate::page::{plain, PageId, INTERNAL, LEAF, PAGE_SIZE};
use crate::transaction::Transaction;
use crate::transaction_manager::{TmView, TransactionManager, TransactionStatus};
use crate::types::{key_order, key_same, Key, Value};
use crate::wal::{lemma_log_still, WalView};
use std::marker::PhantomData;
use vstd::prelude::*;

verus! {

/// Bytes of the largest record that the index logs, at most.
pub const LOG_NEED: usize = 16384;

/// A B+Tree of row versions.
pub struct BTreeIndex<K: Key, V: Value> {
    pub pool: BufferPoolManager,
    pub root: PageId,
    pub shape: Ghost<Shape>,
    pub trail: Ghost<Trail>,
    pub _key: PhantomData<K>,
    pub _val: PhantomData<V>,
}

/// The log does not take the records of an index operation.
pub open spec fn log_stuck(w: WalView) -> bool {
    ||| w.error is Some
    ||| w.next == u64::MAX
    ||| w.free < LOG_NEED
    ||| w.capacity < LOG_NEED
    ||| w.segment_size < LOG_NEED
}

/// Exactly the given pages are pinned, once each.
pub open spec fn held(p: BufferPoolManager, s: Set<u64>, n: int) -> bool {
    &&& p.pin_total() == n
    &&& forall|id: u64| #[trigger]
        p.pins(id) == (if s.contains(id) {
            1int
        } else {
            0
        })
}

/// The leaf that the key belongs to.
pub open spec fn cover<K: Key>(parts: Seq<Part>, k: Seq<u8>) -> int {
    choose|i: int| covers::<K>(parts, k, i)
}

/// The value of the first version of the key that the transaction sees, in whatever leaf.
pub open spec fn lookup<K: Key>(
    parts: Seq<Part>,
    k: Seq<u8>,
    txn: Transaction,
    tm: TmView,
) -> Option<Seq<u8>> {
    seen::<K>(all_rows(parts), k, txn, tm)
}

/// A key belongs to one leaf at most.
pub proof fn lemma_cover<K: Key>(parts: Seq<Part>, k: Seq<u8>, i: int)
    requires
        parts_wf::<K>(parts),
        K::accepts(k),
        covers::<K>(parts, k, i),
    ensures
        cover::<K>(parts, k) == i,
{
    let j = cover::<K>(parts, k);
    assert(covers::<K>(parts, k, j));
    if i < j {
        lemma_bounds_ordered::<K>(parts, i, j);
        lemma_le_chain::<K>(k, parts[i].high->0, parts[j].low->0);
    } else if j < i {
        lemma_bounds_ordered::<K>(parts, j, i);
        lemma_le_chain::<K>(k, parts[j].high->0, parts[i].low->0);
    }
}

impl<K: Key, V: Value> BTreeIndex<K, V> {
    /// The tree, the pool and the metadata page are in order, the log keeps up with the
    /// pages, and so does what a crash would leave.
    pub open spec fn tree(&self) -> bool {
        &&& self.pages()
        &&& grounded::<K, V>(self.pool, self.root, self.trail@)
    }

    /// The tree, the pool and the metadata page are in order, and the log keeps up with the
    /// pages.
    pub open spec fn pages(&self) -> bool {
        &&& K::width_fits()
        &&& V::width_fits()
        &&& self.pool.wf()
        &&& 0 < self.pool.next_page_id
        &&& is_meta(self.pool.page(0))
        &&& self.pool.page(0).len() == PAGE_SIZE
        &&& tree_wf::<K, V>(self.pool, self.root, self.shape@)
        &&& sound(self.pool, self.trail@)
    }

    /// The index is in order, and nobody uses a page of it.
    pub open spec fn wf(&self) -> bool {
        &&& self.tree()
        &&& held(self.pool, Set::empty(), 0)
        &&& settled(self.trail@)
    }

    /// The leaves, from left to right.
    pub open spec fn parts(&self) -> Seq<Part> {
        leaf_parts(self.pool, self.shape@)
    }

    /// The metadata page names the root.
    pub open spec fn rooted(&self) -> bool {
        root_of(self.pool.page(0)) == Some(self.root)
    }
}

/// The storage can take an operation that appends up to `n` records and makes up to `n`
/// pages: nothing has failed, every page can be read back, and there are numbers and room in
/// the ring for them.
pub open spec fn fit(p: BufferPoolManager, n: int) -> bool {
    &&& p.able()
    &&& p.next_page_id + n < u64::MAX
    &&& p.wal@.next + n < u64::MAX
    &&& p.wal@.free >= LOG_NEED * (n + 1)
    &&& p.wal@.segment_size >= LOG_NEED
}

/// Storage that was fit for an operation is not what stopped it.
pub proof fn lemma_fit(a: BufferPoolManager, b: BufferPoolManager, n: int)
    requires
        fit(a, n),
        b.wf(),
        a.able() ==> b.able(),
        paced(a.wal@, b.wal@),
        within(a, b, n),
    ensures
        b.able(),
        !b.faulty(),
        !log_stuck(b.wal@),
{
    crate::buffer_pool::manager::lemma_able(b, None);
}

/// What is left of fit storage after an operation is fit for another one.
pub proof fn lemma_still_fit(a: BufferPoolManager, b: BufferPoolManager, n: int, k: int)
    requires
        fit(a, n + k),
        0 <= k,
        a.able() ==> b.able(),
        paced(a.wal@, b.wal@),
        within(a, b, n),
    ensures
        fit(b, k),
{
}

/// Storage that is fit for a long operation is fit for a shorter one.
pub proof fn lemma_fitter(a: BufferPoolManager, n: int, k: int)
    requires
        fit(a, n + k),
        0 <= k,
    ensures
        fit(a, n),
{
}

/// The number of pages on the levels up to `l`.
pub open spec fn nodes(sh: Shape, l: int) -> int
    decreases l + 1,
{
    if l < 0 {
        0
    } else {
        nodes(sh, l - 1) + sh.levels[l].len()
    }
}

/// The records that writing a version takes at most: the splits that are found incomplete
/// are finished first, each with a record on every level above it at most.
pub open spec fn spend(sh: Shape) -> int {
    sh.levels.len() * (nodes(sh, sh.levels.len() - 1) + 1) + 4
}

/// The storage stopped the operation.
pub open spec fn broke<T>(r: Result<T, IndexError>) -> bool {
    r matches Err(e) && (e is BufferPool || e is Wal)
}

/// The step changed no page of the index.
pub open spec fn untouched<K: Key, V: Value>(a: BTreeIndex<K, V>, b: BTreeIndex<K, V>) -> bool {
    &&& b.root == a.root
    &&& b.shape@ == a.shape@
    &&& steady(a, b)
    &&& same_contents(a.pool, b.pool)
    &&& b.pool.next_page_id == a.pool.next_page_id
    &&& same_storage(a.pool, b.pool)
}

/// An untouched index is still in order.
pub proof fn lemma_untouched<K: Key, V: Value>(a: BTreeIndex<K, V>, b: BTreeIndex<K, V>)
    requires
        a.tree(),
        b.pool.wf(),
        untouched(a, b),
        grounded::<K, V>(b.pool, b.root, b.trail@),
    ensures
        b.tree(),
        b.parts() == a.parts(),
        b.rooted() == a.rooted(),
{
    lemma_tree_kept::<K, V>(a.pool, b.pool, a.root, a.shape@);
    lemma_sound_step(a.pool, b.pool, a.trail@);
    assert(b.pool.page(0) == a.pool.page(0));
}

impl<K: Key, V: Value> BTreeIndex<K, V> {
    /// Reads a page.
    pub(crate) fn read(&mut self, pid: PageId) -> (r: Result<Vec<u8>, IndexError>)
        requires
            old(self).tree(),
            level(old(self).pool, old(self).trail@),
            pid < old(self).pool.next_page_id,
            old(self).pool.pins(pid) < u64::MAX,
            old(self).pool.pin_total() < 9,
        ensures
            final(self).tree(),
            untouched(*old(self), *final(self)),
            same_pins(old(self).pool, final(self).pool),
            final(self).parts() == old(self).parts(),
            match r {
                Ok(v) => {
                    &&& v@.len() == PAGE_SIZE
                    &&& plain(v@) == old(self).pool.page(pid)
                },
                Err(e) => e is BufferPool && final(self).pool.faulty(),
            },
    {
        let ghost a = *self;
        let fetched = self.pool.fetch_page(pid);
        self.trail = Ghost(carried(a, self.pool.wal@));
        proof {
            lemma_carried(a, *self);
        }
        let guard = match fetched {
            Ok(g) => g,
            Err(e) => {
                proof {
                    lemma_untouched(a, *self);
                }
                return Err(IndexError::BufferPool(e));
            },
        };
        let ghost m = *self;
        let v: Vec<u8> = vstd::slice::slice_to_vec(guard.memory());
        self.pool.release(guard);
        proof {
            assert forall|id: u64| #[trigger] self.pool.page(id) == a.pool.page(id) by {
                assert(m.pool.page(id) == a.pool.page(id));
            }
            assert forall|id: u64| #[trigger] self.pool.page(id) == m.pool.page(id) by {
                assert(m.pool.page(id) == a.pool.page(id));
            }
            lemma_same_passed(m, *self);
            assert forall|id: u64| #[trigger] self.pool.pins(id) == a.pool.pins(id) by {
                if id != pid {
                    assert(m.pool.pins(id) == a.pool.pins(id));
                }
            }
            lemma_untouched(a, *self);
        }
        Ok(v)
    }
}

/// The page is a leaf whose low key is not above the key.
pub open spec fn on_leaf<K: Key>(sh: Shape, pid: PageId, k: Seq<u8>) -> bool {
    sh.levels[0].contains(pid) && at_least::<K>(k, sh.low[pid])
}

/// The child that a search for the key descends into is on the level below, and its low
/// key is not above the key.
pub proof fn lemma_descend<K: Key, V: Value>(
    p: BufferPoolManager,
    sh: Shape,
    l: int,
    i: int,
    k: Seq<u8>,
    at: int,
) -> (q: int)
    requires
        node_wf::<K, V>(p, sh, l, i),
        0 < l < sh.levels.len(),
        0 <= i < sh.levels[l].len(),
        at_least::<K>(k, sh.low[sh.levels[l][i]]),
        child_index::<K>(int_view(p.page(sh.levels[l][i])).keys, k, at),
    ensures
        0 <= q < sh.levels[l - 1].len(),
        sh.levels[l - 1][q] == int_view(p.page(sh.levels[l][i])).children[at],
        at_least::<K>(k, sh.low[sh.levels[l - 1][q]]),
{
    let v = int_view(p.page(sh.levels[l][i]));
    let child = v.children[at];
    if at > 0 {
        assert(K::le(v.keys[at - 1], k));
        assert(v.children[at - 1 + 1] == child);
    }
    let below = sh.levels[l - 1];
    assert(below.contains(child));
    choose|q: int| 0 <= q < below.len() && below[q] == child
}

impl<K: Key, V: Value> BTreeIndex<K, V> {
    /// Goes from the root down to a leaf where the key may be, or to the right of which.
    pub(crate) fn find_leaf(&mut self, start_pid: PageId, key: &[u8]) -> (r: Result<PageId, IndexError>)
        requires
            old(self).wf(),
            start_pid == old(self).root,
            K::accepts(key@),
        ensures
            final(self).wf(),
            untouched(*old(self), *final(self)),
            final(self).parts() == old(self).parts(),
            match r {
                Ok(pid) => on_leaf::<K>(final(self).shape@, pid, key@),
                Err(e) => e is BufferPool && final(self).pool.faulty(),
            },
    {
        let ghost sh = self.shape@;
        let ghost mut l: int = sh.levels.len() - 1;
        let ghost mut i: int = 0;
        let mut pid: PageId = start_pid;
        assert(node_wf::<K, V>(self.pool, sh, l, 0));
        loop
            invariant
                self.wf(),
                untouched(*old(self), *self),
                self.parts() == old(self).parts(),
                sh == self.shape@,
                K::accepts(key@),
                0 <= l < sh.levels.len(),
                0 <= i < sh.levels[l].len(),
                pid == sh.levels[l][i],
                at_least::<K>(key@, sh.low[pid]),
            decreases l, sh.levels[l].len() - i,
        {
            let ghost here = *self;
            assert(node_wf::<K, V>(self.pool, sh, l, i));
            let page: Vec<u8> = match self.read(pid) {
                Ok(p) => p,
                Err(e) => {
                    proof {
                        lemma_read_chain(*old(self), here, *self);
                    }
                    return Err(e);
                },
            };
            proof {
                lemma_read_chain(*old(self), here, *self);
                lemma_same_view(page@);
                assert(node_wf::<K, V>(self.pool, sh, l, i));
            }
            let kind: u8 = page[0];
            if kind == INTERNAL {
                let acc = InternalPageAccessor::<K>::new(page.as_slice());
                if let Some(hk) = acc.high_key_bytes() {
                    if key_order::<K>(key, hk) >= 0 {
                        match acc.rightlink() {
                            Some(right) => {
                                proof {
                                    K::le_total(hk@, key@);
                                    i = i + 1;
                                }
                                pid = right;
                                continue;
                            },
                            None => {
                                assert(false);
                                return Err(IndexError::CorruptMetadata);
                            },
                        }
                    }
                }
                let (at, child) = acc.find_child_bytes(key);
                proof {
                    let q = lemma_descend::<K, V>(self.pool, sh, l, i, key@, at as int);
                    l = l - 1;
                    i = q;
                }
                pid = child;
            } else if kind == LEAF {
                assert(l == 0);
                assert(sh.levels[0].contains(pid));
                return Ok(pid);
            } else {
                return Err(IndexError::UnexpectedPageType { expected: LEAF, found: kind });
            }
        }
    }

    /// Goes down the left edge of the tree to the leftmost leaf.
    pub(crate) fn find_leftmost_leaf(&mut self, start_pid: PageId) -> (r: Result<PageId, IndexError>)
        requires
            old(self).wf(),
            start_pid == old(self).root,
        ensures
            final(self).wf(),
            untouched(*old(self), *final(self)),
            final(self).parts() == old(self).parts(),
            match r {
                Ok(pid) => pid == final(self).shape@.levels[0][0],
                Err(e) => e is BufferPool && final(self).pool.faulty(),
            },
    {
        let ghost sh = self.shape@;
        let ghost mut l: int = sh.levels.len() - 1;
        let mut pid: PageId = start_pid;
        loop
            invariant
                self.wf(),
                untouched(*old(self), *self),
                self.parts() == old(self).parts(),
                sh == self.shape@,
                0 <= l < sh.levels.len(),
                0 < sh.levels[l].len(),
                pid == sh.levels[l][0],
            decreases l,
        {
            let ghost here = *self;
            assert(node_wf::<K, V>(self.pool, sh, l, 0));
            let page: Vec<u8> = match self.read(pid) {
                Ok(p) => p,
                Err(e) => {
                    proof {
                        lemma_read_chain(*old(self), here, *self);
                    }
                    return Err(e);
                },
            };
            proof {
                lemma_read_chain(*old(self), here, *self);
                lemma_same_view(page@);
                assert(node_wf::<K, V>(self.pool, sh, l, 0));
            }
            let kind: u8 = page[0];
            if kind == INTERNAL {
                let child: PageId = InternalPageAccessor::<K>::new(page.as_slice()).child_page_at(0);
                proof {
                    lemma_leftmost_child::<K, V>(self.pool, self.root, sh, l);
                    l = l - 1;
                    assert(sh.levels[l].len() > 0);
                }
                pid = child;
            } else if kind == LEAF {
                return Ok(pid);
            } else {
                return Err(IndexError::UnexpectedPageType { expected: LEAF, found: kind });
            }
        }
    }
}

/// The first of the rows with the key, where row `start` is one of them.
pub(crate) fn first_duplicate<K: Key, V: Value>(
    acc: &LeafPageAccessor<'_, K, V>,
    key: &[u8],
    start: usize,
) -> (first: usize)
    requires
        acc.typed(),
        rows_sorted::<K>(acc.leaf().rows),
        K::accepts(key@),
        start < acc.leaf().rows.len(),
        key_same::<K>(acc.leaf().rows[start as int].key, key@),
    ensures
        first <= start,
        forall|a: int|
            0 <= a < first ==> !key_same::<K>(#[trigger] acc.leaf().rows[a].key, key@),
        forall|a: int|
            first <= a <= start ==> key_same::<K>(#[trigger] acc.leaf().rows[a].key, key@),
{
    let ghost rows = acc.leaf().rows;
    let mut first: usize = start;
    while first > 0
        invariant
            acc.typed(),
            rows == acc.leaf().rows,
            K::accepts(key@),
            first <= start < rows.len(),
            forall|a: int| first <= a <= start ==> key_same::<K>(#[trigger] rows[a].key, key@),
        ensures
            first > 0 ==> !key_same::<K>(rows[first - 1].key, key@),
        decreases first,
    {
        if key_order::<K>(acc.key_bytes_at(first - 1), key) != 0 {
            break;
        }
        first = first - 1;
    }
    proof {
        if first > 0 {
            assert(K::le(rows[first - 1].key, rows[first as int].key));
            lemma_le_chain::<K>(rows[first - 1].key, rows[first as int].key, key@);
            lemma_versions_together::<K>(rows, key@, first - 1);
        }
    }
    first
}

/// The slot of the first version of the key that the transaction sees.
pub(crate) fn find_visible_slot<K: Key, V: Value>(
    acc: &LeafPageAccessor<'_, K, V>,
    key: &[u8],
    txn: &Transaction,
    tm: &TransactionManager,
) -> (r: Option<usize>)
    requires
        acc.typed(),
        rows_sorted::<K>(acc.leaf().rows),
        K::accepts(key@),
    ensures
        match r {
            Some(slot) => first_visible::<K>(acc.leaf().rows, key@, *txn, tm@, 0) == Some(
                slot as int,
            ) && slot < acc.leaf().rows.len() && shows::<K>(
                acc.leaf().rows[slot as int],
                key@,
                *txn,
                tm@,
            ),
            None => first_visible::<K>(acc.leaf().rows, key@, *txn, tm@, 0) is None,
        },
{
    let ghost rows = acc.leaf().rows;
    let (start, found) = acc.position_bytes(key);
    proof {
        lemma_search::<K>(rows, key@, 0, rows.len() as int);
    }
    if !found {
        proof {
            lemma_skip_rows::<K>(rows, key@, *txn, tm@, 0, rows.len() as int);
        }
        return None;
    }
    let first: usize = first_duplicate(acc, key, start);
    proof {
        lemma_skip_rows::<K>(rows, key@, *txn, tm@, 0, first as int);
    }
    let n: usize = acc.num_pairs() as usize;
    let mut i: usize = first;
    while i < n
        invariant
            acc.typed(),
            rows == acc.leaf().rows,
            rows_sorted::<K>(rows),
            K::accepts(key@),
            n == rows.len(),
            first <= start < n,
            first <= i <= n,
            key_same::<K>(rows[start as int].key, key@),
            forall|a: int| first <= a < i ==> key_same::<K>(#[trigger] rows[a].key, key@),
            first_visible::<K>(rows, key@, *txn, tm@, 0) == first_visible::<K>(
                rows,
                key@,
                *txn,
                tm@,
                i as int,
            ),
            forall|a: int| first <= a <= start ==> key_same::<K>(#[trigger] rows[a].key, key@),
        decreases n - i,
    {
        if key_order::<K>(acc.key_bytes_at(i), key) != 0 {
            proof {
                lemma_past_run::<K>(rows, key@, start as int, i as int);
                lemma_skip_rows::<K>(rows, key@, *txn, tm@, i as int, n as int);
            }
            return None;
        }
        if txn.is_visible(acc.get_xmin(i), acc.get_xmax(i), tm) {
            return Some(i);
        }
        i = i + 1;
    }
    None
}

/// Behind a version of the key, from the first other key on, there is no version of it.
proof fn lemma_past_run<K: Key>(rows: Seq<Version>, k: Seq<u8>, start: int, i: int)
    requires
        rows_sorted::<K>(rows),
        forall|a: int| 0 <= a < rows.len() ==> K::accepts(#[trigger] rows[a].key),
        K::accepts(k),
        0 <= start < rows.len(),
        0 <= i < rows.len(),
        key_same::<K>(rows[start].key, k),
        !key_same::<K>(rows[i].key, k),
        forall|a: int| i <= a <= start ==> key_same::<K>(#[trigger] rows[a].key, k),
    ensures
        forall|a: int| i <= a < rows.len() ==> !key_same::<K>(#[trigger] rows[a].key, k),
{
    if i <= start {
        assert(key_same::<K>(rows[i].key, k));
    }
    assert(K::le(rows[start].key, rows[i].key));
    lemma_le_chain::<K>(k, rows[start].key, rows[i].key);
    lemma_versions_together::<K>(rows, k, i);
}

/// Checks whether the versions of the key allow to insert it.
pub(crate) fn check_insert_conflict<K: Key, V: Value>(
    acc: &LeafPageAccessor<'_, K, V>,
    start_slot: usize,
    key: &[u8],
    txn: &Transaction,
    tm: &TransactionManager,
) -> (r: Result<(), IndexError>)
    requires
        acc.typed(),
        rows_sorted::<K>(acc.leaf().rows),
        K::accepts(key@),
        start_slot < acc.leaf().rows.len(),
        key_same::<K>(acc.leaf().rows[start_slot as int].key, key@),
    ensures
        match r {
            Ok(()) => first_conflict::<K>(acc.leaf().rows, key@, *txn, tm@, 0) is None,
            Err(e) => first_conflict::<K>(acc.leaf().rows, key@, *txn, tm@, 0) == Some(e),
        },
{
    let ghost rows = acc.leaf().rows;
    let first: usize = first_duplicate(acc, key, start_slot);
    proof {
        lemma_skip_rows::<K>(rows, key@, *txn, tm@, 0, first as int);
    }
    let n: usize = acc.num_pairs() as usize;
    let mut i: usize = first;
    while i < n
        invariant
            acc.typed(),
            rows == acc.leaf().rows,
            rows_sorted::<K>(rows),
            K::accepts(key@),
            n == rows.len(),
            first <= start_slot < n,
            first <= i <= n,
            key_same::<K>(rows[start_slot as int].key, key@),
            first_conflict::<K>(rows, key@, *txn, tm@, 0) == first_conflict::<K>(
                rows,
                key@,
                *txn,
                tm@,
                i as int,
            ),
            forall|a: int| first <= a <= start_slot ==> key_same::<K>(#[trigger] rows[a].key, key@),
        decreases n - i,
    {
        if key_order::<K>(acc.key_bytes_at(i), key) != 0 {
            proof {
                lemma_past_run::<K>(rows, key@, start_slot as int, i as int);
                lemma_skip_rows::<K>(rows, key@, *txn, tm@, i as int, n as int);
            }
            return Ok(());
        }
        let xmin: u64 = acc.get_xmin(i);
        let xmax: u64 = acc.get_xmax(i);
        if xmin != txn.txn_id && txn.is_in_progress(xmin, tm) {
            return Err(IndexError::WaitFor(xmin));
        }
        if txn.is_visible(xmin, xmax, tm) {
            return Err(IndexError::DuplicateKey);
        }
        if tm.settled_status(xmin) == TransactionStatus::Committed && !(xmax != 0 && (xmax
            == txn.txn_id || tm.settled_status(xmax) == TransactionStatus::Committed)) {
            return Err(IndexError::DuplicateKey);
        }
        if xmax != 0 && xmax != txn.txn_id && txn.is_in_progress(xmax, tm) {
            return Err(IndexError::WaitFor(xmax));
        }
        i = i + 1;
    }
    Ok(())
}

/// Checks whether the transaction may delete a version that it sees.
pub(crate) fn check_write_conflict(rec_xmax: u64, txn: &Transaction, tm: &TransactionManager) -> (r: Result<
    (),
    IndexError,
>)
    ensures
        match r {
            Ok(()) => write_conflict(rec_xmax, *txn, tm@) is None,
            Err(e) => write_conflict(rec_xmax, *txn, tm@) == Some(e),
        },
{
    if rec_xmax == 0 || rec_xmax == txn.txn_id {
        return Ok(());
    }
    if txn.is_in_progress(rec_xmax, tm) {
        return Err(IndexError::WaitFor(rec_xmax));
    }
    if tm.settled_status(rec_xmax) == TransactionStatus::Committed {
        return Err(IndexError::WriteConflict);
    }
    Ok(())
}

/// What a transaction that met a conflict is told. One that is younger than the one it
/// would wait for dies; an older one waits and tries again.
pub(crate) fn wait_for_txn(e: IndexError, my_txn_id: u64) -> (out: IndexError)
    ensures
        out == wait_or_die(e, my_txn_id),
{
    match e {
        IndexError::WaitFor(blocking_txn) => if my_txn_id > blocking_txn {
            IndexError::WriteConflict
        } else {
            e
        },
        _ => e,
    }
}

/// Two steps that touched nothing touch nothing together.
pub proof fn lemma_read_chain<K: Key, V: Value>(
    a: BTreeIndex<K, V>,
    b: BTreeIndex<K, V>,
    c: BTreeIndex<K, V>,
)
    requires
        untouched(a, b),
        untouched(b, c),
        same_pins(b.pool, c.pool),
    ensures
        untouched(a, c),
        forall|s: Set<u64>, n: int| #[trigger] held(b.pool, s, n) ==> held(c.pool, s, n),
{
    assert forall|id: u64| #[trigger] c.pool.page(id) == a.pool.page(id) by {
        assert(b.pool.page(id) == a.pool.page(id));
    }
    lemma_storage_chain(a.pool, b.pool, c.pool);
    lemma_same_parts(a, b);
    assert forall|s: Set<u64>, n: int| #[trigger] held(b.pool, s, n) implies held(
        c.pool,
        s,
        n,
    ) by {
        assert forall|id: u64| #[trigger]
            c.pool.pins(id) == (if s.contains(id) {
                1int
            } else {
                0
            }) by {
            assert(c.pool.pins(id) == b.pool.pins(id));
        }
    }
}

/// Only the leftmost page of a level has no low key, so the first child of the leftmost
/// page is the leftmost of its level.
pub proof fn lemma_leftmost_child<K: Key, V: Value>(
    p: BufferPoolManager,
    root: PageId,
    sh: Shape,
    l: int,
)
    requires
        tree_wf::<K, V>(p, root, sh),
        0 < l < sh.levels.len(),
    ensures
        int_view(p.page(sh.levels[l][0])).children[0] == sh.levels[l - 1][0],
{
    assert(sh.levels[l].len() > 0);
    assert(node_wf::<K, V>(p, sh, l, 0));
    let child = int_view(p.page(sh.levels[l][0])).children[0];
    let below = sh.levels[l - 1];
    assert(below.contains(child));
    let q = choose|q: int| 0 <= q < below.len() && below[q] == child;
    if q > 0 {
        assert(node_wf::<K, V>(p, sh, l - 1, q - 1));
    }
}

/// Pinning a page that was not pinned.
pub proof fn lemma_hold(a: BufferPoolManager, b: BufferPoolManager, s: Set<u64>, n: int, id: u64)
    requires
        held(a, s, n),
        !s.contains(id),
        pinned(a, b, id),
    ensures
        held(b, s.insert(id), n + 1),
{
    assert forall|x: u64| #[trigger]
        b.pins(x) == (if s.insert(id).contains(x) {
            1int
        } else {
            0
        }) by {
        if x != id {
            assert(b.pins(x) == a.pins(x));
        } else {
            assert(a.pins(id) == 0);
        }
    }
}

/// Releasing a page.
pub proof fn lemma_unhold(a: BufferPoolManager, b: BufferPoolManager, s: Set<u64>, n: int, id: u64)
    requires
        held(a, s, n),
        s.contains(id),
        unpinned(a, b, id),
    ensures
        held(b, s.remove(id), n - 1),
{
    assert forall|x: u64| #[trigger]
        b.pins(x) == (if s.remove(id).contains(x) {
            1int
        } else {
            0
        }) by {
        if x != id {
            assert(b.pins(x) == a.pins(x));
        } else {
            assert(a.pins(id) == 1);
        }
    }
}

/// A page of the tree is held for writing.
pub open spec fn holds_leaf<K: Key, V: Value>(
    t: BTreeIndex<K, V>,
    g: PageWriteGuard,
    i: int,
) -> bool {
    &&& t.tree()
    &&& settled(t.trail@)
    &&& held(t.pool, Set::empty().insert(g.page_id), 1)
    &&& 0 <= i < t.shape@.levels[0].len()
    &&& t.shape@.levels[0][i] == g.page_id
    &&& g@.len() == PAGE_SIZE
    &&& plain(g@) == t.pool.page(g.page_id)
    &&& leaf_wf(g@)
    &&& leaf_view(g@) == leaf_view(t.pool.page(g.page_id))
}

impl<K: Key, V: Value> BTreeIndex<K, V> {
    /// From a leaf that the key is not left of, goes right to the leaf that the key
    /// belongs to, and reads it.
    pub(crate) fn settle(&mut self, start: PageId, key: &[u8]) -> (r: Result<
        (Vec<u8>, PageId, Ghost<int>),
        IndexError,
    >)
        requires
            old(self).wf(),
            K::accepts(key@),
            on_leaf::<K>(old(self).shape@, start, key@),
        ensures
            final(self).wf(),
            untouched(*old(self), *final(self)),
            final(self).parts() == old(self).parts(),
            match r {
                Ok((page, pid, at)) => {
                    &&& final(self).shape@.levels[0][at@] == pid
                    &&& covers::<K>(final(self).parts(), key@, at@)
                    &&& leaf_wf(page@)
                    &&& leaf_view(page@).rows == final(self).parts()[at@].rows
                    &&& leaf_view(page@).high == final(self).parts()[at@].high
                    &&& leaf_view(page@).prev == before(final(self).shape@.levels[0], at@)
                    &&& leaf_view(page@).right == (if at@ + 1 < final(self).parts().len() {
                        Some(final(self).shape@.levels[0][at@ + 1])
                    } else {
                        None
                    })
                },
                Err(e) => e is BufferPool && final(self).pool.faulty(),
            },
    {
        let ghost sh = self.shape@;
        let ghost chain = sh.levels[0];
        let ghost mut i: int = choose|q: int| 0 <= q < chain.len() && chain[q] == start;
        let mut pid: PageId = start;
        loop
            invariant
                self.wf(),
                untouched(*old(self), *self),
                self.parts() == old(self).parts(),
                sh == self.shape@,
                chain == sh.levels[0],
                K::accepts(key@),
                0 <= i < chain.len(),
                pid == chain[i],
                at_least::<K>(key@, sh.low[pid]),
            decreases chain.len() - i,
        {
            let ghost here = *self;
            assert(node_wf::<K, V>(self.pool, sh, 0, i));
            let page: Vec<u8> = match self.read(pid) {
                Ok(p) => p,
                Err(e) => {
                    proof {
                        lemma_read_chain(*old(self), here, *self);
                    }
                    return Err(e);
                },
            };
            proof {
                lemma_read_chain(*old(self), here, *self);
                lemma_same_view(page@);
                assert(node_wf::<K, V>(self.pool, sh, 0, i));
            }
            let acc = LeafPageAccessor::<K, V>::new(page.as_slice());
            let mut next: Option<PageId> = None;
            if let Some(hk) = acc.high_key_bytes() {
                if key_order::<K>(key, hk) >= 0 {
                    proof {
                        K::le_total(hk@, key@);
                    }
                    next = acc.rightlink();
                }
            }
            match next {
                Some(right) => {
                    proof {
                        i = i + 1;
                    }
                    pid = right;
                },
                None => {
                    assert(covers::<K>(self.parts(), key@, i));
                    return Ok((page, pid, Ghost(i)));
                },
            }
        }
    }

    /// From a leaf that the key is not left of, goes right to the leaf that the key
    /// belongs to, and holds it for writing.
    pub(crate) fn settle_mut(&mut self, start: PageId, key: &[u8]) -> (r: Result<
        (PageWriteGuard, Ghost<int>),
        IndexError,
    >)
        requires
            old(self).wf(),
            K::accepts(key@),
            on_leaf::<K>(old(self).shape@, start, key@),
        ensures
            untouched(*old(self), *final(self)),
            final(self).parts() == old(self).parts(),
            match r {
                Ok((g, at)) => {
                    &&& holds_leaf(*final(self), g, at@)
                    &&& !g.dirty
                    &&& covers::<K>(final(self).parts(), key@, at@)
                },
                Err(e) => final(self).wf() && e is BufferPool && final(self).pool.faulty(),
            },
    {
        let ghost sh = self.shape@;
        let ghost chain = sh.levels[0];
        let ghost mut i: int = choose|q: int| 0 <= q < chain.len() && chain[q] == start;
        let mut pid: PageId = start;
        loop
            invariant
                self.wf(),
                old(self).tree(),
                untouched(*old(self), *self),
                self.parts() == old(self).parts(),
                sh == self.shape@,
                chain == sh.levels[0],
                K::accepts(key@),
                0 <= i < chain.len(),
                pid == chain[i],
                at_least::<K>(key@, sh.low[pid]),
            decreases chain.len() - i,
        {
            let ghost here = *self;
            assert(node_wf::<K, V>(self.pool, sh, 0, i));
            let fetched = self.pool.fetch_page_mut(pid);
            self.trail = Ghost(carried(here, self.pool.wal@));
            proof {
                lemma_carried(here, *self);
            }
            let guard = match fetched {
                Ok(g) => g,
                Err(e) => {
                    proof {
                        lemma_untouched(here, *self);
                        lemma_read_chain(*old(self), here, *self);
                        assert(held(here.pool, Set::empty(), 0));
                    }
                    return Err(IndexError::BufferPool(e));
                },
            };
            let ghost mid = *self;
            proof {
                lemma_untouched(here, mid);
                lemma_steps(*old(self), here, mid);
                lemma_hold(here.pool, mid.pool, Set::empty(), 0, pid);
                lemma_same_view(guard@);
                assert(node_wf::<K, V>(mid.pool, sh, 0, i));
                assert(mid.pool.page(pid) == here.pool.page(pid));
            }
            let acc = LeafPageAccessor::<K, V>::new(guard.memory());
            let mut next: Option<PageId> = None;
            if let Some(hk) = acc.high_key_bytes() {
                if key_order::<K>(key, hk) >= 0 {
                    proof {
                        K::le_total(hk@, key@);
                    }
                    next = acc.rightlink();
                }
            }
            match next {
                Some(right) => {
                    self.pool.release_mut(guard);
                    proof {
                        assert forall|id: u64| #[trigger] self.pool.page(id)
                            == old(self).pool.page(id) by {
                            assert(here.pool.page(id) == old(self).pool.page(id));
                            assert(mid.pool.page(id) == here.pool.page(id));
                        }
                        assert forall|id: u64| #[trigger] self.pool.page(id) == mid.pool.page(
                            id,
                        ) by {
                            assert(mid.pool.page(id) == here.pool.page(id));
                            assert(here.pool.page(id) == old(self).pool.page(id));
                        }
                        lemma_same_passed(mid, *self);
                        lemma_log_still(mid.pool.wal@);
                        lemma_steps(*old(self), mid, *self);
                        lemma_unhold(mid.pool, self.pool, Set::empty().insert(pid), 1, pid);
                        assert(Set::<u64>::empty().insert(pid).remove(pid) =~= Set::empty());
                        lemma_untouched(*old(self), *self);
                        i = i + 1;
                    }
                    pid = right;
                },
                None => {
                    proof {
                        assert forall|id: u64| #[trigger] self.pool.page(id)
                            == old(self).pool.page(id) by {
                            assert(here.pool.page(id) == old(self).pool.page(id));
                        }
                        lemma_untouched(*old(self), *self);
                        assert(covers::<K>(self.parts(), key@, i));
                    }
                    return Ok((guard, Ghost(i)));
                },
            }
        }
    }

    /// The value of the key that the transaction sees.
    pub fn get(&mut self, key: &K::SelfType<'_>, txn: &Transaction, tm: &TransactionManager) -> (r:
        Result<Option<Vec<u8>>, IndexError>)
        requires
            old(self).wf(),
            K::encodable(K::model(*key)),
        ensures
            final(self).wf(),
            untouched(*old(self), *final(self)),
            final(self).parts() == old(self).parts(),
            match r {
                Ok(v) => bytes_of(v) == lookup::<K>(
                    old(self).parts(),
                    K::encode(K::model(*key)),
                    *txn,
                    tm@,
                ),
                Err(e) => e is BufferPool && final(self).pool.faulty(),
            },
            fit(old(self).pool, 0) ==> r is Ok && final(self).pool.able(),
    {
        let ghost a = *self;
        let r = self.look_up(key, txn, tm);
        proof {
            if fit(a.pool, 0) {
                lemma_fit(a.pool, self.pool, 0);
            }
        }
        r
    }

    /// Searches the leaves that may hold the key.
    fn look_up(&mut self, key: &K::SelfType<'_>, txn: &Transaction, tm: &TransactionManager) -> (r:
        Result<Option<Vec<u8>>, IndexError>)
        requires
            old(self).wf(),
            K::encodable(K::model(*key)),
        ensures
            final(self).wf(),
            untouched(*old(self), *final(self)),
            final(self).parts() == old(self).parts(),
            match r {
                Ok(v) => bytes_of(v) == lookup::<K>(
                    old(self).parts(),
                    K::encode(K::model(*key)),
                    *txn,
                    tm@,
                ),
                Err(e) => e is BufferPool && final(self).pool.faulty(),
            },
    {
        let key_bytes: Vec<u8> = K::as_bytes(key);
        proof {
            K::decode_of_encode(K::model(*key));
        }
        let (run, at) = match self.run_of(key_bytes.as_slice()) {
            Ok(p) => p,
            Err(e) => {
                return Err(e);
            },
        };
        match find_in_run(self, &run, at, key_bytes.as_slice(), txn, tm) {
            Some((n, slot)) => {
                let acc = LeafPageAccessor::<K, V>::new(run[n].page.as_slice());
                let value: Vec<u8> = vstd::slice::slice_to_vec(acc.value_bytes_at(slot));
                Ok(Some(value))
            },
            None => Ok(None),
        }
    }
}

/// The bytes, where there are any.
pub open spec fn bytes_of(v: Option<Vec<u8>>) -> Option<Seq<u8>> {
    match v {
        Some(b) => Some(b@),
        None => None,
    }
}

/// A step that touched nothing is not stopped by storage that was fit.
pub proof fn lemma_untouched_fit<K: Key, V: Value>(a: BTreeIndex<K, V>, b: BTreeIndex<K, V>)
    requires
        untouched(a, b),
        b.pool.wf(),
    ensures
        fit(a.pool, 0) ==> b.pool.able() && !b.pool.faulty(),
{
    if fit(a.pool, 0) {
        assert(b.pool.able_but(None));
        lemma_fit(a.pool, b.pool, 0);
    }
}

/// Two steps that touched nothing touch nothing together.
pub proof fn lemma_steps<K: Key, V: Value>(
    a: BTreeIndex<K, V>,
    b: BTreeIndex<K, V>,
    c: BTreeIndex<K, V>,
)
    requires
        untouched(a, b),
        untouched(b, c),
    ensures
        untouched(a, c),
{
    assert forall|id: u64| #[trigger] c.pool.page(id) == a.pool.page(id) by {
        assert(b.pool.page(id) == a.pool.page(id));
    }
    lemma_storage_chain(a.pool, b.pool, c.pool);
    lemma_same_parts(a, b);
}

} // verus!
