//! The leaves that may hold a key. Versions of one key may fill more than one leaf; they then
//! stand in leaves next to each other, the last of which is the one that the key belongs to.

use crate::error::IndexError;
use crate::index::flat::{
    all_rows, leaf_of, lemma_around, lemma_concat, lemma_conflict_concat, lemma_row_at,
    lemma_row_of, lemma_visible_concat, row_count, slot_of,
};
use crate::index::laws::parts_sorted;
use crate::index::rows::{covers, first_conflict, first_visible, lemma_skip_rows, shows};
use crate::index::tree::{
    before, good_bounds, good_rows, lemma_bounds_ordered, lemma_le_chain, lemma_parts_wf,
    lemma_same_view, node_wf, Part,
};
use crate::index::{
    check_insert_conflict, find_visible_slot, lemma_read_chain, lemma_steps, untouched, BTreeIndex,
};
use crate::page::leaf::{leaf_view, leaf_wf, lemma_search, LeafPageAccessor};
use crate::page::{PageId, PAGE_SIZE};
use crate::transaction::Transaction;
use crate::transaction_manager::TransactionManager;
use crate::types::{key_before, key_order, key_same, Key, Value};
use vstd::prelude::*;

verus! {

/// The first of the leaves up to leaf `i` that may hold the key.
pub open spec fn run_first<K: Key>(parts: Seq<Part>, k: Seq<u8>, i: int) -> int
    decreases i,
{
    if i > 0 && (parts[i - 1].high matches Some(h) && key_same::<K>(h, k)) {
        run_first::<K>(parts, k, i - 1)
    } else {
        i
    }
}

/// A leaf of the index, copied.
pub(crate) struct LeafCopy {
    pub pid: PageId,
    pub page: Vec<u8>,
}

/// The copy is that of leaf `i`.
pub(crate) open spec fn copied<K: Key, V: Value>(t: BTreeIndex<K, V>, c: LeafCopy, i: int) -> bool {
    &&& 0 <= i < t.parts().len()
    &&& t.shape@.levels[0][i] == c.pid
    &&& c.page@.len() == PAGE_SIZE
    &&& leaf_wf(c.page@)
    &&& leaf_view(c.page@).rows == t.parts()[i].rows
    &&& leaf_view(c.page@).prev == before(t.shape@.levels[0], i)
}

/// The leaves that may hold the key, from leaf `at` to the left.
pub(crate) open spec fn run_copied<K: Key, V: Value>(
    t: BTreeIndex<K, V>,
    run: Seq<LeafCopy>,
    at: int,
    k: Seq<u8>,
) -> bool {
    &&& covers::<K>(t.parts(), k, at)
    &&& run.len() > 0
    &&& at - run.len() + 1 == run_first::<K>(t.parts(), k, at)
    &&& forall|n: int| 0 <= n < run.len() ==> copied(t, #[trigger] run[n], at - n)
}

/// The first leaf that may hold the key is not behind the one it belongs to.
pub proof fn lemma_run_first<K: Key>(parts: Seq<Part>, k: Seq<u8>, i: int)
    requires
        0 <= i < parts.len(),
    ensures
        0 <= run_first::<K>(parts, k, i) <= i,
        ({
            let f = run_first::<K>(parts, k, i);
            &&& f > 0 ==> !(parts[f - 1].high matches Some(h) && key_same::<K>(h, k))
            &&& forall|j: int|
                f <= j < i ==> ((#[trigger] parts[j]).high matches Some(h) && key_same::<K>(h, k))
        }),
    decreases i,
{
    if i > 0 && (parts[i - 1].high matches Some(h) && key_same::<K>(h, k)) {
        lemma_run_first::<K>(parts, k, i - 1);
    }
}

/// No version of the key is in a leaf before the first that may hold it.
pub proof fn lemma_before_run<K: Key, V: Value>(parts: Seq<Part>, k: Seq<u8>, at: int)
    requires
        parts_sorted::<K, V>(parts),
        K::accepts(k),
        covers::<K>(parts, k, at),
    ensures
        ({
            let rows = all_rows(parts.take(run_first::<K>(parts, k, at)));
            forall|x: int| 0 <= x < rows.len() ==> key_before::<K>((#[trigger] rows[x]).key, k)
        }),
{
    let f = run_first::<K>(parts, k, at);
    let some = parts.take(f);
    let rows = all_rows(some);
    lemma_run_first::<K>(parts, k, at);
    assert forall|x: int| 0 <= x < rows.len() implies key_before::<K>((#[trigger] rows[x]).key, k) by {
        lemma_row_of(some, x);
        let j = leaf_of(some, x);
        let s = slot_of(some, x);
        assert(some[j] == parts[j]);
        let r = parts[j].rows[s];
        assert(good_rows::<K, V>(parts[j].rows, parts[j].low, parts[j].high));
        assert(good_bounds::<K>(parts[j].low, parts[j].high));
        assert(good_bounds::<K>(parts[f - 1].low, parts[f - 1].high));
        assert(parts[j].high is Some && parts[f - 1].high is Some);
        let h = parts[f - 1].high->0;
        assert(K::le(r.key, parts[j].high->0));
        if j < f - 1 {
            lemma_bounds_ordered::<K>(parts, j, f - 1);
            assert(parts[f - 1].low is Some);
            lemma_le_chain::<K>(parts[j].high->0, parts[f - 1].low->0, h);
            lemma_le_chain::<K>(r.key, parts[j].high->0, h);
        }
        // The bound in front of the first leaf is not above the key.
        lemma_bounds_ordered::<K>(parts, f - 1, at);
        lemma_le_chain::<K>(h, parts[at].low->0, k);
        K::le_total(h, k);
        lemma_le_chain::<K>(r.key, h, k);
    }
}

/// No version of the key is in a leaf behind the one that it belongs to.
pub proof fn lemma_behind_run<K: Key, V: Value>(parts: Seq<Part>, k: Seq<u8>, at: int)
    requires
        parts_sorted::<K, V>(parts),
        K::accepts(k),
        covers::<K>(parts, k, at),
    ensures
        ({
            let rows = all_rows(parts.skip(at + 1));
            forall|x: int| 0 <= x < rows.len() ==> !key_same::<K>((#[trigger] rows[x]).key, k)
        }),
{
    let some = parts.skip(at + 1);
    let rows = all_rows(some);
    assert forall|x: int| 0 <= x < rows.len() implies !key_same::<K>((#[trigger] rows[x]).key, k) by {
        lemma_row_of(some, x);
        let j = at + 1 + leaf_of(some, x);
        let s = slot_of(some, x);
        assert(some[leaf_of(some, x)] == parts[j]);
        let r = parts[j].rows[s];
        assert(good_rows::<K, V>(parts[j].rows, parts[j].low, parts[j].high));
        assert(good_bounds::<K>(parts[j].low, parts[j].high));
        assert(good_bounds::<K>(parts[at].low, parts[at].high));
        lemma_bounds_ordered::<K>(parts, at, j);
        lemma_le_chain::<K>(parts[at].high->0, parts[j].low->0, r.key);
        lemma_le_chain::<K>(k, parts[at].high->0, r.key);
    }
}

impl<K: Key, V: Value> BTreeIndex<K, V> {
    /// The leaves that may hold the key, from the one that it belongs to to the left.
    pub(crate) fn run_of(&mut self, key: &[u8]) -> (r: Result<
        (Vec<LeafCopy>, Ghost<int>),
        IndexError,
    >)
        requires
            old(self).wf(),
            K::accepts(key@),
        ensures
            final(self).wf(),
            untouched(*old(self), *final(self)),
            final(self).parts() == old(self).parts(),
            match r {
                Ok((run, at)) => run_copied(*final(self), run@, at@, key@),
                Err(e) => e is BufferPool && final(self).pool.faulty(),
            },
    {
        let ghost a = *self;
        let root: PageId = self.root;
        let leaf: PageId = match self.find_leaf(root, key) {
            Ok(p) => p,
            Err(e) => {
                return Err(e);
            },
        };
        let ghost b = *self;
        let settled = self.settle(leaf, key);
        proof {
            lemma_steps(a, b, *self);
        }
        let (page, pid, at) = match settled {
            Ok(p) => p,
            Err(e) => {
                return Err(e);
            },
        };
        let ghost sh = self.shape@;
        let ghost parts = self.parts();
        proof {
            assert(node_wf::<K, V>(self.pool, sh, 0, at@));
        }
        let mut left: Option<PageId> = LeafPageAccessor::<K, V>::new(page.as_slice()).prev_page();
        let mut run: Vec<LeafCopy> = Vec::new();
        run.push(LeafCopy { pid, page });
        loop
            invariant
                self.wf(),
                a == *old(self),
                parts == old(self).parts(),
                untouched(a, *self),
                K::accepts(key@),
                sh == self.shape@,
                parts == self.parts(),
                covers::<K>(parts, key@, at@),
                0 < run@.len() <= at@ + 1,
                at@ < parts.len(),
                left == before(sh.levels[0], at@ - run@.len() + 1),
                run_first::<K>(parts, key@, at@) == run_first::<K>(
                    parts,
                    key@,
                    at@ - run@.len() + 1,
                ),
                forall|n: int| 0 <= n < run@.len() ==> copied(*self, #[trigger] run@[n], at@ - n),
            decreases at@ - run@.len() + 1,
        {
            let ghost i = at@ - run@.len() + 1;
            let prev: PageId = match left {
                Some(p) => p,
                None => {
                    return Ok((run, at));
                },
            };
            let ghost here = *self;
            assert(node_wf::<K, V>(self.pool, sh, 0, i - 1));
            let page: Vec<u8> = match self.read(prev) {
                Ok(p) => p,
                Err(e) => {
                    proof {
                        lemma_read_chain(a, here, *self);
                    }
                    return Err(e);
                },
            };
            proof {
                lemma_read_chain(a, here, *self);
                lemma_same_view(page@);
                assert(node_wf::<K, V>(self.pool, sh, 0, i - 1));
            }
            let acc = LeafPageAccessor::<K, V>::new(page.as_slice());
            let mut same: bool = false;
            if let Some(hk) = acc.high_key_bytes() {
                if key_order::<K>(hk, key) == 0 {
                    same = true;
                }
            }
            if !same {
                return Ok((run, at));
            }
            left = acc.prev_page();
            run.push(LeafCopy { pid: prev, page });
        }
    }
}

/// The first version of the key that the transaction sees: the leaf, counted from the last one
/// to the left, and the slot.
pub(crate) fn find_in_run<K: Key, V: Value>(
    t: &BTreeIndex<K, V>,
    run: &Vec<LeafCopy>,
    at: Ghost<int>,
    key: &[u8],
    txn: &Transaction,
    tm: &TransactionManager,
) -> (r: Option<(usize, usize)>)
    requires
        t.wf(),
        K::accepts(key@),
        run_copied(*t, run@, at@, key@),
    ensures
        match r {
            Some((n, slot)) => {
                let j = at@ - n;
                let x = row_count(t.parts(), j) + slot;
                &&& n < run@.len()
                &&& slot < t.parts()[j].rows.len()
                &&& first_visible::<K>(all_rows(t.parts()), key@, *txn, tm@, 0) == Some(x)
                &&& leaf_of(t.parts(), x) == j
                &&& slot_of(t.parts(), x) == slot
                &&& all_rows(t.parts())[x] == t.parts()[j].rows[slot as int]
                &&& shows::<K>(t.parts()[j].rows[slot as int], key@, *txn, tm@)
                &&& leaf_wf(run@[n as int].page@)
                &&& leaf_view(run@[n as int].page@).rows == t.parts()[j].rows
            },
            None => first_visible::<K>(all_rows(t.parts()), key@, *txn, tm@, 0) is None,
        },
{
    let ghost parts = t.parts();
    let ghost f = run_first::<K>(parts, key@, at@);
    let mut left: usize = run.len();
    proof {
        lemma_parts_wf::<K, V>(t.pool, t.root, t.shape@);
        lemma_before_run::<K, V>(parts, key@, at@);
        lemma_run_first::<K>(parts, key@, at@);
        let rows = all_rows(parts.take(f));
        lemma_skip_rows::<K>(rows, key@, *txn, tm@, 0, rows.len() as int);
    }
    while left > 0
        invariant
            t.wf(),
            K::accepts(key@),
            run_copied(*t, run@, at@, key@),
            parts == t.parts(),
            parts_sorted::<K, V>(parts),
            left <= run@.len(),
            first_visible::<K>(all_rows(parts.take(at@ - left + 1)), key@, *txn, tm@, 0) is None,
        decreases left,
    {
        let n: usize = left - 1;
        let ghost j = at@ - n;
        assert(copied(*t, run@[n as int], j));
        assert(good_rows::<K, V>(parts[j].rows, parts[j].low, parts[j].high));
        let acc = LeafPageAccessor::<K, V>::new(run[n].page.as_slice());
        let found = find_visible_slot(&acc, key, txn, tm);
        proof {
            let head = all_rows(parts.take(j));
            let rest = all_rows(parts.skip(j + 1));
            lemma_around(parts, j);
            lemma_visible_concat::<K>(head, parts[j].rows, key@, *txn, tm@);
            lemma_visible_concat::<K>(head + parts[j].rows, rest, key@, *txn, tm@);
            assert(parts.take(j + 1).drop_last() =~= parts.take(j));
        }
        if let Some(slot) = found {
            proof {
                lemma_row_at(parts, j, slot as int);
            }
            return Some((n, slot));
        }
        left = n;
    }
    proof {
        let rest = all_rows(parts.skip(at@ + 1));
        lemma_behind_run::<K, V>(parts, key@, at@);
        lemma_skip_rows::<K>(rest, key@, *txn, tm@, 0, rest.len() as int);
        lemma_concat(parts.take(at@ + 1), parts.skip(at@ + 1));
        assert(parts.take(at@ + 1) + parts.skip(at@ + 1) =~= parts);
        lemma_visible_concat::<K>(all_rows(parts.take(at@ + 1)), rest, key@, *txn, tm@);
    }
    None
}

/// Checks whether the versions of the key allow to insert it.
pub(crate) fn conflict_in_run<K: Key, V: Value>(
    t: &BTreeIndex<K, V>,
    run: &Vec<LeafCopy>,
    at: Ghost<int>,
    key: &[u8],
    txn: &Transaction,
    tm: &TransactionManager,
) -> (r: Result<(), IndexError>)
    requires
        t.wf(),
        K::accepts(key@),
        run_copied(*t, run@, at@, key@),
    ensures
        match r {
            Ok(()) => first_conflict::<K>(all_rows(t.parts()), key@, *txn, tm@, 0) is None,
            Err(e) => first_conflict::<K>(all_rows(t.parts()), key@, *txn, tm@, 0) == Some(e),
        },
{
    let ghost parts = t.parts();
    let ghost f = run_first::<K>(parts, key@, at@);
    let mut left: usize = run.len();
    proof {
        lemma_parts_wf::<K, V>(t.pool, t.root, t.shape@);
        lemma_before_run::<K, V>(parts, key@, at@);
        lemma_run_first::<K>(parts, key@, at@);
        let rows = all_rows(parts.take(f));
        lemma_skip_rows::<K>(rows, key@, *txn, tm@, 0, rows.len() as int);
    }
    while left > 0
        invariant
            t.wf(),
            K::accepts(key@),
            run_copied(*t, run@, at@, key@),
            parts == t.parts(),
            parts_sorted::<K, V>(parts),
            left <= run@.len(),
            first_conflict::<K>(all_rows(parts.take(at@ - left + 1)), key@, *txn, tm@, 0) is None,
        decreases left,
    {
        let n: usize = left - 1;
        let ghost j = at@ - n;
        assert(copied(*t, run@[n as int], j));
        assert(good_rows::<K, V>(parts[j].rows, parts[j].low, parts[j].high));
        let acc = LeafPageAccessor::<K, V>::new(run[n].page.as_slice());
        let (slot, found) = acc.position_bytes(key);
        proof {
            let rows = parts[j].rows;
            let head = all_rows(parts.take(j));
            let rest = all_rows(parts.skip(j + 1));
            lemma_search::<K>(rows, key@, 0, rows.len() as int);
            if !found {
                lemma_skip_rows::<K>(rows, key@, *txn, tm@, 0, rows.len() as int);
            }
            lemma_around(parts, j);
            lemma_conflict_concat::<K>(head, rows, key@, *txn, tm@);
            lemma_conflict_concat::<K>(head + rows, rest, key@, *txn, tm@);
            assert(parts.take(j + 1).drop_last() =~= parts.take(j));
        }
        if found {
            match check_insert_conflict(&acc, slot, key, txn, tm) {
                Ok(()) => {},
                Err(e) => {
                    return Err(e);
                },
            }
        }
        left = n;
    }
    proof {
        let rest = all_rows(parts.skip(at@ + 1));
        lemma_behind_run::<K, V>(parts, key@, at@);
        lemma_skip_rows::<K>(rest, key@, *txn, tm@, 0, rest.len() as int);
        lemma_concat(parts.take(at@ + 1), parts.skip(at@ + 1));
        assert(parts.take(at@ + 1) + parts.skip(at@ + 1) =~= parts);
        lemma_conflict_concat::<K>(all_rows(parts.take(at@ + 1)), rest, key@, *txn, tm@);
    }
    Ok(())
}

} // verus!
