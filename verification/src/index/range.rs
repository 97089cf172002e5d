//! Range scans: the rows that a transaction sees, in key order.

use crate::error::IndexError;
use crate::index::run::{copied, lemma_run_first, run_first};
use crate::index::tree::{lemma_parts_wf, lemma_same_view, node_wf, Part};
use crate::index::{
    cover, fit, held, lemma_cover, lemma_steps, lemma_untouched_fit, untouched, BTreeIndex,
};
use crate::page::PageId;
use crate::page::leaf::{LeafPageAccessor, Version};
use crate::transaction::Transaction;
use crate::transaction_manager::{TmView, TransactionManager};
use crate::types::{key_before, key_order, Key, Value};
use vstd::prelude::*;

verus! {

/// An end of a range of keys.
pub enum KeyBound<T> {
    Included(T),
    Excluded(T),
    Unbounded,
}

/// The bytes of a bound.
pub open spec fn edge(b: KeyBound<Vec<u8>>) -> KeyBound<Seq<u8>> {
    match b {
        KeyBound::Included(k) => KeyBound::Included(k@),
        KeyBound::Excluded(k) => KeyBound::Excluded(k@),
        KeyBound::Unbounded => KeyBound::Unbounded,
    }
}

/// The encoding of a bound.
pub open spec fn encoded<'a, K: Key>(b: KeyBound<K::SelfType<'a>>) -> KeyBound<Seq<u8>> {
    match b {
        KeyBound::Included(k) => KeyBound::Included(K::encode(K::model(k))),
        KeyBound::Excluded(k) => KeyBound::Excluded(K::encode(K::model(k))),
        KeyBound::Unbounded => KeyBound::Unbounded,
    }
}

/// The bound's key can be encoded.
pub open spec fn bound_ok<'a, K: Key>(b: KeyBound<K::SelfType<'a>>) -> bool {
    match b {
        KeyBound::Included(k) => K::encodable(K::model(k)),
        KeyBound::Excluded(k) => K::encodable(K::model(k)),
        KeyBound::Unbounded => true,
    }
}

/// The key is not behind the end of the range.
pub open spec fn before_end<K: Key>(k: Seq<u8>, end: KeyBound<Seq<u8>>) -> bool {
    match end {
        KeyBound::Included(e) => K::le(k, e),
        KeyBound::Excluded(e) => key_before::<K>(k, e),
        KeyBound::Unbounded => true,
    }
}

/// The key is not before the start of the range.
pub open spec fn after_start<K: Key>(k: Seq<u8>, start: KeyBound<Seq<u8>>) -> bool {
    match start {
        KeyBound::Included(s) => K::le(s, k),
        KeyBound::Excluded(s) => key_before::<K>(s, k),
        KeyBound::Unbounded => true,
    }
}

/// The bytes of the bound are those of a key.
pub open spec fn edge_typed<K: Key>(b: KeyBound<Seq<u8>>) -> bool {
    match b {
        KeyBound::Included(k) => K::accepts(k),
        KeyBound::Excluded(k) => K::accepts(k),
        KeyBound::Unbounded => true,
    }
}

/// The rows of the leaves from leaf `i` on.
pub open spec fn rows_from(parts: Seq<Part>, i: int) -> Seq<Version>
    decreases parts.len() - i,
{
    if i < 0 || i >= parts.len() {
        Seq::empty()
    } else {
        parts[i].rows + rows_from(parts, i + 1)
    }
}

/// The rows from row `s` of leaf `i` on.
pub open spec fn rows_behind(parts: Seq<Part>, i: int, s: int) -> Seq<Version> {
    parts[i].rows.skip(s) + rows_from(parts, i + 1)
}

/// What a scan over the rows gives: those that the transaction sees, up to the end of the
/// range.
pub open spec fn scanned<K: Key>(
    rows: Seq<Version>,
    end: KeyBound<Seq<u8>>,
    txn: Transaction,
    tm: TmView,
) -> Seq<(Seq<u8>, Seq<u8>)>
    decreases rows.len(),
{
    if rows.len() == 0 {
        Seq::empty()
    } else if !txn.sees(rows[0].xmin, rows[0].xmax, tm) {
        scanned::<K>(rows.skip(1), end, txn, tm)
    } else if !before_end::<K>(rows[0].key, end) {
        Seq::empty()
    } else {
        seq![(rows[0].key, rows[0].val)] + scanned::<K>(rows.skip(1), end, txn, tm)
    }
}

/// The leaf that a scan starts in: the first that may hold the key, or where the key is left
/// out, the last.
pub open spec fn first_leaf<K: Key>(parts: Seq<Part>, start: KeyBound<Seq<u8>>) -> int {
    match start {
        KeyBound::Included(k) => run_first::<K>(parts, k, cover::<K>(parts, k)),
        KeyBound::Excluded(k) => cover::<K>(parts, k),
        KeyBound::Unbounded => 0,
    }
}

/// The first row from row `s` on that is not before the start of the range, or the number
/// of rows.
pub open spec fn first_row<K: Key>(rows: Seq<Version>, start: KeyBound<Seq<u8>>, s: int) -> int
    decreases rows.len() - s,
{
    if s >= rows.len() {
        rows.len() as int
    } else if after_start::<K>(rows[s].key, start) {
        s
    } else {
        first_row::<K>(rows, start, s + 1)
    }
}

/// What a scan of a range gives.
pub open spec fn range_of<K: Key>(
    parts: Seq<Part>,
    start: KeyBound<Seq<u8>>,
    end: KeyBound<Seq<u8>>,
    txn: Transaction,
    tm: TmView,
) -> Seq<(Seq<u8>, Seq<u8>)> {
    let i = first_leaf::<K>(parts, start);
    scanned::<K>(rows_behind(parts, i, first_row::<K>(parts[i].rows, start, 0)), end, txn, tm)
}

/// A scan in progress.
pub struct RangeScan<'a, K: Key, V: Value> {
    pub index: &'a mut BTreeIndex<K, V>,
    pub current_leaf: Option<PageId>,
    pub slot: usize,
    pub end: KeyBound<Vec<u8>>,
    pub txn: &'a Transaction,
    pub tm: &'a TransactionManager,
    /// The place of the current leaf among the leaves.
    pub at: Ghost<int>,
}

impl<'a, K: Key, V: Value> RangeScan<'a, K, V> {
    pub open spec fn wf(&self) -> bool {
        &&& self.index.wf()
        &&& edge_typed::<K>(edge(self.end))
        &&& self.current_leaf matches Some(pid) ==> {
            &&& 0 <= self.at@ < self.index.parts().len()
            &&& self.index.shape@.levels[0][self.at@] == pid
            &&& self.slot <= self.index.parts()[self.at@].rows.len()
        }
    }

    /// What is still to come.
    pub open spec fn remaining(&self) -> Seq<(Seq<u8>, Seq<u8>)> {
        if self.current_leaf is Some {
            scanned::<K>(
                rows_behind(self.index.parts(), self.at@, self.slot as int),
                edge(self.end),
                *self.txn,
                self.tm@,
            )
        } else {
            Seq::empty()
        }
    }

    /// The next row that the transaction sees, or `None` behind the end of the range.
    /// After an error the scan is where it was.
    pub fn next(&mut self) -> (r: Option<Result<(Vec<u8>, Vec<u8>), IndexError>>)
        requires
            old(self).wf(),
        ensures
            final(self).wf(),
            untouched(*old(self).index, *final(self).index),
            *final(final(self).index) == *final(old(self).index),
            match r {
                None => old(self).remaining().len() == 0 && final(self).remaining().len() == 0,
                Some(Ok((k, v))) => old(self).remaining() == seq![(k@, v@)]
                    + final(self).remaining(),
                Some(Err(e)) => {
                    &&& e is BufferPool
                    &&& final(self).index.pool.faulty()
                    &&& final(self).remaining() == old(self).remaining()
                },
            },
            fit(old(self).index.pool, 0) ==> !(r matches Some(Err(_)))
                && final(self).index.pool.able(),
    {
        loop
            invariant
                self.wf(),
                untouched(*old(self).index, *self.index),
                fit(old(self).index.pool, 0) ==> self.index.pool.able(),
                *final(self.index) == *final(old(self).index),
                self.remaining() == old(self).remaining(),
            decreases
                    if self.current_leaf is Some {
                        self.index.parts().len() - self.at@ + 1
                    } else {
                        0
                    },
        {
            let pid: PageId = match self.current_leaf {
                Some(p) => p,
                None => {
                    return None;
                },
            };
            let ghost before = *self.index;
            let ghost parts = self.index.parts();
            let ghost i = self.at@;
            assert(node_wf::<K, V>(self.index.pool, self.index.shape@, 0, i));
            let page: Vec<u8> = match self.index.read(pid) {
                Ok(p) => p,
                Err(e) => {
                    assert(held(before.pool, Set::empty(), 0));
                    proof {
                        lemma_steps(*old(self).index, before, *self.index);
                        lemma_untouched_fit(*old(self).index, *self.index);
                    }
                    return Some(Err(e));
                },
            };
            proof {
                assert(held(before.pool, Set::empty(), 0));
                lemma_steps(*old(self).index, before, *self.index);
                lemma_untouched_fit(*old(self).index, *self.index);
                lemma_same_view(page@);
                lemma_parts_wf::<K, V>(before.pool, before.root, before.shape@);
            }
            let acc = LeafPageAccessor::<K, V>::new(page.as_slice());
            let n: usize = acc.num_pairs() as usize;
            let slot: usize = next_visible(&acc, self.slot, self.txn, self.tm);
            proof {
                lemma_skip_unseen::<K>(
                    parts,
                    i,
                    self.slot as int,
                    slot as int,
                    edge(self.end),
                    *self.txn,
                    self.tm@,
                );
            }
            self.slot = slot;
            if slot < n {
                proof {
                    lemma_row_behind(parts, i, slot as int);
                }
                let key: &[u8] = acc.key_bytes_at(slot);
                if !in_range::<K>(key, &self.end) {
                    self.current_leaf = None;
                    return None;
                }
                let k: Vec<u8> = vstd::slice::slice_to_vec(key);
                let v: Vec<u8> = vstd::slice::slice_to_vec(acc.value_bytes_at(slot));
                self.slot = slot + 1;
                return Some(Ok((k, v)));
            }
            self.current_leaf = acc.rightlink();
            self.slot = 0;
            self.at = Ghost(i + 1);
            proof {
                assert(rows_behind(parts, i, n as int) =~= rows_from(parts, i + 1));
                if i + 1 < parts.len() {
                    assert(rows_behind(parts, i + 1, 0) =~= rows_from(parts, i + 1));
                }
            }
        }
    }
}

/// The first slot from `slot` on whose row the transaction sees, or the number of rows.
fn next_visible<K: Key, V: Value>(
    acc: &LeafPageAccessor<'_, K, V>,
    slot: usize,
    txn: &Transaction,
    tm: &TransactionManager,
) -> (next: usize)
    requires
        acc.typed(),
        slot <= acc.leaf().rows.len(),
    ensures
        slot <= next <= acc.leaf().rows.len(),
        forall|j: int|
            slot <= j < next ==> !txn.sees(
                (#[trigger] acc.leaf().rows[j]).xmin,
                acc.leaf().rows[j].xmax,
                tm@,
            ),
        next < acc.leaf().rows.len() ==> txn.sees(
            acc.leaf().rows[next as int].xmin,
            acc.leaf().rows[next as int].xmax,
            tm@,
        ),
{
    let n: usize = acc.num_pairs() as usize;
    let mut i: usize = slot;
    while i < n
        invariant
            acc.typed(),
            slot <= i <= n,
            n == acc.leaf().rows.len(),
            forall|j: int|
                slot <= j < i ==> !txn.sees(
                    (#[trigger] acc.leaf().rows[j]).xmin,
                    acc.leaf().rows[j].xmax,
                    tm@,
                ),
        decreases n - i,
    {
        if txn.is_visible(acc.get_xmin(i), acc.get_xmax(i), tm) {
            return i;
        }
        i = i + 1;
    }
    n
}

/// Whether the key is not behind the end of the range.
fn in_range<K: Key>(key: &[u8], end: &KeyBound<Vec<u8>>) -> (b: bool)
    requires
        K::width_fits(),
        K::accepts(key@),
        edge_typed::<K>(edge(*end)),
    ensures
        b == before_end::<K>(key@, edge(*end)),
{
    match end {
        KeyBound::Included(e) => key_order::<K>(key, e.as_slice()) <= 0,
        KeyBound::Excluded(e) => key_order::<K>(key, e.as_slice()) < 0,
        KeyBound::Unbounded => true,
    }
}

/// The row at the front, and the rows behind it.
proof fn lemma_row_behind(parts: Seq<Part>, i: int, s: int)
    requires
        0 <= i < parts.len(),
        0 <= s < parts[i].rows.len(),
    ensures
        rows_behind(parts, i, s).len() > 0,
        rows_behind(parts, i, s)[0] == parts[i].rows[s],
        rows_behind(parts, i, s).skip(1) == rows_behind(parts, i, s + 1),
{
    assert(rows_behind(parts, i, s).skip(1) =~= rows_behind(parts, i, s + 1));
}

/// Rows that the transaction does not see do not count.
proof fn lemma_skip_unseen<K: Key>(
    parts: Seq<Part>,
    i: int,
    s: int,
    t: int,
    end: KeyBound<Seq<u8>>,
    txn: Transaction,
    tm: TmView,
)
    requires
        0 <= i < parts.len(),
        0 <= s <= t <= parts[i].rows.len(),
        forall|j: int|
            s <= j < t ==> !txn.sees((#[trigger] parts[i].rows[j]).xmin, parts[i].rows[j].xmax, tm),
    ensures
        scanned::<K>(rows_behind(parts, i, s), end, txn, tm) == scanned::<K>(
            rows_behind(parts, i, t),
            end,
            txn,
            tm,
        ),
    decreases t - s,
{
    if s < t {
        lemma_row_behind(parts, i, s);
        lemma_skip_unseen::<K>(parts, i, s + 1, t, end, txn, tm);
    }
}

impl<K: Key, V: Value> BTreeIndex<K, V> {
    /// The leaf and the slot where a scan starts.
    fn scan_start(&mut self, start: &KeyBound<Vec<u8>>) -> (r: Result<
        (PageId, usize, Ghost<int>),
        IndexError,
    >)
        requires
            old(self).wf(),
            edge_typed::<K>(edge(*start)),
        ensures
            final(self).wf(),
            untouched(*old(self), *final(self)),
            final(self).parts() == old(self).parts(),
            match r {
                Ok((pid, slot, at)) => {
                    &&& at@ == first_leaf::<K>(final(self).parts(), edge(*start))
                    &&& 0 <= at@ < final(self).parts().len()
                    &&& final(self).shape@.levels[0][at@] == pid
                    &&& slot == first_row::<K>(
                        final(self).parts()[at@].rows,
                        edge(*start),
                        0,
                    )
                    &&& slot <= final(self).parts()[at@].rows.len()
                },
                Err(e) => e is BufferPool && final(self).pool.faulty(),
            },
    {
        let ghost a = *self;
        let root: PageId = self.root;
        let (key, included): (&Vec<u8>, bool) = match start {
            KeyBound::Included(k) => (k, true),
            KeyBound::Excluded(k) => (k, false),
            KeyBound::Unbounded => {
                let leaf = self.find_leftmost_leaf(root);
                assert(self.shape@.levels[0].len() > 0);
                return match leaf {
                    Ok(pid) => {
                        Ok((pid, 0, Ghost(0)))
                    },
                    Err(e) => Err(e),
                };
            },
        };
        let (run, last) = match self.run_of(key.as_slice()) {
            Ok(p) => p,
            Err(e) => {
                return Err(e);
            },
        };
        proof {
            lemma_parts_wf::<K, V>(self.pool, self.root, self.shape@);
            lemma_cover::<K>(self.parts(), key@, last@);
            lemma_run_first::<K>(self.parts(), key@, last@);
        }
        let n: usize = if included {
            run.len() - 1
        } else {
            0
        };
        let ghost at: Ghost<int> = Ghost(last@ - n);
        assert(copied(*self, run@[n as int], at@));
        let pid: PageId = run[n].pid;
        let page: &Vec<u8> = &run[n].page;
        proof {
            assert(node_wf::<K, V>(self.pool, self.shape@, 0, at@));
        }
        let acc = LeafPageAccessor::<K, V>::new(page.as_slice());
        let n: usize = acc.num_pairs() as usize;
        let mut slot: usize = 0;
        while slot < n
            invariant
                acc.typed(),
                K::width_fits(),
                edge_typed::<K>(edge(*start)),
                slot <= n == acc.leaf().rows.len(),
                first_row::<K>(acc.leaf().rows, edge(*start), 0) == first_row::<K>(
                    acc.leaf().rows,
                    edge(*start),
                    slot as int,
                ),
            ensures
                slot == first_row::<K>(acc.leaf().rows, edge(*start), 0),
                slot <= n == acc.leaf().rows.len(),
            decreases n - slot,
        {
            if past_start::<K>(acc.key_bytes_at(slot), start) {
                break;
            }
            slot = slot + 1;
        }
        Ok((pid, slot, Ghost(at@)))
    }
}

/// Whether the key is not before the start of the range.
fn past_start<K: Key>(key: &[u8], start: &KeyBound<Vec<u8>>) -> (b: bool)
    requires
        K::width_fits(),
        K::accepts(key@),
        edge_typed::<K>(edge(*start)),
    ensures
        b == after_start::<K>(key@, edge(*start)),
{
    match start {
        KeyBound::Included(e) => key_order::<K>(key, e.as_slice()) >= 0,
        KeyBound::Excluded(e) => key_order::<K>(key, e.as_slice()) > 0,
        KeyBound::Unbounded => true,
    }
}

/// Encodes a bound.
fn encode_bound<K: Key>(b: &KeyBound<K::SelfType<'_>>) -> (out: KeyBound<Vec<u8>>)
    requires
        K::width_fits(),
        bound_ok::<K>(*b),
    ensures
        edge(out) == encoded::<K>(*b),
        edge_typed::<K>(edge(out)),
{
    match b {
        KeyBound::Included(k) => {
            proof {
                K::decode_of_encode(K::model(*k));
            }
            KeyBound::Included(K::as_bytes(k))
        },
        KeyBound::Excluded(k) => {
            proof {
                K::decode_of_encode(K::model(*k));
            }
            KeyBound::Excluded(K::as_bytes(k))
        },
        KeyBound::Unbounded => KeyBound::Unbounded,
    }
}

/// The pairs, as sequences of bytes.
pub open spec fn pair_views(items: Seq<(Vec<u8>, Vec<u8>)>) -> Seq<(Seq<u8>, Seq<u8>)> {
    Seq::new(items.len(), |i: int| (items[i].0@, items[i].1@))
}

/// A scan from the greatest key of a range to the smallest.
pub struct BackwardRangeScan {
    /// The rows that are still to come, the next one last.
    pub items: Vec<(Vec<u8>, Vec<u8>)>,
}

impl BackwardRangeScan {
    /// What is still to come.
    pub open spec fn remaining(&self) -> Seq<(Seq<u8>, Seq<u8>)> {
        pair_views(self.items@).reverse()
    }

    /// The next row, or `None` before the start of the range.
    pub fn next(&mut self) -> (r: Option<(Vec<u8>, Vec<u8>)>)
        ensures
            match r {
                None => old(self).remaining().len() == 0 && final(self).remaining().len() == 0,
                Some((k, v)) => old(self).remaining() == seq![(k@, v@)] + final(self).remaining(),
            },
    {
        match self.items.pop() {
            Some(kv) => {
                assert(old(self).remaining() =~= seq![(kv.0@, kv.1@)] + self.remaining());
                Some(kv)
            },
            None => None,
        }
    }
}

/// Runs a scan to its end.
fn collect<'a, K: Key, V: Value>(scan: RangeScan<'a, K, V>) -> (r: Result<BackwardRangeScan, IndexError>)
    requires
        scan.wf(),
    ensures
        final(scan.index).wf(),
        untouched(*old(scan.index), *final(scan.index)),
        match r {
            Ok(b) => b.remaining() == scan.remaining().reverse(),
            Err(e) => e is BufferPool && final(scan.index).pool.faulty(),
        },
{
    let ghost all = scan.remaining();
    let ghost a = *scan.index;
    let ghost last = *final(scan.index);
    let mut scan = scan;
    let mut items: Vec<(Vec<u8>, Vec<u8>)> = Vec::new();
    #[verifier::loop_isolation(false)]
    loop
        invariant
            scan.wf(),
            untouched(a, *scan.index),
            *final(scan.index) == last,
            all == pair_views(items@) + scan.remaining(),
        decreases scan.remaining().len(),
    {
        let ghost here = *scan.index;
        let ghost seen = items@;
        let ghost rest = scan.remaining();
        let step = scan.next();
        proof {
            lemma_steps(a, here, *scan.index);
        }
        match step {
            None => {
                assert(all =~= pair_views(items@));
                assert(has_resolved(scan.index));
                return Ok(BackwardRangeScan { items });
            },
            Some(Ok(kv)) => {
                items.push(kv);
                assert(pair_views(items@) =~= pair_views(seen).push((kv.0@, kv.1@)));
                assert(all =~= pair_views(items@) + scan.remaining());
            },
            Some(Err(e)) => {
                assert(has_resolved(scan.index));
                return Err(e);
            },
        }
    }
}

impl<K: Key, V: Value> BTreeIndex<K, V> {
    /// Starts a scan of the rows of a range that the transaction sees, in key order.
    pub fn range<'a>(
        &'a mut self,
        start: &KeyBound<K::SelfType<'_>>,
        end: &KeyBound<K::SelfType<'_>>,
        txn: &'a Transaction,
        tm: &'a TransactionManager,
    ) -> (r: Result<RangeScan<'a, K, V>, IndexError>)
        requires
            old(self).wf(),
            bound_ok::<K>(*start),
            bound_ok::<K>(*end),
        ensures
            match r {
                Ok(scan) => {
                    &&& scan.wf()
                    &&& untouched(*old(self), *scan.index)
                    &&& *final(scan.index) == *final(self)
                    &&& scan.remaining() == range_of::<K>(
                        old(self).parts(),
                        encoded::<K>(*start),
                        encoded::<K>(*end),
                        *txn,
                        tm@,
                    )
                },
                Err(e) => {
                    &&& final(self).wf()
                    &&& untouched(*old(self), *final(self))
                    &&& e is BufferPool && final(self).pool.faulty()
                },
            },
            fit(old(self).pool, 0) ==> (r matches Ok(scan) && scan.index.pool.able()),
    {
        let ghost a = *self;
        let first = encode_bound::<K>(start);
        let last = encode_bound::<K>(end);
        let found = self.scan_start(&first);
        proof {
            lemma_untouched_fit(a, *self);
        }
        match found {
            Ok((pid, slot, at)) => Ok(
                RangeScan { index: self, current_leaf: Some(pid), slot, end: last, txn, tm, at },
            ),
            Err(e) => Err(e),
        }
    }

    /// Starts a scan of the rows of a range that the transaction sees, from the greatest
    /// key to the smallest.
    pub fn range_backward(
        &mut self,
        start: &KeyBound<K::SelfType<'_>>,
        end: &KeyBound<K::SelfType<'_>>,
        txn: &Transaction,
        tm: &TransactionManager,
    ) -> (r: Result<BackwardRangeScan, IndexError>)
        requires
            old(self).wf(),
            bound_ok::<K>(*start),
            bound_ok::<K>(*end),
        ensures
            final(self).wf(),
            untouched(*old(self), *final(self)),
            match r {
                Ok(scan) => scan.remaining() == range_of::<K>(
                    old(self).parts(),
                    encoded::<K>(*start),
                    encoded::<K>(*end),
                    *txn,
                    tm@,
                ).reverse(),
                Err(e) => e is BufferPool && final(self).pool.faulty(),
            },
            fit(old(self).pool, 0) ==> r is Ok && final(self).pool.able(),
    {
        let ghost a = *self;
        let ghost all = range_of::<K>(
            self.parts(),
            encoded::<K>(*start),
            encoded::<K>(*end),
            *txn,
            tm@,
        );
        let mut scan = match self.range(start, end, txn, tm) {
            Ok(s) => s,
            Err(e) => {
                proof {
                    lemma_untouched_fit(a, *self);
                }
                return Err(e);
            },
        };
        let ghost begun = *scan.index;
        let all = collect(scan);
        proof {
            lemma_steps(a, begun, *self);
            lemma_untouched_fit(a, *self);
        }
        all
    }
}

} // verus!
