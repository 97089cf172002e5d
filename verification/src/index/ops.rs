//! The operations that write: insert, delete and update.

use crate::buffer_pool::manager::{lemma_upheld_logged, same_contents, PageWriteGuard};
use crate::constants::{MAX_KEY_SIZE, MAX_VALUE_SIZE};
use crate::disk::DiskView;
use crate::error::{IndexError, WalError};
use crate::index::flat::{all_rows, leaf_of, lemma_row_of, slot_of};
use crate::index::floor::{
    carried, floats, floor_kept, lemma_carried, lemma_same_parts, told_by,
};
use crate::index::rows::{
    covers, first_conflict, first_visible, lemma_conflict_kind, splice, wait_or_die, write_conflict,
};
use crate::index::run::{conflict_in_run, copied, find_in_run};
use crate::index::smo::{
    early_stage, extends, lemma_only_logged, lemma_refused, lemma_same_marks, lemma_stack_kept,
    lemma_stack_right, marks_kept, only_logged, put_outcome, put_stage, stack_ok, structure_error,
};
use crate::index::trail::{
    lemma_logged_one, lemma_on_trail, log_records, on_trail, parting, signed, spared, stands_in,
    within, Trail,
};
use crate::index::tree::{
    at_least, good_key, good_leaf, good_rows, lemma_bounds_ordered, lemma_le_chain, lemma_parts_wf,
    lemma_same_view, marked_only, node_wf, whole_tree, Part, Shape,
};
use crate::index::{
    broke, check_write_conflict, cover, fit, held, holds_leaf, lemma_cover, lemma_descend, lemma_fit,
    lemma_hold, lemma_steps, lemma_untouched, log_stuck, nodes, on_leaf, spend, untouched,
    wait_for_txn, BTreeIndex, LOG_NEED,
};
use crate::page::internal::InternalPageAccessor;
use crate::page::leaf::{
    leaf_view, lemma_rows_bytes_edit, packed_room, LeafPageAccessor, LeafPageMutator, Version,
};
use crate::page::{is_incomplete_split, split_incomplete, PageId, INTERNAL, LEAF};
use crate::recovery::clog::{names, verdict};
use crate::recovery::redo::{law_logged_delete_is_redone, state_of, PageState};
use crate::transaction::Transaction;
use crate::transaction_manager::{TmView, TransactionManager};
use crate::types::{canonical, key_order, lemma_encoding_is_canonical, Key, Value};
use crate::wal::{appended, lemma_log_still};
use crate::wal::log::{data_block, law_blocks_are_readable, lemma_small_record, xmax_payload};
use crate::wal::record::WalRecordType;
use crate::wal::segment::read_all;
use vstd::prelude::*;

verus! {

impl<K: Key, V: Value> BTreeIndex<K, V> {
    /// Goes from the root down to a leaf where the key may be, or to the right of which.
    /// Remembers the way, and finishes the splits that it finds incomplete.
    fn descend(&mut self, key: &[u8]) -> (r: Result<(PageId, Vec<PageId>), IndexError>)
        requires
            old(self).wf(),
            K::accepts(key@),
        ensures
            final(self).wf(),
            final(self).parts() == old(self).parts(),
            extends(old(self).shape@, final(self).shape@),
            floats(*old(self), *final(self), old(self).parts()),
            match r {
                Ok((pid, stack)) => {
                    &&& on_leaf::<K>(final(self).shape@, pid, key@)
                    &&& stack_ok::<K>(
                        final(self).shape@,
                        stack@,
                        0,
                        final(self).shape@.low[pid],
                    )
                    &&& !split_incomplete(final(self).pool.page(pid))
                    &&& old(self).rooted() ==> final(self).rooted()
                },
                Err(e) => structure_error(e, *final(self)),
            },
            spared(*old(self), *final(self), broke(r)),
            r matches Ok((_, stack)) ==> stack@.len() == old(self).shape@.levels.len() - 1,
            marked_only(old(self).pool, old(self).shape@, None) ==> {
                &&& final(self).shape@ == old(self).shape@
                &&& same_contents(old(self).pool, final(self).pool)
            },
            within(
                old(self).pool,
                final(self).pool,
                old(self).shape@.levels.len() * nodes(
                    old(self).shape@,
                    old(self).shape@.levels.len() - 1,
                ),
            ),
    {
        let ghost s0 = self.shape@;
        let ghost h = s0.levels.len() as int;
        let ghost all = nodes(s0, h - 1);
        let ghost mut seen: int = 0;
        let ghost mut l: int = self.shape@.levels.len() - 1;
        let ghost mut i: int = 0;
        let mut pid: PageId = self.root;
        let mut stack: Vec<PageId> = Vec::new();
        assert(node_wf::<K, V>(self.pool, self.shape@, l, 0));
        let ghost tidy = marked_only(self.pool, self.shape@, None);
        loop
            invariant
                tidy == marked_only(old(self).pool, old(self).shape@, None),
                tidy ==> self.shape@ == s0 && same_contents(old(self).pool, self.pool),
                self.wf(),
                self.parts() == old(self).parts(),
                extends(old(self).shape@, self.shape@),
                floats(*old(self), *self, old(self).parts()),
                old(self).rooted() ==> self.rooted(),
                spared(*old(self), *self, false),
                K::accepts(key@),
                0 <= l < self.shape@.levels.len(),
                0 <= i < self.shape@.levels[l].len(),
                pid == self.shape@.levels[l][i],
                at_least::<K>(key@, self.shape@.low[pid]),
                stack_ok::<K>(self.shape@, stack@, l, self.shape@.low[pid]),
                s0 == old(self).shape@,
                h == s0.levels.len(),
                all == nodes(s0, h - 1),
                stack@.len() == h - 1 - l,
                forall|m: int| 0 <= m <= l ==> #[trigger] self.shape@.levels[m] == s0.levels[m],
                0 <= seen,
                seen + nodes(s0, l) - i <= all,
                within(
                    old(self).pool,
                    self.pool,
                    h * seen + if split_incomplete(self.pool.page(pid)) {
                        0int
                    } else {
                        h
                    },
                ),
            decreases
                    l,
                    self.shape@.levels[l].len() - i,
                    if split_incomplete(self.pool.page(pid)) {
                        1int
                    } else {
                        0
                    },
        {
            let ghost here = *self;
            let ghost sh = self.shape@;
            assert(node_wf::<K, V>(self.pool, sh, l, i));
            proof {
                lemma_nodes(s0, l);
                assert(sh.levels[l] == s0.levels[l]);
                assert(h * (seen + 1) == h * seen + h) by (nonlinear_arith);
                assert(h * (seen + 1) <= h * all) by (nonlinear_arith)
                    requires
                        0 <= h,
                        seen + 1 <= all,
                ;
            }
            let page: Vec<u8> = match self.read(pid) {
                Ok(p) => p,
                Err(e) => {
                    assert(held(here.pool, Set::empty(), 0));
                    return Err(e);
                },
            };
            proof {
                assert(held(here.pool, Set::empty(), 0));
                lemma_same_view(page@);
                assert(node_wf::<K, V>(self.pool, sh, l, i));
                assert(self.pool.page(pid) == here.pool.page(pid));
                assert(self.pool.page(0) == here.pool.page(0));
            }
            if is_incomplete_split(page.as_slice()) {
                let ghost before = *self;
                assert(sh.levels[l].contains(pid));
                proof {
                    if tidy {
                        reveal(marked_only);
                        assert(split_incomplete(old(self).pool.page(s0.levels[l][i])));
                    }
                }
                match self.finish_split(pid, &stack, Ghost(l)) {
                    Ok(()) => {},
                    Err(e) => {
                        return Err(e);
                    },
                }
                proof {
                    assert(self.shape@.levels[l] == sh.levels[l]);
                    lemma_stack_kept::<K>(sh, self.shape@, stack@, l, sh.low[pid]);
                    assert(self.shape@.low[pid] == sh.low[pid]);
                }
                continue;
            }
            let kind: u8 = page[0];
            if kind == INTERNAL {
                let acc = InternalPageAccessor::<K>::new(page.as_slice());
                let mut next: Option<PageId> = None;
                if let Some(hk) = acc.high_key_bytes() {
                    if key_order::<K>(key, hk) >= 0 {
                        proof {
                            K::le_total(hk@, key@);
                        }
                        next = acc.rightlink();
                    }
                }
                match next {
                    Some(right) => {
                        proof {
                            lemma_stack_right::<K, V>(
                                self.pool,
                                self.root,
                                sh,
                                stack@,
                                l,
                                sh.low[pid],
                                sh.low[right],
                            );
                            i = i + 1;
                            seen = seen + 1;
                        }
                        pid = right;
                    },
                    None => {
                        let (at, child) = acc.find_child_bytes(key);
                        proof {
                            let q = lemma_descend::<K, V>(self.pool, sh, l, i, key@, at as int);
                            assert(stack@.push(pid).drop_last() =~= stack@);
                            assert(sh.levels[l].contains(pid));
                            if at > 0 {
                                let v = crate::page::internal::int_view(page@);
                                assert(v.children[at - 1 + 1] == child);
                                assert(v.keys[at - 1].len() > 0);
                            } else if sh.low[pid] is Some {
                                K::le_total(sh.low[pid]->0, sh.low[pid]->0);
                            }
                            l = l - 1;
                            i = q;
                            seen = seen + 1;
                        }
                        stack.push(pid);
                        pid = child;
                    },
                }
            } else if kind == LEAF {
                assert(l == 0);
                assert(sh.levels[0].contains(pid));
                return Ok((pid, stack));
            } else {
                return Err(IndexError::UnexpectedPageType { expected: LEAF, found: kind });
            }
        }
    }
}

/// A whole tree stays upright, and whole unless an error came in between.
pub open spec fn stays_whole<K: Key, V: Value>(
    a: BTreeIndex<K, V>,
    ok: bool,
    b: BTreeIndex<K, V>,
) -> bool {
    whole_tree(a.pool, a.shape@) ==> b.shape@.firm && (ok ==> whole_tree(b.pool, b.shape@))
}

/// There are pages on the levels below.
proof fn lemma_nodes(sh: Shape, l: int)
    ensures
        0 <= l ==> nodes(sh, l) == nodes(sh, l - 1) + sh.levels[l].len(),
        nodes(sh, l) >= 0,
        nodes(sh, l - 1) >= 0,
    decreases l + 1,
{
    if l >= 0 {
        lemma_nodes(sh, l - 1);
    }
}

/// The leaf that a search ends in is not to the left of one where the key may be.
proof fn lemma_settled_right<K: Key, V: Value>(t: BTreeIndex<K, V>, start: PageId, k: Seq<u8>, at: int)
    requires
        t.tree(),
        on_leaf::<K>(t.shape@, start, k),
        covers::<K>(t.parts(), k, at),
        K::accepts(k),
    ensures
        crate::index::smo::low_le::<K>(t.shape@.low[start], t.shape@.low[t.shape@.levels[0][at]]),
        t.shape@.low[start] matches Some(x) ==> K::accepts(x),
        t.shape@.low[t.shape@.levels[0][at]] matches Some(x) ==> K::accepts(x),
{
    let sh = t.shape@;
    let chain = sh.levels[0];
    let parts = t.parts();
    let q = choose|q: int| 0 <= q < chain.len() && chain[q] == start;
    lemma_parts_wf::<K, V>(t.pool, t.root, sh);
    assert(node_wf::<K, V>(t.pool, sh, 0, q));
    assert(node_wf::<K, V>(t.pool, sh, 0, at));
    assert(parts[q].low == sh.low[start]);
    if at < q {
        lemma_bounds_ordered::<K>(parts, at, q);
        lemma_le_chain::<K>(parts[at].high->0, parts[q].low->0, k);
    } else if q < at {
        lemma_bounds_ordered::<K>(parts, q, at);
        if parts[q].low is Some {
            lemma_le_chain::<K>(parts[q].low->0, parts[q].high->0, parts[at].low->0);
        }
    } else if parts[q].low is Some {
        K::le_total(parts[q].low->0, parts[q].low->0);
    }
}

/// What a crash falls back to after a version was written that belongs to leaf `i` of the
/// given leaves. `marked` says that the transaction has marked a row of them before.
pub open spec fn written_floor<K: Key, V: Value>(
    a: BTreeIndex<K, V>,
    base: Seq<Part>,
    i: int,
    p: Part,
    marked: bool,
    k: Seq<u8>,
    v: Seq<u8>,
    txn_id: u64,
    tm: TmView,
    b: BTreeIndex<K, V>,
) -> bool {
    let horizon = tm.global_xmin();
    b.pool.wal@.error is None && !b.trail@.parted ==> {
        ||| floor_kept(a, b)
        ||| told_by(a, b) && b.trail@.floor == a.parts()
        ||| told_by(a, b) && exists|stage: Seq<Part>|
            put_stage::<K>(p, k, v, txn_id, horizon, tm, stage) && b.trail@.floor
                == #[trigger] splice(base, i, stage) && (!marked && early_stage::<K>(
                p,
                k,
                v,
                horizon,
                tm,
                stage,
            ) || names(read_all(b.pool.wal@.segments), txn_id))
    }
}

/// What a crash falls back to after an insertion.
pub open spec fn insert_floor<K: Key, V: Value>(
    a: BTreeIndex<K, V>,
    k: Seq<u8>,
    v: Seq<u8>,
    txn: Transaction,
    tm: TmView,
    b: BTreeIndex<K, V>,
) -> bool {
    let i = cover::<K>(a.parts(), k);
    let p = a.parts()[i];
    match first_conflict::<K>(all_rows(a.parts()), k, txn, tm, 0) {
        Some(_) => floats(a, b, a.parts()),
        None => written_floor(a, a.parts(), i, p, false, k, v, txn.txn_id, tm, b),
    }
}

/// What an insertion comes to.
pub open spec fn insert_outcome<K: Key, V: Value>(
    a: BTreeIndex<K, V>,
    k: Seq<u8>,
    v: Seq<u8>,
    txn: Transaction,
    tm: TmView,
    r: Result<(), IndexError>,
    b: BTreeIndex<K, V>,
) -> bool {
    let i = cover::<K>(a.parts(), k);
    let p = a.parts()[i];
    &&& spared(a, b, broke(r))
    &&& insert_floor(a, k, v, txn, tm, b)
    &&& if k.len() > MAX_KEY_SIZE {
        &&& r == Err::<(), IndexError>(
            IndexError::KeyTooLarge { size: k.len() as usize, max: MAX_KEY_SIZE },
        )
        &&& b == a
    } else if v.len() > MAX_VALUE_SIZE {
        &&& r == Err::<(), IndexError>(
            IndexError::ValueTooLarge { size: v.len() as usize, max: MAX_VALUE_SIZE },
        )
        &&& b == a
    } else {
        ||| stopped(a, r, b)
        ||| match first_conflict::<K>(all_rows(a.parts()), k, txn, tm, 0) {
            Some(c) => r == Err::<(), IndexError>(wait_or_die(c, txn.txn_id)) && b.parts()
                == a.parts(),
            None => put_outcome(a.parts(), i, p, k, v, txn.txn_id, tm, r, b),
        }
    }
}

/// The operation stopped before it changed a row, because of the storage.
pub open spec fn stopped<K: Key, V: Value>(
    a: BTreeIndex<K, V>,
    r: Result<(), IndexError>,
    b: BTreeIndex<K, V>,
) -> bool {
    &&& r is Err
    &&& structure_error(r->Err_0, b)
    &&& b.parts() == a.parts()
}

impl<K: Key, V: Value> BTreeIndex<K, V> {
    /// Inserts a new version of the key. Fails where a version of the key is there already
    /// that the transaction sees or that was committed since it began, or where another
    /// transaction is about to write the key.
    pub fn insert(
        &mut self,
        key: &K::SelfType<'_>,
        value: &V::SelfType<'_>,
        txn: &Transaction,
        tm: &TransactionManager,
    ) -> (r: Result<(), IndexError>)
        requires
            old(self).wf(),
            K::encodable(K::model(*key)),
            V::encodable(V::model(*value)),
            tm@.wf(),
        ensures
            final(self).wf(),
            insert_outcome(
                *old(self),
                K::encode(K::model(*key)),
                V::encode(V::model(*value)),
                *txn,
                tm@,
                r,
                *final(self),
            ),
            stays_whole(*old(self), r is Ok, *final(self)),
            r is Ok && old(self).rooted() ==> final(self).rooted(),
            within(old(self).pool, final(self).pool, spend(old(self).shape@)),
            fit(old(self).pool, spend(old(self).shape@)) ==> !broke(r) && final(self).pool.able(),
    {
        let ghost a = *self;
        let r = self.put_new(key, value, txn, tm);
        proof {
            if fit(a.pool, spend(a.shape@)) {
                lemma_fit(a.pool, self.pool, spend(a.shape@));
                let k = K::encode(K::model(*key));
                let rows = all_rows(a.parts());
                lemma_conflict_kind::<K>(rows, k, *txn, tm@, 0);
            }
        }
        r
    }

    /// Looks for conflicts and puts the version in.
    fn put_new(
        &mut self,
        key: &K::SelfType<'_>,
        value: &V::SelfType<'_>,
        txn: &Transaction,
        tm: &TransactionManager,
    ) -> (r: Result<(), IndexError>)
        requires
            old(self).wf(),
            K::encodable(K::model(*key)),
            V::encodable(V::model(*value)),
            tm@.wf(),
        ensures
            final(self).wf(),
            insert_outcome(
                *old(self),
                K::encode(K::model(*key)),
                V::encode(V::model(*value)),
                *txn,
                tm@,
                r,
                *final(self),
            ),
            stays_whole(*old(self), r is Ok, *final(self)),
            r is Ok && old(self).rooted() ==> final(self).rooted(),
            within(old(self).pool, final(self).pool, spend(old(self).shape@)),
    {
        let ghost a = *self;
        let key_bytes: Vec<u8> = K::as_bytes(key);
        let val_bytes: Vec<u8> = V::as_bytes(value);
        proof {
            lemma_spend(a.shape@);
            lemma_encoding_is_canonical::<K>(K::model(*key));
            lemma_encoding_is_canonical::<V>(V::model(*value));
            lemma_log_still(a.pool.wal@);
        }
        if key_bytes.len() > MAX_KEY_SIZE {
            return Err(IndexError::KeyTooLarge { size: key_bytes.len(), max: MAX_KEY_SIZE });
        }
        if val_bytes.len() > MAX_VALUE_SIZE {
            return Err(IndexError::ValueTooLarge { size: val_bytes.len(), max: MAX_VALUE_SIZE });
        }
        let found = self.run_of(key_bytes.as_slice());
        let ghost b = *self;
        proof {
            lemma_untouched_spared(a, b);
        }
        let (run, at) = match found {
            Ok(p) => p,
            Err(e) => {
                return Err(e);
            },
        };
        match conflict_in_run(self, &run, at, key_bytes.as_slice(), txn, tm) {
            Ok(()) => {},
            Err(e) => {
                return Err(wait_for_txn(e, txn.txn_id));
            },
        }
        let r = self.put_version(key_bytes.as_slice(), val_bytes.as_slice(), txn.txn_id, tm);
        proof {
            lemma_read_then::<K, V>(
                a,
                b,
                key_bytes@,
                val_bytes@,
                txn.txn_id,
                tm@,
                broke(r),
                *self,
            );
        }
        r
    }

    /// Puts a version into the leaf that its key belongs to.
    fn put_version(&mut self, key: &[u8], val: &[u8], txn_id: u64, tm: &TransactionManager) -> (r:
        Result<(), IndexError>)
        requires
            old(self).wf(),
            good_key::<K>(key@),
            canonical::<V>(val@),
            val@.len() <= MAX_VALUE_SIZE,
            tm@.wf(),
        ensures
            final(self).wf(),
            ({
                let i = cover::<K>(old(self).parts(), key@);
                let p = old(self).parts()[i];
                &&& {
                    ||| stopped(*old(self), r, *final(self))
                    ||| put_outcome(
                        old(self).parts(),
                        i,
                        p,
                        key@,
                        val@,
                        txn_id,
                        tm@,
                        r,
                        *final(self),
                    )
                }
                &&& written_floor(
                    *old(self),
                    old(self).parts(),
                    i,
                    p,
                    false,
                    key@,
                    val@,
                    txn_id,
                    tm@,
                    *final(self),
                )
            }),
            spared(*old(self), *final(self), broke(r)),
            stays_whole(*old(self), r is Ok, *final(self)),
            r is Ok && old(self).rooted() ==> final(self).rooted(),
            within(old(self).pool, final(self).pool, spend(old(self).shape@) - 1),
    {
        let ghost a = *self;
        proof {
            lemma_spend(a.shape@);
        }
        let (leaf_pid, stack) = match self.descend(key) {
            Ok(p) => p,
            Err(e) => {
                return Err(e);
            },
        };
        let ghost b = *self;
        let (guard, at) = match self.settle_mut(leaf_pid, key) {
            Ok(g) => g,
            Err(e) => {
                return Err(e);
            },
        };
        proof {
            lemma_parts_wf::<K, V>(self.pool, self.root, self.shape@);
            lemma_cover::<K>(self.parts(), key@, at@);
            lemma_settled_right(*self, leaf_pid, key@, at@);
            lemma_stack_right::<K, V>(
                self.pool,
                self.root,
                self.shape@,
                stack@,
                0,
                self.shape@.low[leaf_pid],
                self.shape@.low[guard.page_id],
            );
            assert(node_wf::<K, V>(self.pool, self.shape@, 0, at@));
            if whole_tree(a.pool, a.shape@) {
                lemma_same_marks(a, *self);
            }
            lemma_same_view(guard@);
            assert(self.pool.page(0) == b.pool.page(0));
            lemma_on_trail(self.pool, self.trail@, guard);
        }
        self.place(guard, at, key, val, txn_id, tm, stack)
    }
}

/// What is spent on the way down and at the leaf.
proof fn lemma_spend(sh: Shape)
    ensures
        ({
            let h = sh.levels.len() as int;
            let all = nodes(sh, h - 1);
            &&& spend(sh) == h * all + h + 4
            &&& 0 <= h * all
        }),
{
    let h = sh.levels.len() as int;
    let all = nodes(sh, h - 1);
    assert(h * (all + 1) == h * all + h) by (nonlinear_arith);
    lemma_nodes(sh, h - 1);
    assert(0 <= h * all) by (nonlinear_arith)
        requires
            0 <= h,
            0 <= all,
    ;
}

/// Nothing was spent on a step that touched nothing.
proof fn lemma_untouched_spared<K: Key, V: Value>(a: BTreeIndex<K, V>, b: BTreeIndex<K, V>)
    requires
        a.wf(),
        b.wf(),
        untouched(a, b),
    ensures
        spared(a, b, false),
        floats(a, b, a.parts()),
        within(a.pool, b.pool, 0),
        marks_kept(a, b),
        b.parts() == a.parts(),
        b.rooted() == a.rooted(),
{
    lemma_same_marks(a, b);
    lemma_same_parts(a, b);
    assert(b.pool.page(0) == a.pool.page(0));
    assert(a.pool.able_but(None) ==> b.pool.able_but(None));
}

/// A step that touched nothing, and then a version that was put.
proof fn lemma_read_then<K: Key, V: Value>(
    a: BTreeIndex<K, V>,
    b: BTreeIndex<K, V>,
    k: Seq<u8>,
    v: Seq<u8>,
    txn_id: u64,
    tm: TmView,
    failed: bool,
    c: BTreeIndex<K, V>,
)
    requires
        a.wf(),
        b.wf(),
        untouched(a, b),
        spared(b, c, failed),
        ({
            let i = cover::<K>(b.parts(), k);
            written_floor(b, b.parts(), i, b.parts()[i], false, k, v, txn_id, tm, c)
        }),
    ensures
        spared(a, c, failed),
        ({
            let i = cover::<K>(a.parts(), k);
            written_floor(a, a.parts(), i, a.parts()[i], false, k, v, txn_id, tm, c)
        }),
{
    lemma_untouched_spared(a, b);
    lemma_spared_chain(a, b, c, failed);
    if c.pool.wal@.error is None && !c.trail@.parted {
        lemma_told_chain(a, b, c);
    }
}

/// Two steps, of which the first did not fail.
pub proof fn lemma_spared_chain<K: Key, V: Value>(
    a: BTreeIndex<K, V>,
    b: BTreeIndex<K, V>,
    c: BTreeIndex<K, V>,
    failed: bool,
)
    requires
        spared(a, b, false),
        spared(b, c, failed),
    ensures
        spared(a, c, failed),
{
    if !c.trail@.parted && c.pool.wal@.error is None {
        assert forall|id: u64| #[trigger] verdict(log_records(c.pool.wal@), id) == verdict(
            log_records(a.pool.wal@),
            id,
        ) by {
            assert(verdict(log_records(b.pool.wal@), id) == verdict(
                log_records(a.pool.wal@),
                id,
            ));
        }
        assert forall|id: u64| names(log_records(a.pool.wal@), id) implies #[trigger] names(
            log_records(c.pool.wal@),
            id,
        ) by {
            assert(names(log_records(b.pool.wal@), id));
        }
        assert forall|d: DiskView| stands_in(d, a.pool, a.trail@) implies #[trigger] stands_in(
            d,
            c.pool,
            c.trail@,
        ) by {
            assert(stands_in(d, b.pool, b.trail@));
        }
    }
    assert(LOG_NEED * (c.pool.wal@.next - a.pool.wal@.next) == LOG_NEED * (c.pool.wal@.next
        - b.pool.wal@.next) + LOG_NEED * (b.pool.wal@.next - a.pool.wal@.next)) by (nonlinear_arith);
}

/// What the segments tell after the second step they tell of the time before the first.
pub proof fn lemma_told_chain<K: Key, V: Value>(
    a: BTreeIndex<K, V>,
    b: BTreeIndex<K, V>,
    c: BTreeIndex<K, V>,
)
    requires
        spared(a, b, false),
        !b.trail@.parted,
        b.pool.wal@.error is None,
    ensures
        told_by(b, c) ==> told_by(a, c),
{
    if told_by(b, c) {
        let before = log_records(a.pool.wal@);
        let mid = log_records(b.pool.wal@);
        let after = read_all(c.pool.wal@.segments);
        assert forall|id: u64| #[trigger] verdict(after, id) == verdict(before, id) by {
            assert(verdict(mid, id) == verdict(before, id));
        }
        assert forall|id: u64| names(before, id) implies #[trigger] names(after, id) by {
            assert(names(mid, id));
        }
    }
}

/// The leaf with row `s` deleted by the transaction.
pub open spec fn deleted(p: Part, s: int, txn_id: u64) -> Part {
    Part { rows: p.rows.update(s, Version { xmax: txn_id, ..p.rows[s] }), ..p }
}

/// The leaves with row `x` of all rows deleted by the transaction.
pub open spec fn marked(parts: Seq<Part>, x: int, txn_id: u64) -> Seq<Part> {
    let i = leaf_of(parts, x);
    parts.update(i, deleted(parts[i], slot_of(parts, x), txn_id))
}

/// What a deletion comes to.
pub open spec fn delete_outcome<K: Key, V: Value>(
    a: BTreeIndex<K, V>,
    k: Seq<u8>,
    txn: Transaction,
    tm: TmView,
    r: Result<(), IndexError>,
    b: BTreeIndex<K, V>,
) -> bool {
    let rows = all_rows(a.parts());
    &&& spared(a, b, broke(r))
    &&& floats(a, b, a.parts())
    &&& {
        ||| r is Err && r->Err_0 is BufferPool && b.pool.faulty() && b.parts() == a.parts()
        ||| match first_visible::<K>(rows, k, txn, tm, 0) {
            None => r == Err::<(), IndexError>(IndexError::KeyNotFound) && b.parts() == a.parts(),
            Some(x) => match write_conflict(rows[x].xmax, txn, tm) {
                Some(c) => r == Err::<(), IndexError>(wait_or_die(c, txn.txn_id)) && b.parts()
                    == a.parts(),
                None => {
                    &&& b.parts() == marked(a.parts(), x, txn.txn_id)
                    &&& signed(b, txn.txn_id)
                    &&& r is Ok || r->Err_0 is Wal && log_stuck(b.pool.wal@)
                },
            },
        }
    }
}

/// What a crash falls back to after an update.
pub open spec fn update_floor<K: Key, V: Value>(
    a: BTreeIndex<K, V>,
    k: Seq<u8>,
    v: Seq<u8>,
    txn: Transaction,
    tm: TmView,
    b: BTreeIndex<K, V>,
) -> bool {
    let i = cover::<K>(a.parts(), k);
    let rows = all_rows(a.parts());
    match first_visible::<K>(rows, k, txn, tm, 0) {
        Some(x) => match write_conflict(rows[x].xmax, txn, tm) {
            None => written_floor(
                a,
                marked(a.parts(), x, txn.txn_id),
                i,
                marked(a.parts(), x, txn.txn_id)[i],
                true,
                k,
                v,
                txn.txn_id,
                tm,
                b,
            ),
            Some(_) => floats(a, b, a.parts()),
        },
        None => floats(a, b, a.parts()),
    }
}

/// What an update comes to: the version that the transaction sees is deleted, and a new
/// one inserted.
pub open spec fn update_outcome<K: Key, V: Value>(
    a: BTreeIndex<K, V>,
    k: Seq<u8>,
    v: Seq<u8>,
    txn: Transaction,
    tm: TmView,
    r: Result<(), IndexError>,
    b: BTreeIndex<K, V>,
) -> bool {
    let i = cover::<K>(a.parts(), k);
    let rows = all_rows(a.parts());
    &&& spared(a, b, broke(r))
    &&& update_floor(a, k, v, txn, tm, b)
    &&& if k.len() > MAX_KEY_SIZE {
        &&& r == Err::<(), IndexError>(
            IndexError::KeyTooLarge { size: k.len() as usize, max: MAX_KEY_SIZE },
        )
        &&& b == a
    } else if v.len() > MAX_VALUE_SIZE {
        &&& r == Err::<(), IndexError>(
            IndexError::ValueTooLarge { size: v.len() as usize, max: MAX_VALUE_SIZE },
        )
        &&& b == a
    } else {
        ||| stopped(a, r, b)
        ||| match first_visible::<K>(rows, k, txn, tm, 0) {
            None => r == Err::<(), IndexError>(IndexError::KeyNotFound) && b.parts() == a.parts(),
            Some(x) => match write_conflict(rows[x].xmax, txn, tm) {
                Some(c) => r == Err::<(), IndexError>(wait_or_die(c, txn.txn_id)) && b.parts()
                    == a.parts(),
                None => {
                    let q = marked(a.parts(), x, txn.txn_id);
                    &&& signed(b, txn.txn_id)
                    &&& {
                        ||| r is Err && r->Err_0 is Wal && log_stuck(b.pool.wal@) && b.parts() == q
                        ||| r is Err && structure_error(r->Err_0, b) && b.parts() == q
                        ||| put_outcome(q, i, q[i], k, v, txn.txn_id, tm, r, b)
                    }
                },
            },
        }
    }
}

impl<K: Key, V: Value> BTreeIndex<K, V> {
    /// Marks a row of the leaf that is held as deleted, and logs it.
    fn mark_deleted(&mut self, guard: &mut PageWriteGuard, slot: usize, txn_id: u64) -> (r: Result<
        (),
        WalError,
    >)
        requires
            old(self).tree(),
            good_leaf::<K, V>(old(guard)@, old(self).shape@.low[old(guard).page_id]),
            slot < leaf_view(old(guard)@).rows.len(),
            on_trail(old(self).pool, old(self).trail@, *old(guard)),
        ensures
            only_logged(*old(self), *final(self)),
            on_trail(final(self).pool, final(self).trail@, *final(guard)),
            spared(*old(self), *final(self), r is Err),
            final(guard).page_id == old(guard).page_id,
            final(guard).dirty,
            good_leaf::<K, V>(final(guard)@, old(self).shape@.low[old(guard).page_id]),
            leaf_view(final(guard)@).high == leaf_view(old(guard)@).high,
            leaf_view(final(guard)@).right == leaf_view(old(guard)@).right,
            leaf_view(final(guard)@).prev == leaf_view(old(guard)@).prev,
            leaf_view(final(guard)@).flags == leaf_view(old(guard)@).flags,
            ({
                let rows = leaf_view(old(guard)@).rows;
                leaf_view(final(guard)@).rows == rows.update(
                    slot as int,
                    Version { xmax: txn_id, ..rows[slot as int] },
                )
            }),
            match r {
                Ok(()) => (
                    Ok::<u64, WalError>(leaf_view(final(guard)@).lsn),
                    final(self).pool.wal@,
                ) == appended(
                    old(self).pool.wal@,
                    WalRecordType::SetXMax,
                    txn_id,
                    seq![data_block(old(guard).page_id, xmax_payload(slot as u16, txn_id))],
                    None,
                ),
                Err(_) => log_stuck(final(self).pool.wal@),
            },
            signed(*final(self), txn_id),
    {
        let ghost a = *self;
        let ghost leaf = leaf_view(guard@);
        let ghost low = self.shape@.low[guard.page_id];
        let pid: PageId = guard.page_id;
        LeafPageMutator::<K, V>::new(guard.memory_mut()).set_xmax(slot, txn_id);
        let ghost w = self.pool.wal@;
        let logged = self.pool.wal.log_set_xmax(txn_id, pid, slot as u16, txn_id);
        proof {
            lemma_mark_rows::<K, V>(leaf.rows, low, leaf.high, slot as int, txn_id);
            broadcast use crate::bytes::group_int_bytes;

            let bs = seq![data_block(pid, xmax_payload(slot as u16, txn_id))];
            lemma_small_record(bs, None);
            lemma_refused(w, WalRecordType::SetXMax, txn_id, bs, None);
            lemma_upheld_logged(a.pool, self.pool);
        }
        match logged {
            Ok(lsn) => {
                LeafPageMutator::<K, V>::new(guard.memory_mut()).set_lsn(lsn);
                let ghost now = state_of(guard@);
                self.trail = Ghost(Trail { open: a.trail@.open.insert(pid, now), ..a.trail@ });
                proof {
                    let payload = xmax_payload(slot as u16, txn_id);
                    law_blocks_are_readable(pid, payload, guard@);
                    if leaf.lsn < w.next {
                        law_logged_delete_is_redone(leaf, pid, slot as u16, txn_id, lsn);
                    }
                    lemma_logged_one(
                        a.pool,
                        self.pool,
                        WalRecordType::SetXMax,
                        txn_id,
                        data_block(pid, payload),
                        a.trail@,
                        PageState::Leaf(leaf),
                        now,
                    );
                }
                Ok(())
            },
            Err(e) => {
                self.trail = Ghost(parting(a.trail@));
                Err(e)
            },
        }
    }

    /// Deletes the version of the key that the transaction sees.
    pub fn delete(&mut self, key: &K::SelfType<'_>, txn: &Transaction, tm: &TransactionManager) -> (r:
        Result<(), IndexError>)
        requires
            old(self).wf(),
            K::encodable(K::model(*key)),
        ensures
            final(self).wf(),
            delete_outcome(
                *old(self),
                K::encode(K::model(*key)),
                *txn,
                tm@,
                r,
                *final(self),
            ),
            final(self).shape@ == old(self).shape@,
            marks_kept(*old(self), *final(self)),
            final(self).rooted() == old(self).rooted(),
            within(old(self).pool, final(self).pool, 1),
            fit(old(self).pool, 1) ==> !broke(r) && final(self).pool.able(),
    {
        let ghost a = *self;
        let r = self.mark_old(key, txn, tm);
        proof {
            if fit(a.pool, 1) {
                lemma_fit(a.pool, self.pool, 1);
            }
        }
        r
    }

    /// Finds the version and marks it.
    #[verifier::rlimit(40)]
    fn mark_old(&mut self, key: &K::SelfType<'_>, txn: &Transaction, tm: &TransactionManager) -> (r:
        Result<(), IndexError>)
        requires
            old(self).wf(),
            K::encodable(K::model(*key)),
        ensures
            final(self).wf(),
            delete_outcome(
                *old(self),
                K::encode(K::model(*key)),
                *txn,
                tm@,
                r,
                *final(self),
            ),
            final(self).shape@ == old(self).shape@,
            marks_kept(*old(self), *final(self)),
            final(self).rooted() == old(self).rooted(),
            within(old(self).pool, final(self).pool, 1),
    {
        let ghost a = *self;
        let key_bytes: Vec<u8> = K::as_bytes(key);
        proof {
            K::decode_of_encode(K::model(*key));
        }
        let found = self.run_of(key_bytes.as_slice());
        let ghost b = *self;
        proof {
            lemma_untouched_spared(a, b);
        }
        let (run, at) = match found {
            Ok(p) => p,
            Err(e) => {
                return Err(e);
            },
        };
        let (n, slot) = match find_in_run(self, &run, at, key_bytes.as_slice(), txn, tm) {
            Some(p) => p,
            None => {
                return Err(IndexError::KeyNotFound);
            },
        };
        let ghost j = at@ - n;
        assert(copied(*self, run@[n as int], j));
        let acc = LeafPageAccessor::<K, V>::new(run[n].page.as_slice());
        match check_write_conflict(acc.get_xmax(slot), txn, tm) {
            Ok(()) => {},
            Err(e) => {
                return Err(wait_for_txn(e, txn.txn_id));
            },
        }
        let pid: PageId = run[n].pid;
        let held_leaf = self.hold(pid, Ghost(j));
        let ghost c = *self;
        proof {
            lemma_steps(a, b, c);
            lemma_same_marks(a, c);
            assert(c.pool.page(0) == a.pool.page(0));
            assert(a.pool.able_but(None) ==> c.pool.able_but(None));
        }
        let mut guard = match held_leaf {
            Ok(g) => g,
            Err(e) => {
                return Err(e);
            },
        };
        proof {
            lemma_parts_wf::<K, V>(self.pool, self.root, self.shape@);
            assert(node_wf::<K, V>(self.pool, self.shape@, 0, j));
            lemma_same_view(guard@);
            lemma_on_trail(self.pool, self.trail@, guard);
        }
        let logged = self.mark_deleted(&mut guard, slot, txn.txn_id);
        proof {
            lemma_only_logged(c, *self);
            lemma_same_marks(c, *self);
            assert(self.pool.page(guard.page_id) == c.pool.page(guard.page_id));
            assert(self.pool.page(0) == c.pool.page(0));
            assert(held(c.pool, Set::empty().insert(guard.page_id), 1));
        }
        self.put_back(guard, Ghost(j));
        match logged {
            Ok(()) => Ok(()),
            Err(e) => Err(IndexError::Wal(e)),
        }
    }

    /// Holds a leaf for writing.
    fn hold(&mut self, pid: PageId, at: Ghost<int>) -> (r: Result<PageWriteGuard, IndexError>)
        requires
            old(self).wf(),
            0 <= at@ < old(self).shape@.levels[0].len(),
            old(self).shape@.levels[0][at@] == pid,
        ensures
            untouched(*old(self), *final(self)),
            final(self).parts() == old(self).parts(),
            match r {
                Ok(g) => {
                    &&& holds_leaf(*final(self), g, at@)
                    &&& !g.dirty
                    &&& g.page_id == pid
                },
                Err(e) => final(self).wf() && e is BufferPool && final(self).pool.faulty(),
            },
    {
        let ghost here = *self;
        let ghost sh = self.shape@;
        assert(node_wf::<K, V>(self.pool, sh, 0, at@));
        let fetched = self.pool.fetch_page_mut(pid);
        self.trail = Ghost(carried(here, self.pool.wal@));
        proof {
            lemma_carried(here, *self);
            lemma_untouched(here, *self);
        }
        match fetched {
            Ok(g) => {
                proof {
                    lemma_hold(here.pool, self.pool, Set::empty(), 0, pid);
                    lemma_same_view(g@);
                    assert(node_wf::<K, V>(self.pool, sh, 0, at@));
                    assert(self.pool.page(pid) == here.pool.page(pid));
                }
                Ok(g)
            },
            Err(e) => {
                assert(held(here.pool, Set::empty(), 0));
                Err(IndexError::BufferPool(e))
            },
        }
    }

    /// Replaces the version of the key that the transaction sees by a new one.
    pub fn update(
        &mut self,
        key: &K::SelfType<'_>,
        value: &V::SelfType<'_>,
        txn: &Transaction,
        tm: &TransactionManager,
    ) -> (r: Result<(), IndexError>)
        requires
            old(self).wf(),
            K::encodable(K::model(*key)),
            V::encodable(V::model(*value)),
            tm@.wf(),
        ensures
            final(self).wf(),
            update_outcome(
                *old(self),
                K::encode(K::model(*key)),
                V::encode(V::model(*value)),
                *txn,
                tm@,
                r,
                *final(self),
            ),
            stays_whole(*old(self), r is Ok, *final(self)),
            r is Ok && old(self).rooted() ==> final(self).rooted(),
            within(old(self).pool, final(self).pool, spend(old(self).shape@)),
            fit(old(self).pool, spend(old(self).shape@)) ==> !broke(r) && final(self).pool.able(),
    {
        let ghost a = *self;
        let r = self.put_over(key, value, txn, tm);
        proof {
            if fit(a.pool, spend(a.shape@)) {
                lemma_fit(a.pool, self.pool, spend(a.shape@));
            }
        }
        r
    }

    /// Finds the version, marks it and puts the new one in.
    #[verifier::rlimit(40)]
    fn put_over(
        &mut self,
        key: &K::SelfType<'_>,
        value: &V::SelfType<'_>,
        txn: &Transaction,
        tm: &TransactionManager,
    ) -> (r: Result<(), IndexError>)
        requires
            old(self).wf(),
            K::encodable(K::model(*key)),
            V::encodable(V::model(*value)),
            tm@.wf(),
        ensures
            final(self).wf(),
            update_outcome(
                *old(self),
                K::encode(K::model(*key)),
                V::encode(V::model(*value)),
                *txn,
                tm@,
                r,
                *final(self),
            ),
            stays_whole(*old(self), r is Ok, *final(self)),
            r is Ok && old(self).rooted() ==> final(self).rooted(),
            within(old(self).pool, final(self).pool, spend(old(self).shape@)),
    {
        let ghost a = *self;
        let key_bytes: Vec<u8> = K::as_bytes(key);
        let val_bytes: Vec<u8> = V::as_bytes(value);
        proof {
            lemma_spend(a.shape@);
            lemma_encoding_is_canonical::<K>(K::model(*key));
            lemma_encoding_is_canonical::<V>(V::model(*value));
            lemma_log_still(a.pool.wal@);
        }
        if key_bytes.len() > MAX_KEY_SIZE {
            return Err(IndexError::KeyTooLarge { size: key_bytes.len(), max: MAX_KEY_SIZE });
        }
        if val_bytes.len() > MAX_VALUE_SIZE {
            return Err(IndexError::ValueTooLarge { size: val_bytes.len(), max: MAX_VALUE_SIZE });
        }
        let marked_old = self.mark_old(key, txn, tm);
        let ghost m = *self;
        match marked_old {
            Ok(()) => {},
            Err(e) => {
                proof {
                    lemma_mark_failed(a, key_bytes@, val_bytes@, *txn, tm@, e, m);
                }
                return Err(e);
            },
        }
        let r = self.put_version(key_bytes.as_slice(), val_bytes.as_slice(), txn.txn_id, tm);
        proof {
            lemma_mark_then(a, m, key_bytes@, val_bytes@, *txn, tm@, r, *self);
        }
        r
    }
}

/// The version could not be marked.
proof fn lemma_mark_failed<K: Key, V: Value>(
    a: BTreeIndex<K, V>,
    k: Seq<u8>,
    v: Seq<u8>,
    txn: Transaction,
    tm: TmView,
    e: IndexError,
    m: BTreeIndex<K, V>,
)
    requires
        k.len() <= MAX_KEY_SIZE,
        v.len() <= MAX_VALUE_SIZE,
        delete_outcome(a, k, txn, tm, Err(e), m),
    ensures
        update_outcome(a, k, v, txn, tm, Err(e), m),
{
}

/// A row that is marked leaves every key to the leaf that it belonged to.
proof fn lemma_mark_cover<K: Key, V: Value>(
    a: BTreeIndex<K, V>,
    m: BTreeIndex<K, V>,
    k: Seq<u8>,
    x: int,
    txn_id: u64,
)
    requires
        a.wf(),
        m.wf(),
        K::accepts(k),
        0 <= x < all_rows(a.parts()).len(),
        m.parts() == marked(a.parts(), x, txn_id),
    ensures
        cover::<K>(m.parts(), k) == cover::<K>(a.parts(), k),
        0 <= cover::<K>(a.parts(), k) < a.parts().len(),
        m.parts().len() == a.parts().len(),
{
    let i = cover::<K>(a.parts(), k);
    lemma_row_of(a.parts(), x);
    lemma_parts_wf::<K, V>(a.pool, a.root, a.shape@);
    lemma_parts_wf::<K, V>(m.pool, m.root, m.shape@);
    crate::index::laws::lemma_covered::<K>(a.parts(), k);
    assert(covers::<K>(m.parts(), k, i));
    lemma_cover::<K>(m.parts(), k, i);
}

/// What a crash falls back to where a version was marked and a new one put.
proof fn lemma_mark_floor<K: Key, V: Value>(
    a: BTreeIndex<K, V>,
    m: BTreeIndex<K, V>,
    i: int,
    k: Seq<u8>,
    v: Seq<u8>,
    txn_id: u64,
    tm: TmView,
    failed: bool,
    c: BTreeIndex<K, V>,
)
    requires
        spared(a, m, false),
        floats(a, m, a.parts()),
        signed(m, txn_id),
        spared(m, c, failed),
        0 <= i < m.parts().len(),
        written_floor(m, m.parts(), i, m.parts()[i], false, k, v, txn_id, tm, c),
    ensures
        written_floor(a, m.parts(), i, m.parts()[i], true, k, v, txn_id, tm, c),
        signed(c, txn_id),
{
    let q = m.parts();
    if c.pool.wal@.error is None && !c.trail@.parted {
        lemma_told_chain(a, m, c);
        assert(names(log_records(m.pool.wal@), txn_id));
        assert(names(log_records(c.pool.wal@), txn_id));
        let stage = seq![q[i]];
        assert(splice(q, i, stage) =~= q);
        assert(put_stage::<K>(q[i], k, v, txn_id, tm.global_xmin(), tm, stage));
        if told_by(m, c) {
            assert(names(read_all(c.pool.wal@.segments), txn_id));
        }
    }
}

/// The version was marked, and a new one put.
proof fn lemma_mark_then<K: Key, V: Value>(
    a: BTreeIndex<K, V>,
    m: BTreeIndex<K, V>,
    k: Seq<u8>,
    v: Seq<u8>,
    txn: Transaction,
    tm: TmView,
    r: Result<(), IndexError>,
    c: BTreeIndex<K, V>,
)
    requires
        a.wf(),
        m.wf(),
        K::accepts(k),
        k.len() <= MAX_KEY_SIZE,
        v.len() <= MAX_VALUE_SIZE,
        delete_outcome(a, k, txn, tm, Ok(()), m),
        spared(m, c, broke(r)),
        ({
            let i = cover::<K>(m.parts(), k);
            let p = m.parts()[i];
            &&& stopped(m, r, c) || put_outcome(m.parts(), i, p, k, v, txn.txn_id, tm, r, c)
            &&& written_floor(m, m.parts(), i, p, false, k, v, txn.txn_id, tm, c)
        }),
    ensures
        update_outcome(a, k, v, txn, tm, r, c),
{
    let x = first_visible::<K>(all_rows(a.parts()), k, txn, tm, 0)->0;
    crate::index::laws::lemma_first_visible::<K>(all_rows(a.parts()), k, txn, tm, 0);
    lemma_mark_cover(a, m, k, x, txn.txn_id);
    let i = cover::<K>(m.parts(), k);
    lemma_mark_floor(a, m, i, k, v, txn.txn_id, tm, broke(r), c);
    lemma_spared_chain(a, m, c, broke(r));
}

/// A row that is marked keeps its place.
pub proof fn lemma_mark_rows<K: Key, V: Value>(
    rows: Seq<Version>,
    low: Option<Seq<u8>>,
    high: Option<Seq<u8>>,
    s: int,
    txn_id: u64,
)
    requires
        good_rows::<K, V>(rows, low, high),
        0 <= s < rows.len(),
    ensures
        ({
            let out = rows.update(s, Version { xmax: txn_id, ..rows[s] });
            good_rows::<K, V>(out, low, high) && packed_room(high, out) == packed_room(high, rows)
        }),
{
    let out = rows.update(s, Version { xmax: txn_id, ..rows[s] });
    lemma_rows_bytes_edit(rows, s, Version { xmax: txn_id, ..rows[s] });
    assert forall|i: int, j: int| 0 <= i < j < out.len() implies K::le(out[i].key, out[j].key) by {
        assert(K::le(rows[i].key, rows[j].key));
    }
}

} // verus!
