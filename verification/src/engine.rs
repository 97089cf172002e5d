//! The engine: one typed index with its log, its buffer pool and its transactions.
//!
//! A transaction that wrote counts as committed only after its commit record is in the
//! log's segments. A transaction that aborts needs no durable record: one without a commit
//! record counts as aborted anyway.

pub mod answers;
pub mod crash;
pub mod endings;
pub mod history;
pub mod ops;
pub mod restart;
pub mod told;
pub mod txn;

use crate::buffer_pool::manager::{lemma_able, BufferPoolManager};
use crate::buffer_pool::shard::{disk_ok, wal_ok};
use crate::disk::DiskManager;
use crate::engine::ops::{
    deleted_in, inserted_in, read_in, storage_failed, updated_in, writer,
};
use crate::engine::restart::reopened;
use crate::engine::txn::{abort_outcome, commit_outcome, TxnHandle};
use crate::error::{EngineError, LogDamage, WalError};
use crate::index::{fit, lemma_fitter, lemma_still_fit, spend, BTreeIndex};
use crate::index::lifecycle::{blank, durable, newly_created};
use crate::index::trail::{calm, calmed, fits, kept, lemma_backed_step, lemma_starting, log_records};
use crate::index::tree::{leaf_parts, tree_wf, Shape};
use crate::index::vacuum::vacuum_outcome;
use crate::page::meta::root_of;
use crate::page::{intact, plain, PageId};
use crate::recovery::clog::{names, rebuild};
use crate::recovery::read_log;
use crate::recovery::redo::{state_of, PageState};
use crate::recovery::replay::{after_log, leads, named, recovered, replay, unread};
use crate::transaction::Transaction;
use crate::transaction_manager::{TmView, TransactionManager};
use crate::types::{Key, Value};
use crate::wal::record::RecordView;
use crate::wal::segment::read_all;
use crate::wal::{lemma_log_chain, log_step, Wal};
use std::marker::PhantomData;
use vstd::prelude::*;

verus! {

/// A database with a single typed index.
pub struct Engine<K: Key, V: Value> {
    pub index: BTreeIndex<K, V>,
    pub transaction_manager: TransactionManager,
}

impl<K: Key, V: Value> Engine<K, V> {
    pub open spec fn wf(&self) -> bool {
        self.index.wf() && self.transaction_manager@.wf()
    }

    /// The transactions.
    pub open spec fn tm(&self) -> TmView {
        self.transaction_manager@
    }

    /// Creates a database in an empty data file: when it returns, the file holds the pages
    /// of an empty index. Refuses a data file with pages. Gives the storage back, in a
    /// pool, where writing fails.
    pub fn create(disk: DiskManager, wal: Wal) -> (r: Result<
        Self,
        (EngineError, Option<BufferPoolManager>),
    >)
        requires
            K::width_fits(),
            V::width_fits(),
            disk_ok(&disk),
            wal_ok(&wal),
            disk@.broken is None,
        ensures
            match r {
                Ok(e) => {
                    &&& disk@.count == 0
                    &&& e.wf()
                    &&& newly_created(e.index)
                    &&& durable(e.index.pool, 0)
                    &&& durable(e.index.pool, e.index.root)
                    &&& log_step(wal@, e.index.pool.wal@)
                    &&& blank(wal@) && e.index.pool.wal@.error is None ==> !e.index.trail@.parted
                    &&& e.index.trail@.floor == e.index.parts()
                    &&& e.tm().next == 1
                    &&& e.tm().active.len() == 0
                    &&& e.tm().clog.dom() =~= Set::empty()
                    &&& e.tm().swept == 0
                },
                Err((e, None)) => e is AlreadyExists && disk@.count > 0,
                Err((e, Some(p))) => {
                    &&& disk@.count == 0
                    &&& e is Index
                    &&& e->Index_0 is BufferPool
                    &&& p.faulty()
                },
            },
            disk@.count == 0 && wal@.ready() ==> (r matches Ok(e) && e.index.pool.able()),
    {
        match disk.num_pages() {
            Ok(n) => if n > 0 {
                return Err((EngineError::AlreadyExists, None));
            },
            Err(e) => {
                return Err((EngineError::Disk(e), None));
            },
        }
        let pool = BufferPoolManager::new(disk, wal);
        match BTreeIndex::<K, V>::create(pool) {
            Ok((index, _root)) => Ok(
                Engine { index, transaction_manager: TransactionManager::new() },
            ),
            Err((e, p)) => Err((EngineError::Index(e), Some(p))),
        }
    }

    /// Opens the database that the data file holds: repeats the log on the pages, rebuilds
    /// the commit log, and opens the index. Refuses a data file without pages, a log that
    /// does not fit the pages, and a data file without a metadata page of this format. Gives
    /// the storage back, in a pool, where it has been used.
    pub fn open(disk: DiskManager, wal: Wal) -> (r: Result<
        Self,
        (EngineError, Option<BufferPoolManager>),
    >)
        requires
            K::width_fits(),
            V::width_fits(),
            disk_ok(&disk),
            wal_ok(&wal),
            disk@.broken is None,
        ensures
            ({
                let recs = read_all(wal@.segments);
                match r {
                    Ok(e) => reopened(disk@, wal@, e),
                    Err((e, None)) => {
                        ||| e is NotFound && disk@.count == 0
                        ||| disk@.count > 0 && e is Wal && names(recs, u64::MAX)
                    },
                    Err((e, Some(p))) => {
                        &&& disk@.count > 0
                        &&& {
                            ||| e is BufferPool && p.faulty()
                            ||| e is Index && e->Index_0 is BufferPool && p.faulty()
                            ||| e is Wal && exists|id: u64| #[trigger]
                                recovered(disk@, recs, id) is None
                            ||| e is Index && e->Index_0 is CorruptMetadata && !names_root(
                                recovered(disk@, recs, 0),
                            )
                        }
                    },
                }
            }),
            wal@.ready() && (forall|id: u64|
                id < disk@.count ==> intact(#[trigger] disk@.content(id))) ==> match r {
                Ok(e) => e.index.pool.able(),
                Err((e, Some(p))) => p.able() && (e is BufferPool || e is Index && e->Index_0 is BufferPool
                    ==> p.next_page_id == u64::MAX),
                Err((_, None)) => true,
            },
    {
        match disk.num_pages() {
            Ok(n) => if n == 0 {
                return Err((EngineError::NotFound, None));
            },
            Err(e) => {
                return Err((EngineError::Disk(e), None));
            },
        }
        let ghost recs = read_all(wal@.segments);
        let records = read_log(&wal.writer.segments);
        let transaction_manager = match rebuild(&records) {
            Some(tm) => tm,
            None => {
                return Err(
                    (EngineError::Wal(WalError::CorruptedLog(LogDamage::TransactionIds)), None),
                );
            },
        };
        let mut pool = BufferPoolManager::new(disk, wal);
        let ghost p0 = pool;
        let replayed_log = replay(&mut pool, &records);
        let ghost p1 = pool;
        proof {
            if p1.able() {
                lemma_able(p1, None);
            }
            assert forall|id: u64| #[trigger] recovered(disk@, recs, id) == after_log(
                p0,
                recs,
                id,
            ) by {
                assert(p0.page(id) == plain(disk@.content(id)));
            }
        }
        match replayed_log {
            Ok(()) => {},
            Err(e) => {
                proof {
                    if !(e is BufferPool) {
                        let x = choose|x: u64| #[trigger] after_log(p0, recs, x) is None;
                        assert(recovered(disk@, recs, x) is None);
                    }
                }
                return Err((e, Some(pool)));
            },
        }
        proof {
            if fits(disk@, wal@) && wal@.waiting.len() == 0 && p1.wal@.error is None {
                lemma_replayed(p0, p1, recs);
            }
            assert forall|id: u64| #[trigger] recovered(disk@, recs, id) == Some(
                state_of(p1.page(id)),
            ) by {
                assert(Some(state_of(p1.page(id))) == after_log(p0, recs, id));
            }
        }
        match BTreeIndex::<K, V>::open(pool) {
            Ok(index) => {
                proof {
                    lemma_log_chain(wal@, p1.wal@, index.pool.wal@);
                    assert forall|id: u64| #[trigger] recovered(disk@, recs, id) == Some(
                        state_of(index.pool.page(id)),
                    ) by {
                        assert(index.pool.page(id) == p1.page(id));
                    }
                    assert forall|sh: Shape| #[trigger]
                        tree_wf::<K, V>(index.pool, index.root, sh) implies {
                        &&& index.wf()
                        &&& index.parts() == leaf_parts(index.pool, sh)
                        &&& index.trail@.floor == index.parts()
                        &&& fits(disk@, wal@) && wal@.waiting.len() == 0 && index.pool.wal@.error is None
                            ==> !index.trail@.parted
                    } by {
                        crate::index::tree::lemma_tree_kept::<K, V>(
                            index.pool,
                            p1,
                            index.root,
                            sh,
                        );
                    }
                }
                Ok(Engine { index, transaction_manager })
            },
            Err((e, p)) => {
                proof {
                    assert(recovered(disk@, recs, 0) == Some(state_of(p1.page(0))));
                    if e is CorruptMetadata {
                        lemma_names_root(p1, 0);
                    }
                }
                Err((EngineError::Index(e), Some(p)))
            },
        }
    }
}

/// What repeating the log leaves is what repeating it again would give.
proof fn lemma_replayed(a: BufferPoolManager, b: BufferPoolManager, recs: Seq<RecordView>)
    requires
        a.wf(),
        b.wf(),
        unread(a),
        fits(a.disk@, a.wal@),
        log_step(a.wal@, b.wal@),
        b.wal@.error is None,
        log_records(a.wal@) == recs,
        forall|x: u64| #[trigger] leads(a, b, recs, x),
        forall|x: u64| Some(state_of(#[trigger] b.page(x))) == after_log(a, recs, x),
    ensures
        kept(b, Map::empty()),
{
    assert forall|id: PageId| calmed(#[trigger] recovered(b.disk@, log_records(b.wal@), id))
        == Some(calm(state_of(b.page(id)))) by {
        assert(leads(a, b, recs, id));
        assert(Some(state_of(b.page(id))) == after_log(a, recs, id));
    }
    assert forall|id: PageId| named(recs, state_of(plain(#[trigger] b.disk@.content(id))).lsn()) by {
        assert(leads(a, b, recs, id));
        assert(a.page(id) == plain(a.disk@.content(id)));
        assert(named(recs, state_of(plain(a.disk@.content(id))).lsn()));
    }
    lemma_backed_step(a.wal@, b.wal@);
    lemma_starting(b);
}

/// The page is a metadata page.
pub open spec fn names_root(st: Option<PageState>) -> bool {
    st matches Some(PageState::Raw(page)) && root_of(page) is Some
}

/// A page that names no root holds none that could be named.
proof fn lemma_names_root(p: BufferPoolManager, id: PageId)
    requires
        p.wf(),
        root_of(p.page(id)) is None,
    ensures
        !names_root(Some(state_of(p.page(id)))),
{
    crate::buffer_pool::manager::lemma_page_len(p, id);
    crate::index::tree::lemma_same_meta(p.page(id));
}

/// The transaction that begins next.
pub open spec fn begins<K: Key, V: Value>(a: Engine<K, V>, txn: Transaction, m: Engine<K, V>) -> bool {
    &&& m.wf()
    &&& m.index == a.index
    &&& m.tm() == a.tm().begun()
    &&& txn.txn_id == a.tm().next
    &&& !txn.wrote
    &&& txn.snapshot.xmin == m.tm().active[0]
    &&& txn.snapshot.xmax == m.tm().next
    &&& txn.snapshot.active@ == m.tm().active
}

/// A transaction of one write ends: it is committed where the write succeeded, else
/// aborted.
pub open spec fn autocommitted<K: Key, V: Value>(
    m: Engine<K, V>,
    txn: Transaction,
    done: Result<(), EngineError>,
    r: Result<(), EngineError>,
    b: Engine<K, V>,
) -> bool {
    match done {
        Ok(()) => commit_outcome(m, txn, r, b),
        Err(e) => r == done && exists|ra: Result<(), EngineError>| #[trigger]
            abort_outcome(m, txn, ra, b),
    }
}

impl<K: Key, V: Value> Engine<K, V> {
    /// Ends a transaction of one write.
    fn autocommit(&mut self, txn: &Transaction, done: Result<(), EngineError>) -> (r: Result<
        (),
        EngineError,
    >)
        requires
            old(self).wf(),
        ensures
            autocommitted(*old(self), *txn, done, r, *final(self)),
            fit(old(self).index.pool, 1) && !storage_failed(done) ==> !storage_failed(r) && final(self).index.pool.able(),
    {
        match done {
            Ok(()) => self.commit(txn),
            Err(e) => {
                let _aborted = self.abort(txn);
                assert(abort_outcome(*old(self), *txn, _aborted, *self));
                Err(e)
            },
        }
    }

    /// Inserts a key, in a transaction of its own.
    pub fn insert(&mut self, key: &K::SelfType<'_>, value: &V::SelfType<'_>) -> (r: Result<
        (),
        EngineError,
    >)
        requires
            old(self).wf(),
            old(self).tm().next < u64::MAX,
            K::encodable(K::model(*key)),
            V::encodable(V::model(*value)),
        ensures
            exists|txn: Transaction, m0: Self, done: Result<(), EngineError>, m1: Self|
                #![trigger begins(*old(self), txn, m0), autocommitted(m1, writer(txn), done, r, *final(self))]
                {
                    &&& begins(*old(self), txn, m0)
                    &&& inserted_in(
                        m0,
                        writer(txn),
                        K::encode(K::model(*key)),
                        V::encode(V::model(*value)),
                        done,
                        m1,
                    )
                    &&& autocommitted(m1, writer(txn), done, r, *final(self))
                },
            fit(old(self).index.pool, spend(old(self).index.shape@) + 1) ==> !storage_failed(r) && final(self).index.pool.able(),
    {
        let mut txn = self.transaction_manager.begin();
        let ghost t0 = txn;
        let ghost m0 = *self;
        let done = self.insert_in(&mut txn, key, value);
        let ghost m1 = *self;
        proof {
            let n = spend(old(self).index.shape@);
            if fit(old(self).index.pool, n + 1) {
                lemma_still_fit(old(self).index.pool, m1.index.pool, n as int, 1);
                lemma_fitter(old(self).index.pool, n as int, 1);
            }
        }
        let r = self.autocommit(&txn, done);
        assert(begins(*old(self), t0, m0));
        assert(autocommitted(m1, writer(t0), done, r, *self));
        r
    }

    /// Reads a key, in a transaction of its own.
    pub fn get(&mut self, key: &K::SelfType<'_>) -> (r: Result<Option<Vec<u8>>, EngineError>)
        requires
            old(self).wf(),
            old(self).tm().next < u64::MAX,
            K::encodable(K::model(*key)),
        ensures
            exists|txn: Transaction, m0: Self, done: Result<Option<Vec<u8>>, EngineError>, m1: Self|
                #![trigger begins(*old(self), txn, m0), read_ended(m1, txn, done, r, *final(self))]
                {
                    &&& begins(*old(self), txn, m0)
                    &&& read_in(m0, txn, K::encode(K::model(*key)), done, m1)
                    &&& read_ended(m1, txn, done, r, *final(self))
                },
            fit(old(self).index.pool, 0) ==> r is Ok && final(self).index.pool.able(),
    {
        let txn = self.transaction_manager.begin();
        let ghost m0 = *self;
        let done = self.get_in(&txn, key);
        let ghost m1 = *self;
        assert(begins(*old(self), txn, m0));
        match done {
            Ok(v) => {
                let committed = self.commit(&txn);
                assert(read_ended(m1, txn, Ok(v), Ok(v), *self));
                match committed {
                    Ok(()) => Ok(v),
                    Err(e) => Err(e),
                }
            },
            Err(e) => {
                let _aborted = self.abort(&txn);
                assert(abort_outcome(m1, txn, _aborted, *self));
                assert(read_ended(m1, txn, Err(e), Err(e), *self));
                Err(e)
            },
        }
    }

    /// Replaces the value of a key, in a transaction of its own.
    pub fn update(&mut self, key: &K::SelfType<'_>, value: &V::SelfType<'_>) -> (r: Result<
        (),
        EngineError,
    >)
        requires
            old(self).wf(),
            old(self).tm().next < u64::MAX,
            K::encodable(K::model(*key)),
            V::encodable(V::model(*value)),
        ensures
            exists|txn: Transaction, m0: Self, done: Result<(), EngineError>, m1: Self|
                #![trigger begins(*old(self), txn, m0), autocommitted(m1, writer(txn), done, r, *final(self))]
                {
                    &&& begins(*old(self), txn, m0)
                    &&& updated_in(
                        m0,
                        writer(txn),
                        K::encode(K::model(*key)),
                        V::encode(V::model(*value)),
                        done,
                        m1,
                    )
                    &&& autocommitted(m1, writer(txn), done, r, *final(self))
                },
            fit(old(self).index.pool, spend(old(self).index.shape@) + 1) ==> !storage_failed(r) && final(self).index.pool.able(),
    {
        let mut txn = self.transaction_manager.begin();
        let ghost t0 = txn;
        let ghost m0 = *self;
        let done = self.update_in(&mut txn, key, value);
        let ghost m1 = *self;
        proof {
            let n = spend(old(self).index.shape@);
            if fit(old(self).index.pool, n + 1) {
                lemma_still_fit(old(self).index.pool, m1.index.pool, n as int, 1);
                lemma_fitter(old(self).index.pool, n as int, 1);
            }
        }
        let r = self.autocommit(&txn, done);
        assert(begins(*old(self), t0, m0));
        assert(autocommitted(m1, writer(t0), done, r, *self));
        r
    }

    /// Deletes a key, in a transaction of its own.
    pub fn delete(&mut self, key: &K::SelfType<'_>) -> (r: Result<(), EngineError>)
        requires
            old(self).wf(),
            old(self).tm().next < u64::MAX,
            K::encodable(K::model(*key)),
        ensures
            exists|txn: Transaction, m0: Self, done: Result<(), EngineError>, m1: Self|
                #![trigger begins(*old(self), txn, m0), autocommitted(m1, writer(txn), done, r, *final(self))]
                {
                    &&& begins(*old(self), txn, m0)
                    &&& deleted_in(m0, writer(txn), K::encode(K::model(*key)), done, m1)
                    &&& autocommitted(m1, writer(txn), done, r, *final(self))
                },
            fit(old(self).index.pool, 2) ==> !storage_failed(r) && final(self).index.pool.able(),
    {
        let mut txn = self.transaction_manager.begin();
        let ghost t0 = txn;
        let ghost m0 = *self;
        let done = self.delete_in(&mut txn, key);
        let ghost m1 = *self;
        proof {
            let n = 1int;
            if fit(old(self).index.pool, n + 1) {
                lemma_still_fit(old(self).index.pool, m1.index.pool, n as int, 1);
                lemma_fitter(old(self).index.pool, n as int, 1);
            }
        }
        let r = self.autocommit(&txn, done);
        assert(begins(*old(self), t0, m0));
        assert(autocommitted(m1, writer(t0), done, r, *self));
        r
    }

    /// Begins a transaction.
    pub fn begin(&mut self) -> (h: TxnHandle<K, V>)
        requires
            old(self).wf(),
            old(self).tm().next < u64::MAX,
        ensures
            begins(*old(self), h.txn, *final(self)),
            !h.poisoned,
    {
        TxnHandle {
            txn: self.transaction_manager.begin(),
            poisoned: false,
            _key: PhantomData,
            _val: PhantomData,
        }
    }

    /// Sweeps the index. A sweep that reaches the last leaf advances the vacuum horizon; one
    /// that fails publishes nothing.
    pub fn vacuum(&mut self) -> (r: Result<usize, EngineError>)
        requires
            old(self).wf(),
        ensures
            final(self).wf(),
            final(self).index.rooted() == old(self).index.rooted(),
            match r {
                Ok(n) => vacuum_outcome(
                    old(self).index,
                    old(self).tm(),
                    Ok(n),
                    final(self).index,
                    final(self).tm(),
                ),
                Err(e) => e is Index && vacuum_outcome(
                    old(self).index,
                    old(self).tm(),
                    Err(e->Index_0),
                    final(self).index,
                    final(self).tm(),
                ),
            },
            fit(old(self).index.pool, old(self).index.parts().len() as int) ==> r is Ok && final(self).index.pool.able(),
    {
        match self.index.vacuum(&mut self.transaction_manager) {
            Ok(n) => Ok(n),
            Err(e) => Err(EngineError::Index(e)),
        }
    }
}

/// A transaction of one read ends.
pub open spec fn read_ended<K: Key, V: Value>(
    m: Engine<K, V>,
    txn: Transaction,
    done: Result<Option<Vec<u8>>, EngineError>,
    r: Result<Option<Vec<u8>>, EngineError>,
    b: Engine<K, V>,
) -> bool {
    &&& r == done
    &&& match done {
        Ok(_) => commit_outcome(m, txn, Ok(()), b),
        Err(_) => exists|ra: Result<(), EngineError>| #[trigger] abort_outcome(m, txn, ra, b),
    }
}

} // verus!
