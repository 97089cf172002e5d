//! How transactions end.
//!
//! A commit that wrote appends a `Commit` record, flushes the log up to it, and only then
//! tells the transaction manager. An abort appends an `Abort` record and does not flush.
//!
//! A host that keeps the log in files makes the commit in two steps: `TxnHandle::prepare`
//! appends and flushes, the host writes what the log gained, and `Ending::settle` takes what
//! came of that writing. In between the transaction counts as active.

use crate::buffer_pool::manager::{lemma_upheld_logged, BufferPoolManager};
use crate::engine::Engine;
use crate::engine::ops::{
    deleted_in, inserted_in, read_in, storage_failed, updated_in, writer,
};
use crate::error::{EngineError, IoError, WalError};
use crate::index::floor::{carried, floor_kept, lemma_carried};
use crate::index::smo::{
    lemma_only_logged, lemma_pool_kept, lemma_refused, only_logged, same_pages,
};
use crate::index::trail::{lemma_sound_logged, lemma_sound_refused, opened, passed, within};
use crate::index::{fit, held, spend, BTreeIndex, LOG_NEED};
use crate::page::Lsn;
use crate::recovery::redo::PageState;
use crate::transaction::Transaction;
use crate::transaction_manager::TransactionStatus;
use crate::types::{Key, Value};
use crate::wal::record::{BlockView, WalRecordType};
use crate::wal::{appended, flushed_up_to, lemma_ready, WalView};
use std::marker::PhantomData;
use vstd::prelude::*;

verus! {

/// Only the log and the transactions changed.
pub open spec fn settled_engine<K: Key, V: Value>(a: Engine<K, V>, b: Engine<K, V>) -> bool {
    &&& b.wf()
    &&& same_pages(a.index, b.index)
    &&& b.index.trail@.open == a.index.trail@.open
    &&& b.index.trail@.parted == a.index.trail@.parted
    &&& passed(a.index.pool, a.index.trail@, b.index.pool, b.index.trail@)
    &&& b.index.parts() == a.index.parts()
    &&& b.index.rooted() == a.index.rooted()
}

/// The log before a commit record is flushed.
pub open spec fn commit_logged(w: WalView, id: u64) -> (Result<Lsn, WalError>, WalView) {
    appended(w, WalRecordType::Commit, id, Seq::empty(), None)
}

/// What the log gains by a commit: nothing where the transaction wrote nothing, else its
/// record, and the log is flushed up to it.
pub open spec fn commit_written<K: Key, V: Value>(
    a: Engine<K, V>,
    txn: Transaction,
    r: Result<(), EngineError>,
    b: Engine<K, V>,
) -> bool {
    let (logged, w) = commit_logged(a.index.pool.wal@, txn.txn_id);
    if !txn.wrote {
        r is Ok && b.index == a.index
    } else {
        match logged {
            Err(e) => {
                &&& r == Err::<(), EngineError>(EngineError::Wal(e))
                &&& b.index.pool.wal@ == w
                &&& floor_kept(a.index, b.index)
            },
            Ok(lsn) => {
                &&& r is Ok ==> b.index.pool.wal@ == flushed_up_to(w, lsn).1
                    && b.index.pool.wal@.written_up_to(lsn)
                &&& r is Ok ==> b.index.trail@.floor == b.index.parts()
                &&& r is Err ==> b.index.pool.wal@.error is Some && r == Err::<(), EngineError>(
                    EngineError::Wal(WalError::FlushFailed(b.index.pool.wal@.error->0)),
                )
                &&& r is Err && w.broken is Some ==> b.index.pool.wal@.segments
                    == a.index.pool.wal@.segments
                &&& w.writable() ==> r is Ok && b.index.pool.wal@ == flushed_up_to(w, lsn).1
            },
        }
    }
}

/// The verdict on a transaction whose commit ended like this.
pub open spec fn verdict(r: Result<(), EngineError>) -> TransactionStatus {
    if r is Ok {
        TransactionStatus::Committed
    } else {
        TransactionStatus::Aborted
    }
}

/// What a commit comes to. A transaction that wrote counts as committed exactly where its
/// record was appended and the log was flushed up to it; else it counts as aborted.
pub open spec fn commit_outcome<K: Key, V: Value>(
    a: Engine<K, V>,
    txn: Transaction,
    r: Result<(), EngineError>,
    b: Engine<K, V>,
) -> bool {
    &&& settled_engine(a, b)
    &&& b.tm() == a.tm().settled(txn.txn_id, verdict(r))
    &&& commit_written(a, txn, r, b)
}

/// What an abort comes to. The transaction counts as aborted, unless it wrote and its
/// record could not be appended.
pub open spec fn abort_outcome<K: Key, V: Value>(
    a: Engine<K, V>,
    txn: Transaction,
    r: Result<(), EngineError>,
    b: Engine<K, V>,
) -> bool {
    let id = txn.txn_id;
    let (logged, w) = appended(
        a.index.pool.wal@,
        WalRecordType::Abort,
        id,
        Seq::empty(),
        None,
    );
    &&& settled_engine(a, b)
    &&& b.tm() == (if r is Ok {
        a.tm().settled(id, TransactionStatus::Aborted)
    } else {
        a.tm()
    })
    &&& if !txn.wrote {
        r is Ok && b.index == a.index
    } else {
        &&& b.index.pool.wal@ == w
        &&& floor_kept(a.index, b.index)
        &&& r == (match logged {
            Ok(_) => Ok::<(), EngineError>(()),
            Err(e) => Err(EngineError::Wal(e)),
        })
    }
}

/// A step of the log alone.
proof fn lemma_log_step<K: Key, V: Value>(a: BTreeIndex<K, V>, b: BTreeIndex<K, V>)
    requires
        a.wf(),
        only_logged(a, b),
        b.trail@ == a.trail@,
    ensures
        b.wf(),
        b.parts() == a.parts(),
        b.rooted() == a.rooted(),
{
    lemma_only_logged(a, b);
    assert(held(a.pool, Set::empty(), 0));
    assert(b.pool.page(0) == a.pool.page(0));
}

/// A record that names no page was appended, or refused.
proof fn lemma_ended<K: Key, V: Value>(
    a: BTreeIndex<K, V>,
    b: BTreeIndex<K, V>,
    kind: WalRecordType,
    id: u64,
)
    requires
        a.wf(),
        b == (BTreeIndex { pool: BufferPoolManager { wal: b.pool.wal, ..a.pool }, ..a }),
        b.pool.wal.wf(),
        b.pool.wal@ == appended(a.pool.wal@, kind, id, Seq::empty(), None).1,
    ensures
        only_logged(a, b),
        passed(a.pool, a.trail@, b.pool, b.trail@),
{
    let none = Seq::<BlockView>::empty();
    let states = Seq::<PageState>::empty();
    if appended(a.pool.wal@, kind, id, none, None).0 is Ok {
        lemma_sound_logged(a.pool, b.pool, kind, id, none, None, a.trail@, states);
        assert(opened(a.trail@.open, none, states, 0) == a.trail@.open);
    } else {
        lemma_sound_refused(a.pool, b.pool, kind, id, none, None, a.trail@);
    }
}

/// A log with room takes the record of a transaction's end.
proof fn lemma_end_fits(w: WalView, kind: WalRecordType, id: u64)
    requires
        w.wf(),
    ensures
        ({
            let (logged, after) = appended(w, kind, id, Seq::empty(), None);
            &&& after.next <= w.next + 1
            &&& w.ready() ==> after.ready()
            &&& w.ready() && w.next < u64::MAX && w.free >= LOG_NEED && w.segment_size >= LOG_NEED
                ==> logged is Ok
        }),
{
    let none = Seq::<BlockView>::empty();
    crate::wal::log::lemma_small_record(none, None);
    lemma_refused(w, kind, id, none, None);
}

impl<K: Key, V: Value> Engine<K, V> {
    /// Commits a transaction. One that wrote is observable as committed only once its
    /// record is durable; where that fails, it is aborted.
    pub(crate) fn commit(&mut self, txn: &Transaction) -> (r: Result<(), EngineError>)
        requires
            old(self).wf(),
        ensures
            commit_outcome(*old(self), *txn, r, *final(self)),
            within(old(self).index.pool, final(self).index.pool, 1),
            fit(old(self).index.pool, 1) ==> r is Ok && final(self).index.pool.able(),
    {
        let logged = self.log_end(txn);
        self.pronounce(txn.txn_id, logged)
    }

    /// Tells the transaction manager how the transaction's commit ended.
    fn pronounce(&mut self, txn_id: u64, logged: Result<(), EngineError>) -> (r: Result<
        (),
        EngineError,
    >)
        requires
            old(self).wf(),
        ensures
            final(self).wf(),
            final(self).index == old(self).index,
            final(self).tm() == old(self).tm().settled(txn_id, verdict(logged)),
            r == logged,
    {
        match &logged {
            Ok(()) => self.transaction_manager.mark_committed(txn_id),
            Err(_) => self.transaction_manager.mark_aborted(txn_id),
        }
        logged
    }

    /// Appends the record of a transaction that wrote, and flushes the log up to it. The
    /// transaction manager is not told yet.
    fn log_end(&mut self, txn: &Transaction) -> (r: Result<(), EngineError>)
        requires
            old(self).wf(),
        ensures
            settled_engine(*old(self), *final(self)),
            final(self).transaction_manager == old(self).transaction_manager,
            commit_written(*old(self), *txn, r, *final(self)),
            within(old(self).index.pool, final(self).index.pool, 1),
            fit(old(self).index.pool, 1) ==> r is Ok && final(self).index.pool.able(),
    {
        let ghost a = self.index;
        proof {
            lemma_end_fits(a.pool.wal@, WalRecordType::Commit, txn.txn_id);
        }
        if !txn.wrote_anything() {
            return Ok(());
        }
        let logged = self.index.pool.wal.log_commit(txn.txn_id);
        let ghost b = self.index;
        proof {
            lemma_ended(a, b, WalRecordType::Commit, txn.txn_id);
            lemma_log_step(a, b);
            lemma_upheld_logged(a.pool, b.pool);
            if a.pool.able() {
                assert(b.pool.able_but(None));
            }
            if b.pool.wal@.ready() {
                lemma_ready(b.pool.wal@);
            }
        }
        match logged {
            Ok(lsn) => {
                let flushed = self.index.pool.wal.flush_up_to(lsn);
                self.index.trail = Ghost(carried(b, self.index.pool.wal@));
                proof {
                    assert forall|k: int| 0 <= k < self.index.pool.shards@.len() implies
                        #[trigger] self.index.pool.shard_wf(k) by {
                        assert(b.pool.shard_wf(k));
                    }
                    assert(self.index.pool.wf());
                    assert forall|x: u64| #[trigger] self.index.pool.page(x) == b.pool.page(x) by {}
                    lemma_upheld_logged(b.pool, self.index.pool);
                    if b.pool.able() {
                        assert(self.index.pool.able_but(None));
                    }
                    lemma_carried(b, self.index);
                    lemma_pool_kept(b, self.index);
                    assert(held(b.pool, Set::empty(), 0));
                    crate::wal::law_flush(commit_logged(a.pool.wal@, txn.txn_id).1, lsn);
                }
                match flushed {
                    Ok(()) => Ok(()),
                    Err(e) => Err(EngineError::Wal(e)),
                }
            },
            Err(e) => Err(EngineError::Wal(e)),
        }
    }

    /// Aborts a transaction. Its record is appended and not flushed.
    pub(crate) fn abort(&mut self, txn: &Transaction) -> (r: Result<(), EngineError>)
        requires
            old(self).wf(),
        ensures
            abort_outcome(*old(self), *txn, r, *final(self)),
            within(old(self).index.pool, final(self).index.pool, 1),
            fit(old(self).index.pool, 1) ==> r is Ok && final(self).index.pool.able(),
    {
        let ghost a = self.index;
        proof {
            lemma_end_fits(a.pool.wal@, WalRecordType::Abort, txn.txn_id);
        }
        if txn.wrote_anything() {
            let logged = self.index.pool.wal.log_abort(txn.txn_id);
            proof {
                lemma_ended(a, self.index, WalRecordType::Abort, txn.txn_id);
                lemma_log_step(a, self.index);
                lemma_upheld_logged(a.pool, self.index.pool);
                if a.pool.able() {
                    assert(self.index.pool.able_but(None));
                }
            }
            if let Err(e) = logged {
                return Err(EngineError::Wal(e));
            }
        }
        self.transaction_manager.mark_aborted(txn.txn_id);
        Ok(())
    }
}

/// A transaction of a user.
///
/// It is not tied to the engine: every call names it. A handle that is given up without
/// `commit` or `abort` leaves its transaction active.
pub struct TxnHandle<K: Key, V: Value> {
    pub txn: Transaction,
    /// A write conflict ended the transaction; it can only be aborted.
    pub poisoned: bool,
    pub _key: PhantomData<K>,
    pub _val: PhantomData<V>,
}

/// A write of the transaction is refused, and nothing changes.
pub open spec fn refused<K: Key, V: Value>(
    a: Engine<K, V>,
    h: TxnHandle<K, V>,
    r: Result<(), EngineError>,
    b: Engine<K, V>,
    after: TxnHandle<K, V>,
) -> bool {
    &&& r == Err::<(), EngineError>(EngineError::TransactionConflict)
    &&& b == a
    &&& after == h
}

/// The handle after a write that ended like this.
pub open spec fn after_write<K: Key, V: Value>(h: TxnHandle<K, V>, r: Result<(), EngineError>) -> TxnHandle<
    K,
    V,
> {
    TxnHandle {
        txn: writer(h.txn),
        poisoned: r == Err::<(), EngineError>(EngineError::TransactionConflict),
        ..h
    }
}

/// A write conflict, which ends the transaction.
fn is_conflict(r: &Result<(), EngineError>) -> (b: bool)
    ensures
        b == (*r == Err::<(), EngineError>(EngineError::TransactionConflict)),
{
    match r {
        Err(EngineError::TransactionConflict) => true,
        _ => false,
    }
}

/// A commit between its two steps.
pub enum Ending {
    /// The transaction was poisoned, and has been aborted.
    Conflict,
    /// The log was asked to make the transaction's record durable.
    Logged { txn_id: u64, logged: Result<(), EngineError> },
}

impl Ending {
    /// How the commit ends where the host's writing of the log ended as `saved` says.
    pub open spec fn outcome(self, saved: Result<(), IoError>) -> Result<(), EngineError> {
        match self {
            Ending::Conflict => Err(EngineError::TransactionConflict),
            Ending::Logged { logged, .. } => match logged {
                Ok(()) => match saved {
                    Ok(()) => Ok(()),
                    Err(e) => Err(EngineError::Wal(WalError::FlushFailed(e))),
                },
                Err(e) => Err(e),
            },
        }
    }

    /// The second half of `commit`: the transaction counts as committed exactly where the
    /// log took its record and the host wrote the log, else as aborted.
    pub fn settle<K: Key, V: Value>(self, engine: &mut Engine<K, V>, saved: Result<(), IoError>) -> (r:
        Result<(), EngineError>)
        requires
            old(engine).wf(),
        ensures
            final(engine).wf(),
            final(engine).index == old(engine).index,
            r == self.outcome(saved),
            final(engine).tm() == (match self {
                Ending::Conflict => old(engine).tm(),
                Ending::Logged { txn_id, .. } => old(engine).tm().settled(txn_id, verdict(r)),
            }),
    {
        match self {
            Ending::Conflict => Err(EngineError::TransactionConflict),
            Ending::Logged { txn_id, logged } => {
                let ended: Result<(), EngineError> = match logged {
                    Ok(()) => match saved {
                        Ok(()) => Ok(()),
                        Err(e) => Err(EngineError::Wal(WalError::FlushFailed(e))),
                    },
                    Err(e) => Err(e),
                };
                engine.pronounce(txn_id, ended)
            },
        }
    }
}

/// A commit in two steps, where the host writes the log, is a commit; where the host does
/// not, the transaction counts as aborted and the pages are what a commit leaves.
pub proof fn law_commit_in_steps<K: Key, V: Value>(
    a: Engine<K, V>,
    txn: Transaction,
    logged: Result<(), EngineError>,
    m: Engine<K, V>,
    saved: Result<(), IoError>,
    b: Engine<K, V>,
)
    requires
        settled_engine(a, m),
        m.transaction_manager == a.transaction_manager,
        commit_written(a, txn, logged, m),
        b.wf(),
        b.index == m.index,
        b.tm() == m.tm().settled(
            txn.txn_id,
            verdict((Ending::Logged { txn_id: txn.txn_id, logged }).outcome(saved)),
        ),
    ensures
        saved is Ok ==> commit_outcome(a, txn, logged, b),
        saved is Err ==> b.tm() == a.tm().settled(txn.txn_id, TransactionStatus::Aborted),
        settled_engine(a, b),
{
}

impl<K: Key, V: Value> TxnHandle<K, V> {
    /// Commits the transaction. A poisoned one is aborted instead.
    pub fn commit(self, engine: &mut Engine<K, V>) -> (r: Result<(), EngineError>)
        requires
            old(engine).wf(),
        ensures
            if self.poisoned {
                &&& r == Err::<(), EngineError>(EngineError::TransactionConflict)
                &&& exists|ra: Result<(), EngineError>| #[trigger]
                    abort_outcome(*old(engine), self.txn, ra, *final(engine))
            } else {
                commit_outcome(*old(engine), self.txn, r, *final(engine))
            },
            fit(old(engine).index.pool, 1) ==> !storage_failed(r) && final(engine).index.pool.able(),
    {
        if self.poisoned {
            let _aborted = engine.abort(&self.txn);
            assert(abort_outcome(*old(engine), self.txn, _aborted, *engine));
            return Err(EngineError::TransactionConflict);
        }
        engine.commit(&self.txn)
    }

    /// The first half of `commit`: what the log is to gain is in its segments, and the
    /// transaction counts as active until the ending is settled. A poisoned one is aborted.
    pub fn prepare(self, engine: &mut Engine<K, V>) -> (ending: Ending)
        requires
            old(engine).wf(),
        ensures
            match ending {
                Ending::Conflict => {
                    &&& self.poisoned
                    &&& exists|ra: Result<(), EngineError>| #[trigger]
                        abort_outcome(*old(engine), self.txn, ra, *final(engine))
                },
                Ending::Logged { txn_id, logged } => {
                    &&& !self.poisoned
                    &&& txn_id == self.txn.txn_id
                    &&& settled_engine(*old(engine), *final(engine))
                    &&& final(engine).transaction_manager == old(engine).transaction_manager
                    &&& commit_written(*old(engine), self.txn, logged, *final(engine))
                },
            },
    {
        if self.poisoned {
            let _aborted = engine.abort(&self.txn);
            assert(abort_outcome(*old(engine), self.txn, _aborted, *engine));
            return Ending::Conflict;
        }
        let logged = engine.log_end(&self.txn);
        Ending::Logged { txn_id: self.txn.txn_id, logged }
    }
    /// Inserts a key.
    pub fn insert(
        &mut self,
        engine: &mut Engine<K, V>,
        key: &K::SelfType<'_>,
        value: &V::SelfType<'_>,
    ) -> (r: Result<(), EngineError>)
        requires
            old(engine).wf(),
            K::encodable(K::model(*key)),
            V::encodable(V::model(*value)),
        ensures
            if old(self).poisoned {
                refused(*old(engine), *old(self), r, *final(engine), *final(self))
            } else {
                &&& *final(self) == after_write(*old(self), r)
                &&& inserted_in(
                    *old(engine),
                    writer(old(self).txn),
                    K::encode(K::model(*key)),
                    V::encode(V::model(*value)),
                    r,
                    *final(engine),
                )
            },
            fit(old(engine).index.pool, spend(old(engine).index.shape@)) ==> !storage_failed(r) && final(engine).index.pool.able(),
    {
        if self.poisoned {
            return Err(EngineError::TransactionConflict);
        }
        let r = engine.insert_in(&mut self.txn, key, value);
        if is_conflict(&r) {
            self.poisoned = true;
        }
        r
    }

    /// Deletes a key.
    pub fn delete(&mut self, engine: &mut Engine<K, V>, key: &K::SelfType<'_>) -> (r: Result<
        (),
        EngineError,
    >)
        requires
            old(engine).wf(),
            K::encodable(K::model(*key)),
        ensures
            if old(self).poisoned {
                refused(*old(engine), *old(self), r, *final(engine), *final(self))
            } else {
                &&& *final(self) == after_write(*old(self), r)
                &&& deleted_in(
                    *old(engine),
                    writer(old(self).txn),
                    K::encode(K::model(*key)),
                    r,
                    *final(engine),
                )
            },
            fit(old(engine).index.pool, 1) ==> !storage_failed(r) && final(engine).index.pool.able(),
    {
        if self.poisoned {
            return Err(EngineError::TransactionConflict);
        }
        let r = engine.delete_in(&mut self.txn, key);
        if is_conflict(&r) {
            self.poisoned = true;
        }
        r
    }

    /// Replaces the value of a key.
    pub fn update(
        &mut self,
        engine: &mut Engine<K, V>,
        key: &K::SelfType<'_>,
        value: &V::SelfType<'_>,
    ) -> (r: Result<(), EngineError>)
        requires
            old(engine).wf(),
            K::encodable(K::model(*key)),
            V::encodable(V::model(*value)),
        ensures
            if old(self).poisoned {
                refused(*old(engine), *old(self), r, *final(engine), *final(self))
            } else {
                &&& *final(self) == after_write(*old(self), r)
                &&& updated_in(
                    *old(engine),
                    writer(old(self).txn),
                    K::encode(K::model(*key)),
                    V::encode(V::model(*value)),
                    r,
                    *final(engine),
                )
            },
            fit(old(engine).index.pool, spend(old(engine).index.shape@)) ==> !storage_failed(r) && final(engine).index.pool.able(),
    {
        if self.poisoned {
            return Err(EngineError::TransactionConflict);
        }
        let r = engine.update_in(&mut self.txn, key, value);
        if is_conflict(&r) {
            self.poisoned = true;
        }
        r
    }

    /// Reads a key.
    pub fn get(&mut self, engine: &mut Engine<K, V>, key: &K::SelfType<'_>) -> (r: Result<
        Option<Vec<u8>>,
        EngineError,
    >)
        requires
            old(engine).wf(),
            K::encodable(K::model(*key)),
        ensures
            *final(self) == *old(self),
            if old(self).poisoned {
                &&& r == Err::<Option<Vec<u8>>, EngineError>(EngineError::TransactionConflict)
                &&& *final(engine) == *old(engine)
            } else {
                read_in(
                    *old(engine),
                    old(self).txn,
                    K::encode(K::model(*key)),
                    r,
                    *final(engine),
                )
            },
            fit(old(engine).index.pool, 0) ==> !storage_failed(r) && final(engine).index.pool.able(),
    {
        if self.poisoned {
            return Err(EngineError::TransactionConflict);
        }
        engine.get_in(&self.txn, key)
    }

    /// Aborts the transaction.
    pub fn abort(self, engine: &mut Engine<K, V>)
        requires
            old(engine).wf(),
        ensures
            exists|ra: Result<(), EngineError>| #[trigger]
                abort_outcome(*old(engine), self.txn, ra, *final(engine)),
    {
        let _aborted = engine.abort(&self.txn);
        assert(abort_outcome(*old(engine), self.txn, _aborted, *engine));
    }
}

} // verus!
