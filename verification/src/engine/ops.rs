//! Operations within a transaction.

use crate::engine::Engine;
use crate::error::{EngineError, IndexError};
use crate::index::ops::{delete_outcome, insert_outcome, update_outcome};
use crate::index::trail::within;
use crate::index::{bytes_of, fit, lookup, spend, untouched};
use crate::transaction::Transaction;
use crate::types::{Key, Value};
use vstd::prelude::*;

verus! {

/// What an error of the index is to a user of the engine.
pub open spec fn conflict_mapped(e: IndexError) -> EngineError {
    match e {
        IndexError::WriteConflict => EngineError::TransactionConflict,
        other => EngineError::Index(other),
    }
}

/// What an operation of the index that ended like this is to a user of the engine.
pub open spec fn mapped(r: Result<(), IndexError>) -> Result<(), EngineError> {
    match r {
        Ok(()) => Ok(()),
        Err(e) => Err(conflict_mapped(e)),
    }
}

/// A write conflict ends the transaction; other errors of the index are passed on.
pub(crate) fn map_conflict(e: IndexError) -> (out: EngineError)
    ensures
        out == conflict_mapped(e),
{
    match e {
        IndexError::WriteConflict => EngineError::TransactionConflict,
        other => EngineError::Index(other),
    }
}

/// The storage stopped the operation.
pub open spec fn storage_failed<T>(r: Result<T, EngineError>) -> bool {
    match r {
        Ok(_) => false,
        Err(EngineError::Index(e)) => e is BufferPool || e is Wal,
        Err(e) => e is BufferPool || e is Wal || e is Disk,
    }
}

/// The transaction, known to have written.
pub open spec fn writer(txn: Transaction) -> Transaction {
    Transaction { wrote: true, ..txn }
}

/// The operation changed nothing but the index and the transaction's mark.
pub open spec fn worked<K: Key, V: Value>(a: Engine<K, V>, b: Engine<K, V>) -> bool {
    &&& b.wf()
    &&& b.transaction_manager == a.transaction_manager
}

/// What an insertion within a transaction comes to.
pub open spec fn inserted_in<K: Key, V: Value>(
    a: Engine<K, V>,
    txn: Transaction,
    k: Seq<u8>,
    v: Seq<u8>,
    r: Result<(), EngineError>,
    b: Engine<K, V>,
) -> bool {
    &&& worked(a, b)
    &&& exists|ri: Result<(), IndexError>|
        r == mapped(ri) && #[trigger] insert_outcome(a.index, k, v, txn, a.tm(), ri, b.index)
}

/// What a deletion within a transaction comes to.
pub open spec fn deleted_in<K: Key, V: Value>(
    a: Engine<K, V>,
    txn: Transaction,
    k: Seq<u8>,
    r: Result<(), EngineError>,
    b: Engine<K, V>,
) -> bool {
    &&& worked(a, b)
    &&& exists|ri: Result<(), IndexError>|
        r == mapped(ri) && #[trigger] delete_outcome(a.index, k, txn, a.tm(), ri, b.index)
}

/// What an update within a transaction comes to.
pub open spec fn updated_in<K: Key, V: Value>(
    a: Engine<K, V>,
    txn: Transaction,
    k: Seq<u8>,
    v: Seq<u8>,
    r: Result<(), EngineError>,
    b: Engine<K, V>,
) -> bool {
    &&& worked(a, b)
    &&& exists|ri: Result<(), IndexError>|
        r == mapped(ri) && #[trigger] update_outcome(a.index, k, v, txn, a.tm(), ri, b.index)
}

/// What a read within a transaction comes to.
pub open spec fn read_in<K: Key, V: Value>(
    a: Engine<K, V>,
    txn: Transaction,
    k: Seq<u8>,
    r: Result<Option<Vec<u8>>, EngineError>,
    b: Engine<K, V>,
) -> bool {
    &&& worked(a, b)
    &&& untouched(a.index, b.index)
    &&& b.index.parts() == a.index.parts()
    &&& match r {
        Ok(v) => bytes_of(v) == lookup::<K>(a.index.parts(), k, txn, a.tm()),
        Err(e) => e is Index && e->Index_0 is BufferPool && b.index.pool.faulty(),
    }
}

impl<K: Key, V: Value> Engine<K, V> {
    pub(crate) fn insert_in(
        &mut self,
        txn: &mut Transaction,
        key: &K::SelfType<'_>,
        value: &V::SelfType<'_>,
    ) -> (r: Result<(), EngineError>)
        requires
            old(self).wf(),
            K::encodable(K::model(*key)),
            V::encodable(V::model(*value)),
        ensures
            *final(txn) == writer(*old(txn)),
            inserted_in(
                *old(self),
                *final(txn),
                K::encode(K::model(*key)),
                V::encode(V::model(*value)),
                r,
                *final(self),
            ),
            within(old(self).index.pool, final(self).index.pool, spend(old(self).index.shape@)),
            fit(old(self).index.pool, spend(old(self).index.shape@)) ==> !storage_failed(r) && final(self).index.pool.able(),
    {
        txn.note_write();
        let done = self.index.insert(key, value, txn, &self.transaction_manager);
        assert(insert_outcome(
            old(self).index,
            K::encode(K::model(*key)),
            V::encode(V::model(*value)),
            *txn,
            old(self).tm(),
            done,
            self.index,
        ));
        match done {
            Ok(()) => Ok(()),
            Err(e) => Err(map_conflict(e)),
        }
    }

    pub(crate) fn delete_in(&mut self, txn: &mut Transaction, key: &K::SelfType<'_>) -> (r: Result<
        (),
        EngineError,
    >)
        requires
            old(self).wf(),
            K::encodable(K::model(*key)),
        ensures
            *final(txn) == writer(*old(txn)),
            deleted_in(*old(self), *final(txn), K::encode(K::model(*key)), r, *final(self)),
            within(old(self).index.pool, final(self).index.pool, 1),
            fit(old(self).index.pool, 1) ==> !storage_failed(r) && final(self).index.pool.able(),
    {
        txn.note_write();
        let done = self.index.delete(key, txn, &self.transaction_manager);
        assert(delete_outcome(
            old(self).index,
            K::encode(K::model(*key)),
            *txn,
            old(self).tm(),
            done,
            self.index,
        ));
        match done {
            Ok(()) => Ok(()),
            Err(e) => Err(map_conflict(e)),
        }
    }

    /// A read does not mark the transaction.
    pub(crate) fn get_in(&mut self, txn: &Transaction, key: &K::SelfType<'_>) -> (r: Result<
        Option<Vec<u8>>,
        EngineError,
    >)
        requires
            old(self).wf(),
            K::encodable(K::model(*key)),
        ensures
            read_in(*old(self), *txn, K::encode(K::model(*key)), r, *final(self)),
            within(old(self).index.pool, final(self).index.pool, 0),
            fit(old(self).index.pool, 0) ==> r is Ok && final(self).index.pool.able(),
    {
        match self.index.get(key, txn, &self.transaction_manager) {
            Ok(v) => Ok(v),
            Err(e) => Err(map_conflict(e)),
        }
    }

    pub(crate) fn update_in(
        &mut self,
        txn: &mut Transaction,
        key: &K::SelfType<'_>,
        value: &V::SelfType<'_>,
    ) -> (r: Result<(), EngineError>)
        requires
            old(self).wf(),
            K::encodable(K::model(*key)),
            V::encodable(V::model(*value)),
        ensures
            *final(txn) == writer(*old(txn)),
            updated_in(
                *old(self),
                *final(txn),
                K::encode(K::model(*key)),
                V::encode(V::model(*value)),
                r,
                *final(self),
            ),
            within(old(self).index.pool, final(self).index.pool, spend(old(self).index.shape@)),
            fit(old(self).index.pool, spend(old(self).index.shape@)) ==> !storage_failed(r) && final(self).index.pool.able(),
    {
        txn.note_write();
        let done = self.index.update(key, value, txn, &self.transaction_manager);
        assert(update_outcome(
            old(self).index,
            K::encode(K::model(*key)),
            V::encode(V::model(*value)),
            *txn,
            old(self).tm(),
            done,
            self.index,
        ));
        match done {
            Ok(()) => Ok(()),
            Err(e) => Err(map_conflict(e)),
        }
    }
}

} // verus!
