//! How transactions begin and end, said of the commit log, the active ids and the records of the
//! log.

use crate::engine::ops::{conflict_mapped, mapped, writer};
use crate::engine::txn::{
    abort_outcome, after_write, commit_outcome, commit_written, refused, Ending, TxnHandle,
};
use crate::engine::{autocommitted, begins, read_ended, Engine};
use crate::error::{EngineError, IndexError, IoError, WalError};
use crate::transaction::Transaction;
use crate::transaction_manager::{law_begin, law_settle, TmView, TransactionStatus};
use crate::types::{Key, Value};
use crate::wal::answers::law_append_answers;
use crate::wal::record::{record_bytes, BlockView, RecordView, WalRecordType};
use vstd::prelude::*;

verus! {

/// Transaction `id`, and no other, went from active to the status.
pub open spec fn ended_as(a: TmView, id: u64, status: TransactionStatus, b: TmView) -> bool {
    &&& b.clog.contains_key(id)
    &&& b.clog[id] == status
    &&& !b.active.contains(id)
    &&& b.next == a.next
    &&& b.swept == a.swept
    &&& forall|x: u64| x != id ==> #[trigger] b.clog.contains_key(x) == a.clog.contains_key(x)
    &&& forall|x: u64| x != id && a.clog.contains_key(x) ==> #[trigger] b.clog[x] == a.clog[x]
    &&& forall|x: u64| x != id ==> #[trigger] b.active.contains(x) == a.active.contains(x)
}

proof fn lemma_ended_as(tm: TmView, id: u64, status: TransactionStatus)
    requires
        tm.wf(),
    ensures
        ended_as(tm, id, status, tm.settled(id, status)),
{
    law_settle(tm, id, status);
}

/// A transaction begins with the next id. Its snapshot lists the transactions that are active and
/// itself, begins at the oldest of them and ends behind itself. No other is touched.
pub proof fn law_beginning<K: Key, V: Value>(
    a: Engine<K, V>,
    txn: Transaction,
    m: Engine<K, V>,
    x: u64,
)
    requires
        a.wf(),
        a.tm().next < u64::MAX,
        begins(a, txn, m),
    ensures
        txn.txn_id == a.tm().next,
        m.tm().next == a.tm().next + 1,
        m.tm().active.contains(x) == (a.tm().active.contains(x) || x == txn.txn_id),
        txn.snapshot.active@.contains(x) == (a.tm().active.contains(x) || x == txn.txn_id),
        txn.snapshot.active@.contains(x) ==> txn.snapshot.xmin <= x,
        txn.snapshot.active@.contains(txn.snapshot.xmin),
        txn.snapshot.xmax == txn.txn_id + 1,
        m.tm().clog.contains_key(x) == (a.tm().clog.contains_key(x) || x == txn.txn_id),
        x != txn.txn_id && a.tm().clog.contains_key(x) ==> m.tm().clog[x] == a.tm().clog[x],
        m.tm().clog[txn.txn_id] == TransactionStatus::Active,
        m.tm().swept == a.tm().swept,
        !txn.wrote,
        m.index == a.index,
{
    let tm = a.tm();
    let mt = m.tm();
    law_begin(tm);
    assert(mt.active =~= tm.active.push(tm.next));
    if tm.active.contains(x) {
        let i = choose|i: int| 0 <= i < tm.active.len() && tm.active[i] == x;
        assert(mt.active[i] == x);
    }
    assert(mt.active[tm.active.len() as int] == tm.next);
    if mt.active.contains(x) {
        let i = choose|i: int| 0 <= i < mt.active.len() && mt.active[i] == x;
        if i < tm.active.len() {
            assert(tm.active[i] == x);
        }
        if i > 0 {
            assert(mt.active[0] < mt.active[i]);
        }
    }
    assert(mt.active[0] == txn.snapshot.xmin);
}

/// A commit leaves its transaction committed where it succeeds and aborted where it fails, and
/// touches no other. One that wrote nothing succeeds and leaves the log and the pages alone.
pub proof fn law_commit_answers<K: Key, V: Value>(
    a: Engine<K, V>,
    txn: Transaction,
    r: Result<(), EngineError>,
    b: Engine<K, V>,
)
    requires
        a.wf(),
        commit_outcome(a, txn, r, b),
    ensures
        r is Ok ==> ended_as(a.tm(), txn.txn_id, TransactionStatus::Committed, b.tm()),
        r is Err ==> ended_as(a.tm(), txn.txn_id, TransactionStatus::Aborted, b.tm()),
        b.index.parts() == a.index.parts(),
        !txn.wrote ==> r is Ok && b.index == a.index,
        r matches Err(e) ==> e is Wal,
{
    lemma_ended_as(a.tm(), txn.txn_id, TransactionStatus::Committed);
    lemma_ended_as(a.tm(), txn.txn_id, TransactionStatus::Aborted);
}

/// An abort leaves its transaction aborted, unless its record cannot be appended, and touches no
/// other. It writes nothing to the segments: what it appends waits.
pub proof fn law_abort_answers<K: Key, V: Value>(
    a: Engine<K, V>,
    txn: Transaction,
    r: Result<(), EngineError>,
    b: Engine<K, V>,
    rec: RecordView,
)
    requires
        a.wf(),
        abort_outcome(a, txn, r, b),
        rec.lsn == a.index.pool.wal@.next,
        rec.kind == WalRecordType::Abort,
        rec.txn_id == txn.txn_id,
        rec.blocks == Seq::<BlockView>::empty(),
        rec.main is None,
        rec.rec_len == record_bytes(rec).len() as u32,
    ensures
        r is Ok ==> ended_as(a.tm(), txn.txn_id, TransactionStatus::Aborted, b.tm()),
        r is Err ==> b.tm() == a.tm(),
        b.index.parts() == a.index.parts(),
        b.index.pool.wal@.segments == a.index.pool.wal@.segments,
        !txn.wrote ==> r is Ok && b.index == a.index,
        r is Ok && txn.wrote ==> b.index.pool.wal@.waiting == a.index.pool.wal@.waiting.push(
            (rec.lsn, record_bytes(rec)),
        ),
        r is Err ==> txn.wrote && r->Err_0 is Wal && b.index.pool.wal@.waiting
            == a.index.pool.wal@.waiting,
{
    lemma_ended_as(a.tm(), txn.txn_id, TransactionStatus::Aborted);
    let w = a.index.pool.wal@;
    assert(w.wf());
    crate::wal::record::lemma_record_size(rec, 0);
    crate::wal::log::lemma_small_record(rec.blocks, rec.main);
    law_append_answers(w, WalRecordType::Abort, txn.txn_id, Seq::empty(), None, rec);
}

/// A commit of a transaction that wrote succeeds only once the commit record it asked for is in
/// the segments with all that waited before it.
pub proof fn law_commit_is_logged<K: Key, V: Value>(
    a: Engine<K, V>,
    txn: Transaction,
    b: Engine<K, V>,
    rec: RecordView,
)
    requires
        a.wf(),
        txn.wrote,
        commit_written(a, txn, Ok(()), b),
        rec.lsn == a.index.pool.wal@.next,
        rec.kind == WalRecordType::Commit,
        rec.txn_id == txn.txn_id,
        rec.blocks == Seq::<BlockView>::empty(),
        rec.main is None,
        rec.rec_len == record_bytes(rec).len() as u32,
    ensures
        ({
            let w = a.index.pool.wal@;
            let after = b.index.pool.wal@;
            &&& after.waiting.len() == 0
            &&& after.flushed == Some(rec.lsn)
            &&& after.next == w.next + 1
            &&& after.segments == crate::wal::segment::written(
                w.segments,
                w.segment_size,
                w.waiting.push((rec.lsn, record_bytes(rec))),
            )
        }),
{
    let w = a.index.pool.wal@;
    assert(w.wf());
    crate::wal::record::lemma_record_size(rec, 0);
    crate::wal::log::lemma_small_record(rec.blocks, rec.main);
    law_append_answers(w, WalRecordType::Commit, txn.txn_id, Seq::empty(), None, rec);
    crate::wal::law_append(w, WalRecordType::Commit, txn.txn_id, Seq::empty(), None);
    let (logged, after) = crate::engine::txn::commit_logged(w, txn.txn_id);
    crate::wal::answers::law_flush_answers(after, rec.lsn, rec.lsn);
}

/// A commit in two steps succeeds exactly where the log took the record and the host wrote the
/// log; else it gives the first error there was, and a poisoned transaction gives a conflict.
pub proof fn law_ending(ending: Ending, saved: Result<(), IoError>)
    ensures
        ending.outcome(saved) is Ok <==> ending is Logged && ending->logged is Ok && saved is Ok,
        ending is Conflict ==> ending.outcome(saved)->Err_0 is TransactionConflict,
        ending is Logged && ending->logged is Err ==> ending.outcome(saved)->Err_0
            == ending->logged->Err_0,
        ending is Logged && ending->logged is Ok && saved is Err ==> ending.outcome(saved)->Err_0
            == EngineError::Wal(WalError::FlushFailed(saved->Err_0)),
{
}

/// A write of a handle poisons it exactly where it ends in a conflict. The handle keeps its
/// transaction, with the same id and snapshot, and knows that it wrote.
pub proof fn law_handle_after_write<K: Key, V: Value>(
    h: TxnHandle<K, V>,
    r: Result<(), EngineError>,
)
    ensures
        ({
            let after = after_write(h, r);
            &&& after.poisoned <==> r is Err && r->Err_0 is TransactionConflict
            &&& after.txn.txn_id == h.txn.txn_id
            &&& after.txn.snapshot == h.txn.snapshot
            &&& after.txn.wrote
        }),
{
}

/// A poisoned handle's write is a conflict once more, and does nothing.
pub proof fn law_poisoned_handle<K: Key, V: Value>(
    a: Engine<K, V>,
    h: TxnHandle<K, V>,
    r: Result<(), EngineError>,
    b: Engine<K, V>,
    after: TxnHandle<K, V>,
)
    requires
        refused(a, h, r, b, after),
    ensures
        r is Err,
        r->Err_0 is TransactionConflict,
        b.index == a.index,
        b.transaction_manager == a.transaction_manager,
        after.poisoned == h.poisoned,
        after.txn == h.txn,
{
}

/// A user of the engine sees a conflict exactly where the index met one; every other error of the
/// index comes through as it is, and success is success.
pub proof fn law_errors_come_through(r: Result<(), IndexError>)
    ensures
        mapped(r) is Ok <==> r is Ok,
        r matches Err(e) ==> mapped(r)->Err_0 == conflict_mapped(e),
        forall|e: IndexError| #[trigger]
            conflict_mapped(e) is TransactionConflict <==> e is WriteConflict,
        forall|e: IndexError|
            !(e is WriteConflict) ==> #[trigger] conflict_mapped(e) is Index && conflict_mapped(
                e,
            )->Index_0 == e,
{
}

/// A transaction of one write succeeds only where the write and the commit did, and has then
/// committed. Where the write failed, its error is the answer and the transaction is aborted, or
/// still active where the abort could not be logged.
pub proof fn law_transaction_of_one_write<K: Key, V: Value>(
    m: Engine<K, V>,
    txn: Transaction,
    done: Result<(), EngineError>,
    r: Result<(), EngineError>,
    b: Engine<K, V>,
)
    requires
        m.wf(),
        autocommitted(m, txn, done, r, b),
    ensures
        r is Ok ==> done is Ok && ended_as(
            m.tm(),
            txn.txn_id,
            TransactionStatus::Committed,
            b.tm(),
        ),
        done is Err ==> r == done,
        r is Err ==> b.tm() == m.tm() || ended_as(
            m.tm(),
            txn.txn_id,
            TransactionStatus::Aborted,
            b.tm(),
        ),
        done is Ok && r is Err ==> ended_as(
            m.tm(),
            txn.txn_id,
            TransactionStatus::Aborted,
            b.tm(),
        ) && r->Err_0 is Wal,
        b.index.parts() == m.index.parts(),
{
    lemma_ended_as(m.tm(), txn.txn_id, TransactionStatus::Aborted);
    if done is Ok {
        law_commit_answers(m, txn, r, b);
    } else {
        let ra = choose|ra: Result<(), EngineError>| #[trigger] abort_outcome(m, txn, ra, b);
        assert(abort_outcome(m, txn, ra, b));
    }
}

/// A transaction of one read gives what was read, and changes no page and no record.
pub proof fn law_transaction_of_one_read<K: Key, V: Value>(
    m: Engine<K, V>,
    txn: Transaction,
    done: Result<Option<Vec<u8>>, EngineError>,
    r: Result<Option<Vec<u8>>, EngineError>,
    b: Engine<K, V>,
)
    requires
        m.wf(),
        !txn.wrote,
        read_ended(m, txn, done, r, b),
    ensures
        r == done,
        b.index == m.index,
        ended_as(
            m.tm(),
            txn.txn_id,
            if r is Ok {
                TransactionStatus::Committed
            } else {
                TransactionStatus::Aborted
            },
            b.tm(),
        ),
{
    lemma_ended_as(m.tm(), txn.txn_id, TransactionStatus::Committed);
    lemma_ended_as(m.tm(), txn.txn_id, TransactionStatus::Aborted);
}

/// A transaction that is known to have written is the same transaction.
pub proof fn law_writer_is_the_same(txn: Transaction)
    ensures
        writer(txn).wrote,
        writer(txn).txn_id == txn.txn_id,
        writer(txn).snapshot == txn.snapshot,
{
}

} // verus!
