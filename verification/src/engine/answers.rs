//! What a transaction is answered: how the versions of a key, and who wrote them, decide a read, an
//! insertion, an update and a deletion.

use crate::constants::{MAX_KEY_SIZE, MAX_VALUE_SIZE};
use crate::engine::history::{
    lemma_comparable, lemma_running, lemma_sole, open_in, orderly, running, sound,
};
use crate::engine::ops::{deleted_in, inserted_in, mapped, read_in, storage_failed, updated_in};
use crate::engine::Engine;
use crate::error::{EngineError, IndexError};
use crate::index::answers::lemma_first_conflict;
use crate::index::flat::all_rows;
use crate::index::laws::{lemma_first_is, lemma_first_visible, lemma_marked};
use crate::index::ops::{delete_outcome, insert_outcome, update_outcome};
use crate::index::rows::{first_visible, insert_conflict, shows};
use crate::page::leaf::Version;
use crate::transaction::Transaction;
use crate::transaction_manager::{TmView, TransactionStatus};
use crate::types::{canonical, Key, Value};
use vstd::prelude::*;

verus! {

/// The log of transactions says that this one aborted.
pub open spec fn rolled_back(tm: TmView, id: u64) -> bool {
    id != 0 && tm.clog.contains_key(id) && tm.clog[id] == TransactionStatus::Aborted
}

/// The transaction ended, and not by an abort.
pub open spec fn there_to_stay(tm: TmView, id: u64) -> bool {
    id == 0 || !tm.active.contains(id) && !rolled_back(tm, id)
}

/// Of a transaction that has begun the commit log tells which of the three it is.
proof fn lemma_three_ways(tm: TmView, txn: Transaction, id: u64)
    requires
        sound(tm),
        running(txn, tm),
        id < tm.next,
    ensures
        (tm.status(id) == TransactionStatus::Active) == (id != 0 && tm.active.contains(id)),
        (tm.status(id) == TransactionStatus::Aborted) == (rolled_back(tm, id) && id != 0),
        (tm.status(id) == TransactionStatus::Committed) == there_to_stay(tm, id),
        txn.snapshot.in_progress(id, tm) == (id != 0 && tm.active.contains(id)),
{
    lemma_running(txn, tm);
    if id != 0 && tm.active.contains(id) {
        assert(tm.clog.contains_key(id));
    }
}

/// A read gives the value of the version of the key that the transaction sees, and nothing where
/// it sees none.
pub proof fn law_read_answers<K: Key, V: Value>(
    a: Engine<K, V>,
    txn: Transaction,
    k: Seq<u8>,
    v: Option<Vec<u8>>,
    b: Engine<K, V>,
    x: int,
)
    requires
        orderly(a),
        open_in(txn, a),
        canonical::<K>(k),
        read_in(a, txn, k, Ok(v), b),
        0 <= x < all_rows(a.index.parts()).len(),
    ensures
        ({
            let row = all_rows(a.index.parts())[x];
            K::le(row.key, k) && K::le(k, row.key) && txn.sees(row.xmin, row.xmax, a.tm()) ==> (
            v matches Some(bytes) && bytes@ == row.val)
        }),
        v matches Some(bytes) ==> exists|y: int|
            0 <= y < all_rows(a.index.parts()).len() && bytes@ == (#[trigger] all_rows(
                a.index.parts(),
            )[y]).val && K::le(all_rows(a.index.parts())[y].key, k) && K::le(
                k,
                all_rows(a.index.parts())[y].key,
            ) && txn.sees(
                all_rows(a.index.parts())[y].xmin,
                all_rows(a.index.parts())[y].xmax,
                a.tm(),
            ),
        b.index.parts() == a.index.parts(),
        b.tm() == a.tm(),
{
    let rows = all_rows(a.index.parts());
    lemma_comparable(a.index);
    lemma_sole::<K>(rows, k, txn, a.tm());
    lemma_first_visible::<K>(rows, k, txn, a.tm(), 0);
    if shows::<K>(rows[x], k, txn, a.tm()) {
        let y = first_visible::<K>(rows, k, txn, a.tm(), 0)->0;
        assert(shows::<K>(rows[y], k, txn, a.tm()));
    }
}

/// A key without versions, or none that the transaction sees, reads as absent.
pub proof fn law_read_of_nothing<K: Key, V: Value>(
    a: Engine<K, V>,
    txn: Transaction,
    k: Seq<u8>,
    v: Option<Vec<u8>>,
    b: Engine<K, V>,
)
    requires
        read_in(a, txn, k, Ok(v), b),
        forall|y: int|
            0 <= y < all_rows(a.index.parts()).len() ==> !(K::le(
                (#[trigger] all_rows(a.index.parts())[y]).key,
                k,
            ) && K::le(k, all_rows(a.index.parts())[y].key) && txn.sees(
                all_rows(a.index.parts())[y].xmin,
                all_rows(a.index.parts())[y].xmax,
                a.tm(),
            )),
    ensures
        v is None,
{
    lemma_first_visible::<K>(all_rows(a.index.parts()), k, txn, a.tm(), 0);
}

/// The version of the key that the transaction sees is the first.
proof fn lemma_the_visible<K: Key, V: Value>(a: Engine<K, V>, txn: Transaction, k: Seq<u8>, x: int)
    requires
        orderly(a),
        open_in(txn, a),
        canonical::<K>(k),
        0 <= x < all_rows(a.index.parts()).len(),
        K::le(all_rows(a.index.parts())[x].key, k),
        K::le(k, all_rows(a.index.parts())[x].key),
        txn.sees(
            all_rows(a.index.parts())[x].xmin,
            all_rows(a.index.parts())[x].xmax,
            a.tm(),
        ),
    ensures
        first_visible::<K>(all_rows(a.index.parts()), k, txn, a.tm(), 0) == Some(x),
        all_rows(a.index.parts())[x].xmax != txn.txn_id || txn.txn_id == 0,
        all_rows(a.index.parts())[x].xmin < a.tm().next,
        all_rows(a.index.parts())[x].xmax < a.tm().next,
{
    let rows = all_rows(a.index.parts());
    lemma_comparable(a.index);
    lemma_sole::<K>(rows, k, txn, a.tm());
    lemma_running(txn, a.tm());
    assert(shows::<K>(rows[x], k, txn, a.tm()));
    lemma_first_is::<K>(rows, k, txn, a.tm(), 0, x);
}

/// A transaction deletes the version that it sees, unless somebody else has deleted it and not
/// rolled that back. Where that one is still active, the older of the two waits and the younger
/// one dies; where it has committed, the transaction dies.
pub proof fn law_delete_answers<K: Key, V: Value>(
    a: Engine<K, V>,
    txn: Transaction,
    k: Seq<u8>,
    r: Result<(), EngineError>,
    b: Engine<K, V>,
    x: int,
)
    requires
        orderly(a),
        open_in(txn, a),
        canonical::<K>(k),
        deleted_in(a, txn, k, r, b),
        !storage_failed(r),
        0 <= x < all_rows(a.index.parts()).len(),
        K::le(all_rows(a.index.parts())[x].key, k),
        K::le(k, all_rows(a.index.parts())[x].key),
        txn.sees(
            all_rows(a.index.parts())[x].xmin,
            all_rows(a.index.parts())[x].xmax,
            a.tm(),
        ),
    ensures
        ({
            let rows = all_rows(a.index.parts());
            let by = rows[x].xmax;
            let tm = a.tm();
            &&& by == 0 || rolled_back(tm, by) ==> r is Ok
            &&& by != 0 && tm.active.contains(by) && txn.txn_id < by ==> r
                == Err::<(), EngineError>(EngineError::Index(IndexError::WaitFor(by)))
            &&& by != 0 && tm.active.contains(by) && txn.txn_id > by ==> r
                == Err::<(), EngineError>(EngineError::TransactionConflict)
            &&& by != 0 && !tm.active.contains(by) && !rolled_back(tm, by) ==> r
                == Err::<(), EngineError>(EngineError::TransactionConflict)
            &&& r is Ok ==> all_rows(b.index.parts()) == rows.update(
                x,
                Version { xmax: txn.txn_id, ..rows[x] },
            )
            &&& r is Err ==> b.index.parts() == a.index.parts()
        }),
{
    let tm = a.tm();
    let rows = all_rows(a.index.parts());
    let ri = choose|ri: Result<(), IndexError>|
        r == mapped(ri) && #[trigger] delete_outcome(a.index, k, txn, tm, ri, b.index);
    lemma_the_visible(a, txn, k, x);
    lemma_three_ways(tm, txn, rows[x].xmax);
    lemma_marked(a.index.parts(), x, txn.txn_id);
}

/// A key that the transaction does not see cannot be deleted.
pub proof fn law_delete_of_nothing<K: Key, V: Value>(
    a: Engine<K, V>,
    txn: Transaction,
    k: Seq<u8>,
    r: Result<(), EngineError>,
    b: Engine<K, V>,
)
    requires
        deleted_in(a, txn, k, r, b),
        !storage_failed(r),
        forall|y: int|
            0 <= y < all_rows(a.index.parts()).len() ==> !(K::le(
                (#[trigger] all_rows(a.index.parts())[y]).key,
                k,
            ) && K::le(k, all_rows(a.index.parts())[y].key) && txn.sees(
                all_rows(a.index.parts())[y].xmin,
                all_rows(a.index.parts())[y].xmax,
                a.tm(),
            )),
    ensures
        r == Err::<(), EngineError>(EngineError::Index(IndexError::KeyNotFound)),
        b.index.parts() == a.index.parts(),
{
    let ri = choose|ri: Result<(), IndexError>|
        r == mapped(ri) && #[trigger] delete_outcome(a.index, k, txn, a.tm(), ri, b.index);
    lemma_first_visible::<K>(all_rows(a.index.parts()), k, txn, a.tm(), 0);
}

/// The page errors that a write can end with.
pub open spec fn page_failed(r: Result<(), EngineError>) -> bool {
    r matches Err(EngineError::Index(IndexError::Page(_)))
}

/// An update is decided as a deletion is. Besides, a page may lack room for the new version.
pub proof fn law_update_answers<K: Key, V: Value>(
    a: Engine<K, V>,
    txn: Transaction,
    k: Seq<u8>,
    v: Seq<u8>,
    r: Result<(), EngineError>,
    b: Engine<K, V>,
    x: int,
)
    requires
        orderly(a),
        open_in(txn, a),
        canonical::<K>(k),
        canonical::<V>(v),
        k.len() <= MAX_KEY_SIZE,
        v.len() <= MAX_VALUE_SIZE,
        updated_in(a, txn, k, v, r, b),
        !storage_failed(r),
        !page_failed(r),
        0 <= x < all_rows(a.index.parts()).len(),
        K::le(all_rows(a.index.parts())[x].key, k),
        K::le(k, all_rows(a.index.parts())[x].key),
        txn.sees(
            all_rows(a.index.parts())[x].xmin,
            all_rows(a.index.parts())[x].xmax,
            a.tm(),
        ),
    ensures
        ({
            let by = all_rows(a.index.parts())[x].xmax;
            let tm = a.tm();
            &&& by == 0 || rolled_back(tm, by) ==> r is Ok
            &&& by != 0 && tm.active.contains(by) && txn.txn_id < by ==> r
                == Err::<(), EngineError>(EngineError::Index(IndexError::WaitFor(by)))
            &&& by != 0 && tm.active.contains(by) && txn.txn_id > by ==> r
                == Err::<(), EngineError>(EngineError::TransactionConflict)
            &&& by != 0 && !tm.active.contains(by) && !rolled_back(tm, by) ==> r
                == Err::<(), EngineError>(EngineError::TransactionConflict)
            &&& r is Err ==> b.index.parts() == a.index.parts()
        }),
{
    let tm = a.tm();
    let rows = all_rows(a.index.parts());
    let ri = choose|ri: Result<(), IndexError>|
        r == mapped(ri) && #[trigger] update_outcome(a.index, k, v, txn, tm, ri, b.index);
    lemma_the_visible(a, txn, k, x);
    lemma_three_ways(tm, txn, rows[x].xmax);
}

/// A key that the transaction does not see cannot be updated.
pub proof fn law_update_of_nothing<K: Key, V: Value>(
    a: Engine<K, V>,
    txn: Transaction,
    k: Seq<u8>,
    v: Seq<u8>,
    r: Result<(), EngineError>,
    b: Engine<K, V>,
)
    requires
        k.len() <= MAX_KEY_SIZE,
        v.len() <= MAX_VALUE_SIZE,
        updated_in(a, txn, k, v, r, b),
        !storage_failed(r),
        !page_failed(r),
        forall|y: int|
            0 <= y < all_rows(a.index.parts()).len() ==> !(K::le(
                (#[trigger] all_rows(a.index.parts())[y]).key,
                k,
            ) && K::le(k, all_rows(a.index.parts())[y].key) && txn.sees(
                all_rows(a.index.parts())[y].xmin,
                all_rows(a.index.parts())[y].xmax,
                a.tm(),
            )),
    ensures
        r == Err::<(), EngineError>(EngineError::Index(IndexError::KeyNotFound)),
        b.index.parts() == a.index.parts(),
{
    let ri = choose|ri: Result<(), IndexError>|
        r == mapped(ri) && #[trigger] update_outcome(a.index, k, v, txn, a.tm(), ri, b.index);
    lemma_first_visible::<K>(all_rows(a.index.parts()), k, txn, a.tm(), 0);
}

/// The version is a live one of the key: the transaction sees it, or whoever created it has
/// committed and nobody who committed, nor the transaction itself, has deleted it.
pub open spec fn lives<K: Key>(row: Version, k: Seq<u8>, txn: Transaction, tm: TmView) -> bool {
    &&& K::le(row.key, k) && K::le(k, row.key)
    &&& {
        ||| txn.sees(row.xmin, row.xmax, tm)
        ||| there_to_stay(tm, row.xmin) && (row.xmax == 0 || row.xmax != txn.txn_id
            && !there_to_stay(tm, row.xmax))
    }
}

/// Another transaction that is still active has created the version of the key, or deleted it.
pub open spec fn at_work<K: Key>(
    row: Version,
    k: Seq<u8>,
    txn: Transaction,
    tm: TmView,
    id: u64,
) -> bool {
    &&& K::le(row.key, k) && K::le(k, row.key)
    &&& id != 0 && id != txn.txn_id && tm.active.contains(id)
    &&& row.xmin == id || row.xmax == id
}

/// A version of the key forbids to insert it exactly where it is a live one, or where another
/// transaction is at work on it.
proof fn lemma_forbids<K: Key>(row: Version, k: Seq<u8>, txn: Transaction, tm: TmView)
    requires
        sound(tm),
        running(txn, tm),
        row.xmin < tm.next,
        row.xmax < tm.next,
        K::le(row.key, k) && K::le(k, row.key),
    ensures
        insert_conflict(row, txn, tm) is None ==> !lives::<K>(row, k, txn, tm) && !at_work::<K>(
            row,
            k,
            txn,
            tm,
            row.xmin,
        ) && !at_work::<K>(row, k, txn, tm, row.xmax),
        insert_conflict(row, txn, tm) == Some(IndexError::DuplicateKey) ==> lives::<K>(
            row,
            k,
            txn,
            tm,
        ),
        insert_conflict(row, txn, tm) matches Some(IndexError::WaitFor(id)) ==> at_work::<K>(
            row,
            k,
            txn,
            tm,
            id,
        ),
{
    lemma_three_ways(tm, txn, row.xmin);
    lemma_three_ways(tm, txn, row.xmax);
}

/// An insertion is refused exactly where the key has a live version or another transaction is at
/// work on one. A refusal tells why: that the key is there already; that an older transaction
/// waits for the younger one at work; or that it is the younger one, and dies.
pub proof fn law_insert_answers<K: Key, V: Value>(
    a: Engine<K, V>,
    txn: Transaction,
    k: Seq<u8>,
    v: Seq<u8>,
    r: Result<(), EngineError>,
    b: Engine<K, V>,
)
    requires
        orderly(a),
        open_in(txn, a),
        canonical::<K>(k),
        canonical::<V>(v),
        k.len() <= MAX_KEY_SIZE,
        v.len() <= MAX_VALUE_SIZE,
        inserted_in(a, txn, k, v, r, b),
        !storage_failed(r),
        !page_failed(r),
    ensures
        ({
            let rows = all_rows(a.index.parts());
            let tm = a.tm();
            &&& r is Ok <==> (forall|x: int, id: u64|
                0 <= x < rows.len() ==> !lives::<K>(rows[x], k, txn, tm) && !#[trigger] at_work::<K>(
                    rows[x],
                    k,
                    txn,
                    tm,
                    id,
                ))
            &&& match r {
                Ok(()) => true,
                Err(EngineError::Index(IndexError::DuplicateKey)) => exists|x: int|
                    0 <= x < rows.len() && #[trigger] lives::<K>(rows[x], k, txn, tm),
                Err(EngineError::Index(IndexError::WaitFor(id))) => txn.txn_id < id && exists|
                    x: int,
                |
                    0 <= x < rows.len() && #[trigger] at_work::<K>(rows[x], k, txn, tm, id),
                Err(EngineError::TransactionConflict) => exists|x: int, id: u64|
                    0 <= x < rows.len() && id < txn.txn_id && #[trigger] at_work::<K>(
                        rows[x],
                        k,
                        txn,
                        tm,
                        id,
                    ),
                Err(_) => false,
            }
            &&& r is Err ==> b.index.parts() == a.index.parts()
        }),
{
    let tm = a.tm();
    let rows = all_rows(a.index.parts());
    let ri = choose|ri: Result<(), IndexError>|
        r == mapped(ri) && #[trigger] insert_outcome(a.index, k, v, txn, tm, ri, b.index);
    lemma_first_conflict::<K>(rows, k, txn, tm, 0);
    match crate::index::rows::first_conflict::<K>(rows, k, txn, tm, 0) {
        Some(c) => {
            let x = choose|x: int|
                0 <= x < rows.len() && crate::types::key_same::<K>((#[trigger] rows[x]).key, k)
                    && insert_conflict(rows[x], txn, tm) == Some(c);
            lemma_forbids::<K>(rows[x], k, txn, tm);
            match c {
                IndexError::WaitFor(id) => {
                    assert(at_work::<K>(rows[x], k, txn, tm, id));
                },
                _ => {
                    assert(lives::<K>(rows[x], k, txn, tm));
                    let id = 0u64;
                    assert(!at_work::<K>(rows[x], k, txn, tm, id));
                },
            }
        },
        None => {
            assert forall|x: int, id: u64| 0 <= x < rows.len() implies !lives::<K>(
                rows[x],
                k,
                txn,
                tm,
            ) && !#[trigger] at_work::<K>(rows[x], k, txn, tm, id) by {
                if K::le(rows[x].key, k) && K::le(k, rows[x].key) {
                    lemma_forbids::<K>(rows[x], k, txn, tm);
                }
            }
        },
    }
}

} // verus!
