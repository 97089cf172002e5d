//! What the log tells of the transactions agrees with what the engine knows of them, and what
//! readers see after a restart because of it.

use crate::engine::history::{
    among, any, issued, lemma_begun_status, lemma_early_rows, lemma_issued_leaf, lemma_pairs_kept,
    lemma_put_pairs, lemma_settled_status, lives_apart, open_in, orderly, running,
};
use crate::engine::ops::{deleted_in, inserted_in, mapped, read_in, updated_in};
use crate::engine::restart::{law_restart_gives_all_back, law_restart_log, reopened, safe};
use crate::engine::txn::{abort_outcome, commit_logged, commit_outcome};
use crate::engine::{begins, Engine};
use crate::error::{EngineError, IndexError};
use crate::index::flat::{all_rows, leaf_of, lemma_row_at, lemma_row_of, row_count, slot_of};
use crate::index::laws::{can_put, lemma_can_put, lemma_can_replace, lemma_first_visible};
use crate::index::lifecycle::{blank, newly_created};
use crate::index::ops::{delete_outcome, insert_outcome, marked, update_outcome};
use crate::index::rows::{first_visible, placed, splice};
use crate::index::smo::{early_stage, put_outcome, put_stage};
use crate::index::trail::{grew, log_records, signed};
use crate::index::tree::Part;
use crate::index::vacuum::{swept, vacuum_outcome};
use crate::index::{cover, lookup, BTreeIndex};
use crate::page::leaf::Version;
use crate::recovery::clog::{
    law_no_id_is_reused, lemma_next_id, lemma_one_more, lemma_unnamed, lemma_verdict, names,
    rebuilt, verdict,
};
use crate::transaction::{law_begin_snapshot, Transaction};
use crate::transaction_manager::{TmView, TransactionStatus};
use crate::types::{canonical, Key, Value};
use crate::wal::record::RecordView;
use crate::wal::segment::{lemma_empty_segment, read_all, SegmentView};
use crate::wal::{full, log_step, opens, Wal, WalView};
use vstd::prelude::*;

verus! {

/// The log names the transaction, and tells of its commit exactly where the engine takes it
/// to have committed.
pub open spec fn told_id(recs: Seq<RecordView>, tm: TmView, id: u64) -> bool {
    id == 0 || names(recs, id) && (verdict(recs, id) == TransactionStatus::Committed) == (
    !tm.is_aborted(id) && !tm.active.contains(id))
}

/// The same of the marks on the row.
pub open spec fn told_row(recs: Seq<RecordView>, tm: TmView, r: Version) -> bool {
    told_id(recs, tm, r.xmin) && told_id(recs, tm, r.xmax)
}

/// The same of all rows; and the log tells of no commit of a transaction that is active or
/// has not begun.
pub open spec fn agreed(recs: Seq<RecordView>, tm: TmView, parts: Seq<Part>) -> bool {
    &&& forall|i: int, j: int|
        0 <= i < parts.len() && 0 <= j < parts[i].rows.len() ==> told_row(
            recs,
            tm,
            #[trigger] parts[i].rows[j],
        )
    &&& forall|id: u64|
        tm.active.contains(id) || id >= tm.next ==> #[trigger] verdict(recs, id)
            != TransactionStatus::Committed
}

/// As long as the log keeps up with the pages, it agrees with the engine on the transactions.
pub open spec fn told<K: Key, V: Value>(e: Engine<K, V>) -> bool {
    !e.index.trail@.parted && e.index.pool.wal@.error is None ==> agreed(
        log_records(e.index.pool.wal@),
        e.tm(),
        e.index.parts(),
    )
}

/// The mark was on a row before, or is that of a transaction that the log names by now.
pub open spec fn mark_ok(
    recs: Seq<RecordView>,
    more: Seq<RecordView>,
    tm: TmView,
    txn_id: u64,
    id: u64,
) -> bool {
    told_id(recs, tm, id) || id == txn_id && names(more, txn_id)
}

/// The same of both marks of a row.
pub open spec fn row_ok(
    recs: Seq<RecordView>,
    more: Seq<RecordView>,
    tm: TmView,
    txn_id: u64,
    r: Version,
) -> bool {
    mark_ok(recs, more, tm, txn_id, r.xmin) && mark_ok(recs, more, tm, txn_id, r.xmax)
}

/// A step of an active transaction: the log grew, and new marks are the transaction's.
pub proof fn lemma_agreed(
    recs: Seq<RecordView>,
    more: Seq<RecordView>,
    tm: TmView,
    before: Seq<Part>,
    txn_id: u64,
    after: Seq<Part>,
)
    requires
        agreed(recs, tm, before),
        forall|id: u64| #[trigger] verdict(more, id) == verdict(recs, id),
        forall|id: u64| names(recs, id) ==> #[trigger] names(more, id),
        tm.active.contains(txn_id),
        forall|i: int, j: int|
            0 <= i < after.len() && 0 <= j < after[i].rows.len() ==> row_ok(
                recs,
                more,
                tm,
                txn_id,
                #[trigger] after[i].rows[j],
            ),
    ensures
        agreed(more, tm, after),
{
    assert(verdict(recs, txn_id) != TransactionStatus::Committed);
    assert(verdict(more, txn_id) == verdict(recs, txn_id));
    assert forall|i: int, j: int|
        0 <= i < after.len() && 0 <= j < after[i].rows.len() implies told_row(
        more,
        tm,
        #[trigger] after[i].rows[j],
    ) by {
        let r = after[i].rows[j];
        assert(row_ok(recs, more, tm, txn_id, r));
        assert(names(recs, r.xmin) ==> names(more, r.xmin));
        assert(names(recs, r.xmax) ==> names(more, r.xmax));
        assert(verdict(more, r.xmin) == verdict(recs, r.xmin));
        assert(verdict(more, r.xmax) == verdict(recs, r.xmax));
    }
    assert forall|id: u64| tm.active.contains(id) || id >= tm.next implies #[trigger] verdict(
        more,
        id,
    ) != TransactionStatus::Committed by {
        assert(verdict(more, id) == verdict(recs, id));
        assert(verdict(recs, id) != TransactionStatus::Committed);
    }
}

/// Rows among those that there were, and a new one.
pub proof fn lemma_rows_among(
    recs: Seq<RecordView>,
    more: Seq<RecordView>,
    tm: TmView,
    before: Seq<Part>,
    txn_id: u64,
    new: Version,
    after: Seq<Part>,
)
    requires
        forall|i: int, j: int|
            0 <= i < before.len() && 0 <= j < before[i].rows.len() ==> row_ok(
                recs,
                more,
                tm,
                txn_id,
                #[trigger] before[i].rows[j],
            ),
        forall|x: int|
            0 <= x < all_rows(after).len() ==> among(
                all_rows(before),
                new,
                #[trigger] all_rows(after)[x],
            ),
        row_ok(recs, more, tm, txn_id, new),
    ensures
        forall|i: int, j: int|
            0 <= i < after.len() && 0 <= j < after[i].rows.len() ==> row_ok(
                recs,
                more,
                tm,
                txn_id,
                #[trigger] after[i].rows[j],
            ),
{
    let rows = all_rows(before);
    assert forall|i: int, j: int|
        0 <= i < after.len() && 0 <= j < after[i].rows.len() implies row_ok(
        recs,
        more,
        tm,
        txn_id,
        #[trigger] after[i].rows[j],
    ) by {
        lemma_row_at(after, i, j);
        let r = all_rows(after)[row_count(after, i) + j];
        assert(among(rows, new, r));
        if rows.contains(r) {
            let z = choose|z: int| 0 <= z < rows.len() && rows[z] == r;
            lemma_row_of(before, z);
            assert(row_ok(
                recs,
                more,
                tm,
                txn_id,
                before[leaf_of(before, z)].rows[slot_of(before, z)],
            ));
        }
    }
}

/// The rows after a version was put into a leaf, or not.
proof fn lemma_put_rows_ok<K: Key, V: Value>(
    recs: Seq<RecordView>,
    more: Seq<RecordView>,
    tm: TmView,
    before: Seq<Part>,
    at: int,
    k: Seq<u8>,
    v: Seq<u8>,
    txn_id: u64,
    r: Result<(), IndexError>,
    t: BTreeIndex<K, V>,
)
    requires
        agreed(recs, tm, before),
        can_put::<K, V>(before, at, before[at], k, v),
        put_outcome(before, at, before[at], k, v, txn_id, tm, r, t),
        signed(t, txn_id) ==> names(more, txn_id),
    ensures
        forall|i: int, j: int|
            0 <= i < t.parts().len() && 0 <= j < t.parts()[i].rows.len() ==> row_ok(
                recs,
                more,
                tm,
                txn_id,
                #[trigger] t.parts()[i].rows[j],
            ),
{
    let h = tm.global_xmin();
    let p = before[at];
    let (out, full) = placed::<K>(p, k, v, txn_id, h, tm);
    lemma_all_ok(recs, more, tm, before, txn_id);
    if signed(t, txn_id) {
        let new = Version { key: k, val: v, xmin: txn_id, xmax: 0 };
        lemma_put_pairs(before, at, k, v, txn_id, tm, r, t, any());
        lemma_rows_among(recs, more, tm, before, txn_id, new, t.parts());
    } else {
        let new = Version { key: k, val: v, xmin: 0, xmax: 0 };
        let stage = if r is Err && r->Err_0 is Page {
            out
        } else {
            choose|stage: Seq<Part>|
                put_stage::<K>(p, k, v, txn_id, h, tm, stage) && t.parts() == #[trigger] splice(
                    before,
                    at,
                    stage,
                ) && (early_stage::<K>(p, k, v, h, tm, stage) || signed(t, txn_id))
        };
        lemma_early_rows::<K, V>(before, at, k, v, h, tm, stage, new);
        lemma_rows_among(recs, more, tm, before, txn_id, new, t.parts());
    }
}

/// The rows of all leaves.
pub proof fn lemma_all_ok(
    recs: Seq<RecordView>,
    more: Seq<RecordView>,
    tm: TmView,
    parts: Seq<Part>,
    txn_id: u64,
)
    requires
        agreed(recs, tm, parts),
    ensures
        forall|i: int, j: int|
            0 <= i < parts.len() && 0 <= j < parts[i].rows.len() ==> row_ok(
                recs,
                more,
                tm,
                txn_id,
                #[trigger] parts[i].rows[j],
            ),
{
    assert forall|i: int, j: int|
        0 <= i < parts.len() && 0 <= j < parts[i].rows.len() implies row_ok(
        recs,
        more,
        tm,
        txn_id,
        #[trigger] parts[i].rows[j],
    ) by {
        assert(told_row(recs, tm, parts[i].rows[j]));
    }
}

/// An insertion keeps the log and the engine agreed, whether it succeeds or not.
pub proof fn law_insert_is_told<K: Key, V: Value>(
    a: Engine<K, V>,
    txn: Transaction,
    k: Seq<u8>,
    v: Seq<u8>,
    r: Result<(), EngineError>,
    b: Engine<K, V>,
)
    requires
        orderly(a),
        open_in(txn, a),
        canonical::<K>(k),
        canonical::<V>(v),
        inserted_in(a, txn, k, v, r, b),
        told(a),
    ensures
        told(b),
{
    let tm = a.tm();
    let before = a.index.parts();
    let ri = choose|ri: Result<(), IndexError>|
        r == mapped(ri) && #[trigger] insert_outcome(a.index, k, v, txn, tm, ri, b.index);
    if !b.index.trail@.parted && b.index.pool.wal@.error is None {
        let recs = log_records(a.index.pool.wal@);
        let more = log_records(b.index.pool.wal@);
        let id = txn.txn_id;
        if b.index.parts() == before {
            lemma_all_ok(recs, more, tm, before, id);
        } else {
            let i = cover::<K>(before, k);
            lemma_can_put(a.index, k, v);
            lemma_put_rows_ok(recs, more, tm, before, i, k, v, id, ri, b.index);
        }
        lemma_agreed(recs, more, tm, before, id, b.index.parts());
    }
}

/// The rows once one of them is marked.
pub proof fn lemma_marked_ok(
    recs: Seq<RecordView>,
    more: Seq<RecordView>,
    tm: TmView,
    parts: Seq<Part>,
    x: int,
    txn_id: u64,
)
    requires
        agreed(recs, tm, parts),
        0 <= x < all_rows(parts).len(),
        names(more, txn_id),
    ensures
        forall|i: int, j: int|
            0 <= i < marked(parts, x, txn_id).len() && 0 <= j < marked(
                parts,
                x,
                txn_id,
            )[i].rows.len() ==> row_ok(
                recs,
                more,
                tm,
                txn_id,
                #[trigger] marked(parts, x, txn_id)[i].rows[j],
            ),
{
    let q = marked(parts, x, txn_id);
    lemma_row_of(parts, x);
    assert forall|i: int, j: int| 0 <= i < q.len() && 0 <= j < q[i].rows.len() implies row_ok(
        recs,
        more,
        tm,
        txn_id,
        #[trigger] q[i].rows[j],
    ) by {
        assert(told_row(recs, tm, parts[i].rows[j]));
    }
}

/// A deletion keeps the log and the engine agreed, whether it succeeds or not.
pub proof fn law_delete_is_told<K: Key, V: Value>(
    a: Engine<K, V>,
    txn: Transaction,
    k: Seq<u8>,
    r: Result<(), EngineError>,
    b: Engine<K, V>,
)
    requires
        orderly(a),
        open_in(txn, a),
        canonical::<K>(k),
        deleted_in(a, txn, k, r, b),
        told(a),
    ensures
        told(b),
{
    let tm = a.tm();
    let before = a.index.parts();
    let ri = choose|ri: Result<(), IndexError>|
        r == mapped(ri) && #[trigger] delete_outcome(a.index, k, txn, tm, ri, b.index);
    if !b.index.trail@.parted && b.index.pool.wal@.error is None {
        let recs = log_records(a.index.pool.wal@);
        let more = log_records(b.index.pool.wal@);
        let id = txn.txn_id;
        if b.index.parts() == before {
            lemma_all_ok(recs, more, tm, before, id);
        } else {
            let rows = all_rows(before);
            lemma_first_visible::<K>(rows, k, txn, tm, 0);
            let x = first_visible::<K>(rows, k, txn, tm, 0)->0;
            lemma_marked_ok(recs, more, tm, before, x, id);
        }
        lemma_agreed(recs, more, tm, before, id, b.index.parts());
    }
}

/// An update keeps the log and the engine agreed, whether it succeeds or not.
pub proof fn law_update_is_told<K: Key, V: Value>(
    a: Engine<K, V>,
    txn: Transaction,
    k: Seq<u8>,
    v: Seq<u8>,
    r: Result<(), EngineError>,
    b: Engine<K, V>,
)
    requires
        orderly(a),
        open_in(txn, a),
        canonical::<K>(k),
        canonical::<V>(v),
        updated_in(a, txn, k, v, r, b),
        told(a),
    ensures
        told(b),
{
    let tm = a.tm();
    let before = a.index.parts();
    let ri = choose|ri: Result<(), IndexError>|
        r == mapped(ri) && #[trigger] update_outcome(a.index, k, v, txn, tm, ri, b.index);
    if !b.index.trail@.parted && b.index.pool.wal@.error is None {
        let recs = log_records(a.index.pool.wal@);
        let more = log_records(b.index.pool.wal@);
        let id = txn.txn_id;
        if b.index.parts() == before {
            lemma_all_ok(recs, more, tm, before, id);
        } else {
            let i = cover::<K>(before, k);
            lemma_can_replace(a.index, k, v, txn, tm);
            let x = first_visible::<K>(all_rows(before), k, txn, tm, 0)->0;
            let q = marked(before, x, id);
            let new = Version { key: k, val: v, xmin: id, xmax: 0 };
            lemma_marked_ok(recs, more, tm, before, x, id);
            lemma_put_pairs(q, i, k, v, id, tm, ri, b.index, any());
            lemma_rows_among(recs, more, tm, q, id, new, b.index.parts());
        }
        lemma_agreed(recs, more, tm, before, id, b.index.parts());
    }
}

/// A read keeps the log and the engine agreed.
pub proof fn law_read_is_told<K: Key, V: Value>(
    a: Engine<K, V>,
    txn: Transaction,
    k: Seq<u8>,
    r: Result<Option<Vec<u8>>, EngineError>,
    b: Engine<K, V>,
)
    requires
        read_in(a, txn, k, r, b),
        told(a),
    ensures
        told(b),
{
}

/// A sweep keeps the log and the engine agreed, also one that fails.
pub proof fn law_vacuum_is_told<K: Key, V: Value>(
    a: Engine<K, V>,
    r: Result<usize, IndexError>,
    b: Engine<K, V>,
)
    requires
        vacuum_outcome(a.index, a.tm(), r, b.index, b.tm()),
        told(a),
    ensures
        told(b),
{
    let tm = a.tm();
    let parts = a.index.parts();
    let h = tm.global_xmin();
    let n = match r {
        Ok(_) => parts.len() as int,
        Err(_) => choose|n: int|
            0 <= n <= parts.len() && b.index.parts() == #[trigger] swept(parts, n, h, tm),
    };
    if !b.index.trail@.parted && b.index.pool.wal@.error is None {
        let recs = log_records(a.index.pool.wal@);
        let more = log_records(b.index.pool.wal@);
        let after = b.index.parts();
        assert forall|i: int, j: int|
            0 <= i < after.len() && 0 <= j < after[i].rows.len() implies told_row(
            more,
            b.tm(),
            #[trigger] after[i].rows[j],
        ) by {
            let r = after[i].rows[j];
            lemma_pairs_kept(parts[i].rows, h, tm, any());
            assert(parts[i].rows.contains(r));
            let c = choose|c: int| 0 <= c < parts[i].rows.len() && parts[i].rows[c] == r;
            assert(told_row(recs, tm, parts[i].rows[c]));
            assert(verdict(more, r.xmin) == verdict(recs, r.xmin));
            assert(verdict(more, r.xmax) == verdict(recs, r.xmax));
            assert(names(recs, r.xmin) ==> names(more, r.xmin));
            assert(names(recs, r.xmax) ==> names(more, r.xmax));
        }
        assert forall|id: u64|
            b.tm().active.contains(id) || id >= b.tm().next implies #[trigger] verdict(more, id)
            != TransactionStatus::Committed by {
            assert(verdict(more, id) == verdict(recs, id));
        }
    }
}

/// A log without segments is opened as a log without records.
pub proof fn law_new_log_is_blank(capacity: usize, segment_size: usize, w: Wal)
    requires
        opens(Seq::empty(), capacity, segment_size, Ok(w)),
    ensures
        blank(w@),
        w@.waiting.len() == 0,
{
    let none = Seq::<SegmentView>::empty();
    lemma_empty_segment(none, 1);
    assert(w@.segments =~= none.push(SegmentView { index: 1, bytes: Seq::empty() }));
    assert(full(w@) == w@.segments);
}

/// A new database with such a log: all that the engine did is in the data file, and the log
/// and the engine agree.
pub proof fn law_new_database_is_told<K: Key, V: Value>(w: WalView, e: Engine<K, V>)
    requires
        blank(w),
        w.waiting.len() == 0,
        e.wf(),
        newly_created(e.index),
        log_step(w, e.index.pool.wal@),
        e.index.pool.wal@.error is None,
        !e.index.trail@.parted,
    ensures
        safe(e),
        told(e),
{
}

/// The beginning of a transaction changes nothing of what the log and the engine agree on.
pub proof fn lemma_begun_agreed(recs: Seq<RecordView>, tm: TmView, parts: Seq<Part>)
    requires
        crate::engine::history::sound(tm),
        tm.next < u64::MAX,
        agreed(recs, tm, parts),
        forall|i: int| 0 <= i < parts.len() ==> issued((#[trigger] parts[i]).rows, tm),
    ensures
        agreed(recs, tm.begun(), parts),
{
    let mt = tm.begun();
    lemma_begun_status(tm);
    assert forall|i: int, j: int|
        0 <= i < parts.len() && 0 <= j < parts[i].rows.len() implies told_row(
        recs,
        mt,
        #[trigger] parts[i].rows[j],
    ) by {
        assert(issued(parts[i].rows, tm));
        assert(told_row(recs, tm, parts[i].rows[j]));
    }
    assert forall|id: u64| mt.active.contains(id) || id >= mt.next implies #[trigger] verdict(
        recs,
        id,
    ) != TransactionStatus::Committed by {
        if id != tm.next && mt.active.contains(id) {
            assert(tm.active.contains(id));
        }
    }
}

/// The beginning of a transaction keeps the log and the engine agreed.
pub proof fn law_begin_is_told<K: Key, V: Value>(a: Engine<K, V>, txn: Transaction, m: Engine<K, V>)
    requires
        orderly(a),
        a.tm().next < u64::MAX,
        begins(a, txn, m),
        told(a),
    ensures
        told(m),
{
    let parts = a.index.parts();
    if !m.index.trail@.parted && m.index.pool.wal@.error is None {
        assert forall|i: int| 0 <= i < parts.len() implies issued(
            (#[trigger] parts[i]).rows,
            a.tm(),
        ) by {
            lemma_issued_leaf(parts, a.tm(), i);
        }
        lemma_begun_agreed(log_records(a.index.pool.wal@), a.tm(), parts);
    }
}

/// The transaction left no mark on a row.
pub open spec fn unmarked(parts: Seq<Part>, id: u64) -> bool {
    forall|i: int, j: int|
        0 <= i < parts.len() && 0 <= j < parts[i].rows.len() ==> (#[trigger] parts[i].rows[j]).xmin
            != id && parts[i].rows[j].xmax != id
}

/// The log and the engine agree on the end of a transaction, and on all others as before.
pub proof fn lemma_ended_told(
    recs: Seq<RecordView>,
    more: Seq<RecordView>,
    tm: TmView,
    parts: Seq<Part>,
    id: u64,
    status: TransactionStatus,
)
    requires
        crate::engine::history::sound(tm),
        tm.active.contains(id),
        0 < id < tm.next,
        status != TransactionStatus::Active,
        agreed(recs, tm, parts),
        forall|x: u64| names(recs, x) ==> #[trigger] names(more, x),
        forall|x: u64| x != id ==> #[trigger] verdict(more, x) == verdict(recs, x),
        (verdict(more, id) == TransactionStatus::Committed) == (status
            == TransactionStatus::Committed) || unmarked(parts, id),
    ensures
        agreed(more, tm.settled(id, status), parts),
{
    let bt = tm.settled(id, status);
    lemma_settled_status(tm, id, status);
    assert forall|i: int, j: int|
        0 <= i < parts.len() && 0 <= j < parts[i].rows.len() implies told_row(
        more,
        bt,
        #[trigger] parts[i].rows[j],
    ) by {
        let r = parts[i].rows[j];
        assert(told_row(recs, tm, r));
        assert(names(recs, r.xmin) ==> names(more, r.xmin));
        assert(names(recs, r.xmax) ==> names(more, r.xmax));
        assert(r.xmin != id ==> verdict(more, r.xmin) == verdict(recs, r.xmin));
        assert(r.xmax != id ==> verdict(more, r.xmax) == verdict(recs, r.xmax));
        assert(bt.active.contains(r.xmin) == (tm.active.contains(r.xmin) && r.xmin != id));
        assert(bt.active.contains(r.xmax) == (tm.active.contains(r.xmax) && r.xmax != id));
    }
    assert forall|x: u64| bt.active.contains(x) || x >= bt.next implies #[trigger] verdict(more, x)
        != TransactionStatus::Committed by {
        assert(x != id);
        assert(verdict(more, x) == verdict(recs, x));
        assert(verdict(recs, x) != TransactionStatus::Committed);
    }
}

/// A commit keeps the log and the engine agreed, also one that fails. It is for transactions
/// whose writes were noted.
pub proof fn law_commit_is_told<K: Key, V: Value>(
    a: Engine<K, V>,
    txn: Transaction,
    r: Result<(), EngineError>,
    b: Engine<K, V>,
)
    requires
        orderly(a),
        running(txn, a.tm()),
        txn.wrote || unmarked(a.index.parts(), txn.txn_id),
        commit_outcome(a, txn, r, b),
        told(a),
    ensures
        told(b),
{
    let tm = a.tm();
    let id = txn.txn_id;
    let w = a.index.pool.wal@;
    let parts = a.index.parts();
    if !b.index.trail@.parted && b.index.pool.wal@.error is None {
        let recs = log_records(w);
        let more = log_records(b.index.pool.wal@);
        let status = if r is Ok {
            TransactionStatus::Committed
        } else {
            TransactionStatus::Aborted
        };
        if txn.wrote {
            let (logged, mid) = commit_logged(w, id);
            if logged is Ok {
                if r is Ok {
                    crate::engine::restart::lemma_committed_log(a, txn, b);
                    let c = crate::wal::new_record(
                        w,
                        crate::wal::record::WalRecordType::Commit,
                        id,
                        Seq::empty(),
                        None,
                    );
                    assert forall|x: u64| names(recs, x) implies #[trigger] names(more, x) by {
                        lemma_one_more(recs, c, x);
                    }
                    assert forall|x: u64| x != id implies #[trigger] verdict(more, x) == verdict(
                        recs,
                        x,
                    ) by {
                        lemma_one_more(recs, c, x);
                    }
                    lemma_one_more(recs, c, id);
                }
            }
        }
        lemma_ended_told(recs, more, tm, parts, id, status);
    }
}

/// An abort keeps the log and the engine agreed, also one that fails.
pub proof fn law_abort_is_told<K: Key, V: Value>(
    a: Engine<K, V>,
    txn: Transaction,
    r: Result<(), EngineError>,
    b: Engine<K, V>,
)
    requires
        orderly(a),
        running(txn, a.tm()),
        abort_outcome(a, txn, r, b),
        told(a),
    ensures
        told(b),
{
    let tm = a.tm();
    let id = txn.txn_id;
    let w = a.index.pool.wal@;
    let parts = a.index.parts();
    if !b.index.trail@.parted && b.index.pool.wal@.error is None {
        let recs = log_records(w);
        let more = log_records(b.index.pool.wal@);
        if txn.wrote && r is Ok {
            crate::engine::restart::lemma_ended_log(
                a,
                crate::wal::record::WalRecordType::Abort,
                id,
                b,
            );
            let c = crate::wal::new_record(
                w,
                crate::wal::record::WalRecordType::Abort,
                id,
                Seq::empty(),
                None,
            );
            assert forall|x: u64| names(recs, x) implies #[trigger] names(more, x) by {
                lemma_one_more(recs, c, x);
            }
            assert forall|x: u64| x != id implies #[trigger] verdict(more, x) == verdict(
                recs,
                x,
            ) by {
                lemma_one_more(recs, c, x);
            }
            lemma_one_more(recs, c, id);
        }
        if r is Ok {
            assert(verdict(recs, id) != TransactionStatus::Committed);
            lemma_ended_told(recs, more, tm, parts, id, TransactionStatus::Aborted);
        }
    }
}

/// What a restart makes of a transaction that left a mark: it has committed where it had, and
/// has aborted else.
pub proof fn lemma_mark_after_restart(recs: Seq<RecordView>, tm: TmView, id: u64)
    requires
        told_id(recs, tm, id),
        crate::engine::history::sound(tm),
        id < tm.next,
        !names(recs, u64::MAX),
    ensures
        id < rebuilt(recs).next,
        told_id(recs, rebuilt(recs), id),
        rebuilt(recs).status(id) == (if tm.status(id) == TransactionStatus::Committed {
            TransactionStatus::Committed
        } else {
            TransactionStatus::Aborted
        }),
        id != 0 ==> rebuilt(recs).is_aborted(id) == (tm.is_aborted(id) || tm.active.contains(id)),
{
    lemma_next_id(recs);
    if id != 0 {
        law_no_id_is_reused(recs, id);
        lemma_verdict(recs, id);
        assert((tm.status(id) == TransactionStatus::Active) == tm.active.contains(id));
        assert(rebuilt(recs).clog.contains_key(id));
        assert(tm.active.contains(id) ==> tm.clog.contains_key(id));
    }
}

/// The log and the engine agree on all rows.
proof fn lemma_all_told(recs: Seq<RecordView>, tm: TmView, parts: Seq<Part>)
    requires
        agreed(recs, tm, parts),
    ensures
        forall|x: int|
            0 <= x < all_rows(parts).len() ==> told_row(recs, tm, #[trigger] all_rows(parts)[x]),
{
    let rows = all_rows(parts);
    assert forall|x: int| 0 <= x < rows.len() implies told_row(recs, tm, #[trigger] rows[x]) by {
        lemma_row_of(parts, x);
        assert(told_row(recs, tm, parts[leaf_of(parts, x)].rows[slot_of(parts, x)]));
    }
}

/// An engine that took the leaves and the log over is in order, and agrees with the log.
pub proof fn lemma_taken_over<K: Key, V: Value>(
    recs: Seq<RecordView>,
    tm: TmView,
    parts: Seq<Part>,
    after: Engine<K, V>,
)
    requires
        crate::engine::history::sound(tm),
        crate::engine::history::tidy::<K>(parts, tm),
        agreed(recs, tm, parts),
        !names(recs, u64::MAX),
        after.wf(),
        after.index.parts() == parts,
        after.tm() == rebuilt(recs),
        after.index.pool.wal@.error is None ==> log_records(after.index.pool.wal@) == recs,
    ensures
        orderly(after),
        told(after),
{
    let t2 = after.tm();
    assert forall|i: int, j: int|
        0 <= i < parts.len() && 0 <= j < parts[i].rows.len() implies told_row(
        recs,
        t2,
        #[trigger] parts[i].rows[j],
    ) by {
        lemma_issued_leaf(parts, tm, i);
        assert(told_row(recs, tm, parts[i].rows[j]));
        lemma_mark_after_restart(recs, tm, parts[i].rows[j].xmin);
        lemma_mark_after_restart(recs, tm, parts[i].rows[j].xmax);
    }
    assert forall|id: u64| t2.active.contains(id) || id >= t2.next implies #[trigger] verdict(
        recs,
        id,
    ) != TransactionStatus::Committed by {
        if names(recs, id) {
            law_no_id_is_reused(recs, id);
        } else {
            lemma_unnamed(recs, id);
        }
    }
    let f = lives_apart::<K>(tm);
    let g = lives_apart::<K>(t2);
    let rows = all_rows(parts);
    lemma_all_told(recs, tm, parts);
    assert forall|x: int| 0 <= x < rows.len() implies (#[trigger] rows[x]).xmin < t2.next
        && rows[x].xmax < t2.next by {
        lemma_mark_after_restart(recs, tm, rows[x].xmin);
        lemma_mark_after_restart(recs, tm, rows[x].xmax);
    }
    assert forall|x: int, y: int|
        #![trigger rows[x], rows[y]]
        0 <= x < rows.len() && 0 <= y < rows.len() && x != y implies g(rows[x], rows[y]) by {
        assert(f(rows[x], rows[y]));
        lemma_mark_after_restart(recs, tm, rows[x].xmin);
        lemma_mark_after_restart(recs, tm, rows[x].xmax);
        lemma_mark_after_restart(recs, tm, rows[y].xmin);
        lemma_mark_after_restart(recs, tm, rows[y].xmax);
    }
    assert(crate::engine::history::sound(t2)) by {
        lemma_next_id(recs);
        assert forall|id: u64| 0 < id < t2.next implies (#[trigger] t2.status(id)
            == TransactionStatus::Active) == t2.active.contains(id) by {
            lemma_verdict(recs, id);
        }
        assert forall|id: u64| id >= t2.next implies !#[trigger] t2.clog.contains_key(id) by {
            if names(recs, id) {
                law_no_id_is_reused(recs, id);
            }
        }
    }
}

/// After a restart the database is in order, and the log and the engine agree.
pub proof fn law_restart_is_told<K: Key, V: Value>(
    e: Engine<K, V>,
    capacity: usize,
    segment_size: usize,
    w: Wal,
    after: Engine<K, V>,
)
    requires
        safe(e),
        orderly(e),
        told(e),
        opens(e.index.pool.wal@.segments, capacity, segment_size, Ok(w)),
        reopened(e.index.pool.disk@, w@, after),
    ensures
        orderly(after),
        told(after),
        after.index.parts() == e.index.parts(),
        agreed(read_all(e.index.pool.wal@.segments), e.tm(), e.index.parts()),
{
    let recs = read_all(e.index.pool.wal@.segments);
    law_restart_gives_all_back(e, capacity, segment_size, w, after);
    law_restart_log(e, capacity, segment_size, w, after);
    lemma_taken_over(recs, e.tm(), e.index.parts(), after);
}

/// Two readers that see the same rows read the same.
pub proof fn lemma_same_reading<K: Key>(
    rows: Seq<Version>,
    k: Seq<u8>,
    t1: Transaction,
    m1: TmView,
    t2: Transaction,
    m2: TmView,
    i: int,
)
    requires
        0 <= i <= rows.len(),
        forall|j: int|
            0 <= j < rows.len() ==> t1.sees((#[trigger] rows[j]).xmin, rows[j].xmax, m1)
                == t2.sees(rows[j].xmin, rows[j].xmax, m2),
    ensures
        first_visible::<K>(rows, k, t1, m1, i) == first_visible::<K>(rows, k, t2, m2, i),
    decreases rows.len() - i,
{
    if i < rows.len() {
        lemma_same_reading::<K>(rows, k, t1, m1, t2, m2, i + 1);
    }
}

/// Committed data survive a restart, and nothing else does: where all that the engine did is
/// in the data file or in the log, a transaction that begins after a restart reads of every
/// key what a transaction would read that begins now. So what has committed by now is read,
/// and what was in progress is as if it had not been.
pub proof fn law_restart_reads_the_same<K: Key, V: Value>(
    e: Engine<K, V>,
    capacity: usize,
    segment_size: usize,
    w: Wal,
    after: Engine<K, V>,
    t1: Transaction,
    m1: Engine<K, V>,
    t2: Transaction,
    m2: Engine<K, V>,
    k: Seq<u8>,
)
    requires
        safe(e),
        orderly(e),
        told(e),
        opens(e.index.pool.wal@.segments, capacity, segment_size, Ok(w)),
        reopened(e.index.pool.disk@, w@, after),
        e.tm().next < u64::MAX,
        begins(e, t1, m1),
        after.tm().next < u64::MAX,
        begins(after, t2, m2),
        K::accepts(k),
    ensures
        lookup::<K>(m2.index.parts(), k, t2, m2.tm()) == lookup::<K>(
            m1.index.parts(),
            k,
            t1,
            m1.tm(),
        ),
{
    let recs = read_all(e.index.pool.wal@.segments);
    let tm = e.tm();
    let parts = e.index.parts();
    law_restart_is_told(e, capacity, segment_size, w, after);
    law_restart_log(e, capacity, segment_size, w, after);
    let rows = all_rows(parts);
    lemma_all_told(recs, tm, parts);
    assert forall|j: int| 0 <= j < rows.len() implies t1.sees(
        (#[trigger] rows[j]).xmin,
        rows[j].xmax,
        m1.tm(),
    ) == t2.sees(rows[j].xmin, rows[j].xmax, m2.tm()) by {
        lemma_same_mark(e, after, recs, t1, m1, t2, m2, rows[j].xmin);
        lemma_same_mark(e, after, recs, t1, m1, t2, m2, rows[j].xmax);
    }
    lemma_same_reading::<K>(rows, k, t1, m1.tm(), t2, m2.tm(), 0);
}

/// Both readers take the mark alike.
proof fn lemma_same_mark<K: Key, V: Value>(
    e: Engine<K, V>,
    after: Engine<K, V>,
    recs: Seq<RecordView>,
    t1: Transaction,
    m1: Engine<K, V>,
    t2: Transaction,
    m2: Engine<K, V>,
    id: u64,
)
    requires
        orderly(e),
        orderly(after),
        after.tm() == rebuilt(recs),
        !names(recs, u64::MAX),
        told_id(recs, e.tm(), id),
        id < e.tm().next,
        e.tm().next < u64::MAX,
        begins(e, t1, m1),
        after.tm().next < u64::MAX,
        begins(after, t2, m2),
    ensures
        t1.snapshot.committed(id, m1.tm()) == t2.snapshot.committed(id, m2.tm()),
        id != t1.txn_id,
        id != t2.txn_id,
{
    lemma_mark_after_restart(recs, e.tm(), id);
    if id != 0 {
        law_begin_snapshot(e.tm(), t1.snapshot, id);
        law_begin_snapshot(after.tm(), t2.snapshot, id);
    }
}

} // verus!
