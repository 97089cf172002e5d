//! What readers find after a crash.
//!
//! What a crash leaves are the leaves of the last flush, in which readers find what they would
//! find in the leaves of now: the transactions that wrote since have not committed, since a
//! commit flushes the log.

use crate::disk::DiskView;
use crate::engine::history::{
    any, issued, law_commit, lemma_agrees_sym, lemma_begun_status, lemma_begun_tidy,
    lemma_comparable, lemma_deletable, lemma_early_rows, lemma_insertable, lemma_issued_among,
    lemma_issued_leaf, lemma_pairs_kept, lemma_settled_status, lemma_settled_tidy,
    lemma_stage_pairs, lemma_swept_tidy, lemma_updatable, lives_apart, open_in, orderly, running,
    sound, tidy,
};
use crate::engine::ops::{deleted_in, inserted_in, mapped, read_in, updated_in};
use crate::engine::restart::{law_crash_falls_back, lemma_committed_log, reopened};
use crate::engine::told::{
    agreed, law_commit_is_told, law_new_database_is_told, lemma_agreed, lemma_all_ok,
    lemma_begun_agreed, lemma_ended_told, lemma_mark_after_restart, lemma_marked_ok,
    lemma_rows_among, lemma_same_reading, lemma_taken_over, told, told_row, unmarked,
};
use crate::engine::txn::{abort_outcome, commit_outcome};
use crate::engine::{begins, Engine};
use crate::error::{EngineError, IndexError};
use crate::index::flat::{all_rows, leaf_of, lemma_row_of, slot_of};
use crate::index::floor::{floor_kept, told_by};
use crate::index::laws::{
    can_put, lemma_can_put, lemma_can_replace, lemma_first_visible, lemma_lookup_each,
    lemma_marked, lemma_seen_kept,
};
use crate::index::lifecycle::{blank, newly_created};
use crate::index::ops::{delete_outcome, insert_outcome, marked, update_outcome};
use crate::index::rows::{first_conflict, first_visible, seen, splice, write_conflict};
use crate::index::smo::{early_stage, put_stage};
use crate::index::stages::{lemma_marked_reads, lemma_reached, lemma_stage_reads, reached, spares};
use crate::index::trail::{kept, lemma_backed, log_records, stands_in};
use crate::index::tree::Part;
use crate::index::vacuum::{swept, vacuum_outcome};
use crate::index::{cover, lookup};
use crate::page::leaf::Version;
use crate::recovery::clog::{names, verdict};
use crate::transaction::{law_begin_snapshot, Snapshot, Transaction};
use crate::transaction_manager::{TmView, TransactionStatus};
use crate::types::{canonical, Key, Value};
use crate::wal::record::RecordView;
use crate::wal::segment::read_all;
use crate::wal::{log_step, opens, Wal, WalView};
use vstd::prelude::*;

verus! {

/// The transaction has neither aborted nor is it active.
pub open spec fn done(tm: TmView, id: u64) -> bool {
    id == 0 || !tm.is_aborted(id) && !tm.active.contains(id)
}

/// The transactions where all that are active have aborted.
pub open spec fn ended(tm: TmView) -> TmView {
    TmView {
        next: 0,
        clog: Map::new(
            |id: u64| tm.is_aborted(id) || tm.active.contains(id),
            |id: u64| TransactionStatus::Aborted,
        ),
        active: Seq::empty(),
        swept: 0,
    }
}

/// A reader that takes whoever has not aborted to have committed.
pub open spec fn watcher(t: Transaction) -> bool {
    t.txn_id == u64::MAX && t.snapshot.xmin == u64::MAX
}

/// A watcher of the ended transactions sees what has been created and not been deleted for
/// good.
proof fn lemma_watcher(t: Transaction, tm: TmView, xmin: u64, xmax: u64)
    requires
        watcher(t),
        xmin < u64::MAX,
        xmax < u64::MAX,
    ensures
        t.sees(xmin, xmax, ended(tm)) == (done(tm, xmin) && !(xmax != 0 && done(tm, xmax))),
{
    assert(ended(tm).is_aborted(xmin) == (tm.is_aborted(xmin) || tm.active.contains(xmin)));
    assert(ended(tm).is_aborted(xmax) == (tm.is_aborted(xmax) || tm.active.contains(xmax)));
}

/// One who comes when all active transactions have aborted reads the same of both.
pub open spec fn reads_alike<K: Key>(p: Seq<Part>, q: Seq<Part>, tm: TmView) -> bool {
    forall|t: Transaction, k: Seq<u8>|
        watcher(t) && K::accepts(k) ==> #[trigger] lookup::<K>(p, k, t, ended(tm)) == lookup::<K>(
            q,
            k,
            t,
            ended(tm),
        )
}

/// Unless a failure came in between, the segments of the log and the engine agree on the
/// transactions that left marks in the leaves that a crash would fall back to, the versions
/// there are in order, and readers find there what they find in the leaves of now.
pub open spec fn anchored<K: Key, V: Value>(e: Engine<K, V>) -> bool {
    !e.index.trail@.parted && e.index.pool.wal@.error is None ==> {
        &&& agreed(read_all(e.index.pool.wal@.segments), e.tm(), e.index.trail@.floor)
        &&& tidy::<K>(e.index.trail@.floor, e.tm())
        &&& reads_alike::<K>(e.index.trail@.floor, e.index.parts(), e.tm())
    }
}

/// Where nothing waits and the floor is what there is, it is so.
proof fn lemma_anchored_here<K: Key, V: Value>(e: Engine<K, V>)
    requires
        orderly(e),
        told(e),
        e.index.trail@.floor == e.index.parts(),
        e.index.pool.wal@.waiting.len() == 0,
    ensures
        anchored(e),
{
    if !e.index.trail@.parted && e.index.pool.wal@.error is None {
        reveal(kept);
        lemma_backed(e.index.pool.wal@);
    }
}

/// Nothing that a watcher sees may vacuum remove.
proof fn lemma_spares(rows: Seq<Version>, tm: TmView, t: Transaction)
    requires
        sound(tm),
        issued(rows, tm),
        watcher(t),
    ensures
        spares(rows, tm.global_xmin(), tm, t, ended(tm)),
{
    assert forall|i: int|
        0 <= i < rows.len() && crate::transaction::vacuumable(
            (#[trigger] rows[i]).xmin,
            rows[i].xmax,
            tm.global_xmin(),
            tm,
        ) implies !t.sees(rows[i].xmin, rows[i].xmax, ended(tm)) by {
        let r = rows[i];
        lemma_watcher(t, tm, r.xmin, r.xmax);
        if r.xmax != 0 && tm.status(r.xmax) == TransactionStatus::Committed {
            assert(!tm.active.contains(r.xmax));
        }
    }
}

/// In every state that is reached while an active transaction puts a version into a leaf, a
/// watcher reads the same.
proof fn lemma_reached_alike<K: Key, V: Value>(
    before: Seq<Part>,
    at: int,
    k: Seq<u8>,
    v: Seq<u8>,
    txn: Transaction,
    tm: TmView,
    after: Seq<Part>,
)
    requires
        sound(tm),
        running(txn, tm),
        can_put::<K, V>(before, at, before[at], k, v),
        issued(all_rows(before), tm),
        reached::<K>(before, at, before[at], k, v, txn.txn_id, tm, after),
    ensures
        reads_alike::<K>(before, after, tm),
{
    if after != before {
        let p = before[at];
        let stage = choose|stage: Seq<Part>|
            put_stage::<K>(p, k, v, txn.txn_id, tm.global_xmin(), tm, stage) && after
                == #[trigger] splice(before, at, stage);
        lemma_issued_leaf(before, tm, at);
        assert forall|t: Transaction, k2: Seq<u8>| watcher(t) && K::accepts(k2) implies
            #[trigger] lookup::<K>(before, k2, t, ended(tm)) == lookup::<K>(
            after,
            k2,
            t,
            ended(tm),
        ) by {
            lemma_watcher(t, tm, txn.txn_id, 0);
            lemma_spares(p.rows, tm, t);
            lemma_stage_reads::<K, V>(
                before,
                at,
                k,
                v,
                txn.txn_id,
                tm,
                stage,
                k2,
                t,
                ended(tm),
            );
        }
    }
}

/// What reads alike one after the other reads alike.
proof fn lemma_alike_chain<K: Key>(p: Seq<Part>, q: Seq<Part>, r: Seq<Part>, tm: TmView)
    requires
        reads_alike::<K>(p, q, tm),
        reads_alike::<K>(q, r, tm),
    ensures
        reads_alike::<K>(p, r, tm),
{
    assert forall|t: Transaction, k: Seq<u8>| watcher(t) && K::accepts(k) implies
        #[trigger] lookup::<K>(p, k, t, ended(tm)) == lookup::<K>(r, k, t, ended(tm)) by {
        assert(lookup::<K>(q, k, t, ended(tm)) == lookup::<K>(r, k, t, ended(tm)));
    }
}

/// The rows of such a state.
proof fn lemma_reached_ok<K: Key, V: Value>(
    recs: Seq<RecordView>,
    more: Seq<RecordView>,
    before: Seq<Part>,
    at: int,
    k: Seq<u8>,
    v: Seq<u8>,
    txn_id: u64,
    tm: TmView,
    stage: Seq<Part>,
)
    requires
        forall|i: int, j: int|
            0 <= i < before.len() && 0 <= j < before[i].rows.len()
                ==> crate::engine::told::row_ok(
                recs,
                more,
                tm,
                txn_id,
                #[trigger] before[i].rows[j],
            ),
        can_put::<K, V>(before, at, before[at], k, v),
        put_stage::<K>(before[at], k, v, txn_id, tm.global_xmin(), tm, stage),
        early_stage::<K>(before[at], k, v, tm.global_xmin(), tm, stage) || names(more, txn_id),
    ensures
        ({
            let after = splice(before, at, stage);
            forall|i: int, j: int|
                0 <= i < after.len() && 0 <= j < after[i].rows.len()
                    ==> crate::engine::told::row_ok(
                    recs,
                    more,
                    tm,
                    txn_id,
                    #[trigger] after[i].rows[j],
                )
        }),
{
    let h = tm.global_xmin();
    if names(more, txn_id) {
        let new = Version { key: k, val: v, xmin: txn_id, xmax: 0 };
        lemma_stage_pairs::<K, V>(before, at, k, v, txn_id, h, tm, any(), stage);
        lemma_rows_among(recs, more, tm, before, txn_id, new, splice(before, at, stage));
    } else {
        let new = Version { key: k, val: v, xmin: 0, xmax: 0 };
        lemma_early_rows::<K, V>(before, at, k, v, h, tm, stage, new);
        lemma_rows_among(recs, more, tm, before, txn_id, new, splice(before, at, stage));
    }
}

/// A step of an active transaction that readers do not notice: whether a crash falls back to
/// where it did before or to a state that was reached in the step, it is so after it.
proof fn lemma_step_anchored<K: Key, V: Value>(a: Engine<K, V>, txn: Transaction, b: Engine<K, V>)
    requires
        orderly(a),
        told(a),
        anchored(a),
        running(txn, a.tm()),
        b.tm() == a.tm(),
        !a.index.trail@.parted,
        a.index.pool.wal@.error is None,
        reads_alike::<K>(a.index.parts(), b.index.parts(), a.tm()),
        floor_kept(a.index, b.index) || {
            &&& told_by(a.index, b.index)
            &&& tidy::<K>(b.index.trail@.floor, a.tm())
            &&& reads_alike::<K>(a.index.parts(), b.index.trail@.floor, a.tm())
            &&& forall|i: int, j: int|
                0 <= i < b.index.trail@.floor.len() && 0 <= j
                    < b.index.trail@.floor[i].rows.len() ==> crate::engine::told::row_ok(
                    log_records(a.index.pool.wal@),
                    read_all(b.index.pool.wal@.segments),
                    a.tm(),
                    txn.txn_id,
                    #[trigger] b.index.trail@.floor[i].rows[j],
                )
        },
    ensures
        anchored(b),
{
    let tm = a.tm();
    let floor = b.index.trail@.floor;
    assert forall|t: Transaction, k: Seq<u8>| watcher(t) && K::accepts(k) implies
        #[trigger] lookup::<K>(floor, k, t, ended(tm)) == lookup::<K>(
        b.index.parts(),
        k,
        t,
        ended(tm),
    ) by {
        assert(lookup::<K>(a.index.parts(), k, t, ended(tm)) == lookup::<K>(
            b.index.parts(),
            k,
            t,
            ended(tm),
        ));
        if floor_kept(a.index, b.index) {
            assert(lookup::<K>(a.index.trail@.floor, k, t, ended(tm)) == lookup::<K>(
                a.index.parts(),
                k,
                t,
                ended(tm),
            ));
        }
    }
    if !floor_kept(a.index, b.index) {
        lemma_agreed(
            log_records(a.index.pool.wal@),
            read_all(b.index.pool.wal@.segments),
            tm,
            a.index.parts(),
            txn.txn_id,
            floor,
        );
    }
}

/// A step that changes no leaf.
proof fn lemma_still_anchored<K: Key, V: Value>(a: Engine<K, V>, txn: Transaction, b: Engine<K, V>)
    requires
        orderly(a),
        told(a),
        anchored(a),
        running(txn, a.tm()),
        b.tm() == a.tm(),
        !a.index.trail@.parted,
        a.index.pool.wal@.error is None,
        reads_alike::<K>(a.index.parts(), b.index.parts(), a.tm()),
        floor_kept(a.index, b.index) || told_by(a.index, b.index) && b.index.trail@.floor
            == a.index.parts(),
    ensures
        anchored(b),
{
    lemma_all_ok(
        log_records(a.index.pool.wal@),
        read_all(b.index.pool.wal@.segments),
        a.tm(),
        a.index.parts(),
        txn.txn_id,
    );
    lemma_step_anchored(a, txn, b);
}

/// A step that put a version into a leaf, or a part of that. Before that it may have changed
/// the leaves in a way that readers do not notice.
proof fn lemma_put_anchored<K: Key, V: Value>(
    a: Engine<K, V>,
    base: Seq<Part>,
    at: int,
    k: Seq<u8>,
    v: Seq<u8>,
    txn: Transaction,
    stage: Seq<Part>,
    b: Engine<K, V>,
)
    requires
        orderly(a),
        told(a),
        anchored(a),
        running(txn, a.tm()),
        b.tm() == a.tm(),
        !a.index.trail@.parted,
        a.index.pool.wal@.error is None,
        can_put::<K, V>(base, at, base[at], k, v),
        tidy::<K>(base, a.tm()),
        crate::engine::history::agrees(
            all_rows(base),
            Version { key: k, val: v, xmin: txn.txn_id, xmax: 0 },
            lives_apart::<K>(a.tm()),
        ),
        reads_alike::<K>(a.index.parts(), base, a.tm()),
        reads_alike::<K>(a.index.parts(), b.index.parts(), a.tm()),
        told_by(a.index, b.index),
        put_stage::<K>(base[at], k, v, txn.txn_id, a.tm().global_xmin(), a.tm(), stage),
        b.index.trail@.floor == splice(base, at, stage),
        early_stage::<K>(base[at], k, v, a.tm().global_xmin(), a.tm(), stage) || names(
            read_all(b.index.pool.wal@.segments),
            txn.txn_id,
        ),
        forall|i: int, j: int|
            0 <= i < base.len() && 0 <= j < base[i].rows.len() ==> crate::engine::told::row_ok(
                log_records(a.index.pool.wal@),
                read_all(b.index.pool.wal@.segments),
                a.tm(),
                txn.txn_id,
                #[trigger] base[i].rows[j],
            ),
    ensures
        anchored(b),
{
    let tm = a.tm();
    let id = txn.txn_id;
    let floor = b.index.trail@.floor;
    let new = Version { key: k, val: v, xmin: id, xmax: 0 };
    let recs = log_records(a.index.pool.wal@);
    let more = read_all(b.index.pool.wal@.segments);
    let h = tm.global_xmin();
    assert(reached::<K>(base, at, base[at], k, v, id, tm, floor));
    lemma_reached_alike::<K, V>(base, at, k, v, txn, tm, floor);
    lemma_alike_chain::<K>(a.index.parts(), base, floor, tm);
    lemma_stage_pairs::<K, V>(base, at, k, v, id, h, tm, lives_apart::<K>(tm), stage);
    lemma_issued_among(all_rows(base), new, all_rows(floor), tm);
    lemma_reached_ok::<K, V>(recs, more, base, at, k, v, id, tm, stage);
    lemma_step_anchored(a, txn, b);
}

/// After an insertion a crash falls back to leaves in which readers find what they find in
/// those of now, whether the insertion succeeds or not.
pub proof fn law_insert_is_anchored<K: Key, V: Value>(
    a: Engine<K, V>,
    txn: Transaction,
    k: Seq<u8>,
    v: Seq<u8>,
    r: Result<(), EngineError>,
    b: Engine<K, V>,
)
    requires
        orderly(a),
        open_in(txn, a),
        canonical::<K>(k),
        canonical::<V>(v),
        inserted_in(a, txn, k, v, r, b),
        told(a),
        anchored(a),
    ensures
        anchored(b),
{
    let tm = a.tm();
    let id = txn.txn_id;
    let before = a.index.parts();
    let ri = choose|ri: Result<(), IndexError>|
        r == mapped(ri) && #[trigger] insert_outcome(a.index, k, v, txn, tm, ri, b.index);
    if !b.index.trail@.parted && b.index.pool.wal@.error is None && b.index != a.index {
        let i = cover::<K>(before, k);
        let p = before[i];
        let rows = all_rows(before);
        if first_conflict::<K>(rows, k, txn, tm, 0) is Some {
            lemma_still_anchored(a, txn, b);
        } else {
            lemma_can_put(a.index, k, v);
            if b.index.parts() != before {
                lemma_reached(before, i, p, k, v, id, tm, ri, b.index);
            }
            lemma_reached_alike::<K, V>(before, i, k, v, txn, tm, b.index.parts());
            if floor_kept(a.index, b.index) || b.index.trail@.floor == before {
                lemma_still_anchored(a, txn, b);
            } else {
                let recs = log_records(a.index.pool.wal@);
                let more = read_all(b.index.pool.wal@.segments);
                let stage = choose|stage: Seq<Part>|
                    put_stage::<K>(p, k, v, id, tm.global_xmin(), tm, stage) && b.index.trail@.floor
                        == #[trigger] splice(before, i, stage) && (early_stage::<K>(
                        p,
                        k,
                        v,
                        tm.global_xmin(),
                        tm,
                        stage,
                    ) || names(more, id));
                let new = Version { key: k, val: v, xmin: id, xmax: 0 };
                lemma_insertable::<K>(rows, k, v, txn, tm, 0);
                lemma_agrees_sym::<K>(rows, new, tm);
                lemma_all_ok(recs, more, tm, before, id);
                lemma_put_anchored(a, before, i, k, v, txn, stage, b);
            }
        }
    }
}

/// Marking a row as deleted by an active transaction changes nothing for a watcher.
proof fn lemma_marked_alike<K: Key>(parts: Seq<Part>, x: int, txn: Transaction, tm: TmView)
    requires
        sound(tm),
        running(txn, tm),
        issued(all_rows(parts), tm),
        0 <= x < all_rows(parts).len(),
        all_rows(parts)[x].xmax == 0 || tm.status(all_rows(parts)[x].xmax)
            == TransactionStatus::Aborted,
    ensures
        reads_alike::<K>(parts, marked(parts, x, txn.txn_id), tm),
{
    let rows = all_rows(parts);
    let q = marked(parts, x, txn.txn_id);
    lemma_marked(parts, x, txn.txn_id);
    assert forall|t: Transaction, k2: Seq<u8>| watcher(t) && K::accepts(k2) implies
        #[trigger] lookup::<K>(parts, k2, t, ended(tm)) == lookup::<K>(q, k2, t, ended(tm)) by {
        let r = rows[x];
        lemma_watcher(t, tm, r.xmin, r.xmax);
        lemma_watcher(t, tm, r.xmin, txn.txn_id);
        lemma_marked_reads::<K>(rows, x, txn.txn_id, k2, t, ended(tm));
    }
}

/// The same after a deletion.
pub proof fn law_delete_is_anchored<K: Key, V: Value>(
    a: Engine<K, V>,
    txn: Transaction,
    k: Seq<u8>,
    r: Result<(), EngineError>,
    b: Engine<K, V>,
)
    requires
        orderly(a),
        open_in(txn, a),
        canonical::<K>(k),
        deleted_in(a, txn, k, r, b),
        told(a),
        anchored(a),
    ensures
        anchored(b),
{
    let tm = a.tm();
    let before = a.index.parts();
    let ri = choose|ri: Result<(), IndexError>|
        r == mapped(ri) && #[trigger] delete_outcome(a.index, k, txn, tm, ri, b.index);
    if !b.index.trail@.parted && b.index.pool.wal@.error is None {
        let rows = all_rows(before);
        if b.index.parts() != before {
            lemma_first_visible::<K>(rows, k, txn, tm, 0);
            let x = first_visible::<K>(rows, k, txn, tm, 0)->0;
            lemma_comparable(a.index);
            lemma_deletable::<K>(rows, x, k, txn, tm);
            lemma_marked_alike::<K>(before, x, txn, tm);
        }
        lemma_still_anchored(a, txn, b);
    }
}

/// The same after an update.
pub proof fn law_update_is_anchored<K: Key, V: Value>(
    a: Engine<K, V>,
    txn: Transaction,
    k: Seq<u8>,
    v: Seq<u8>,
    r: Result<(), EngineError>,
    b: Engine<K, V>,
)
    requires
        orderly(a),
        open_in(txn, a),
        canonical::<K>(k),
        canonical::<V>(v),
        updated_in(a, txn, k, v, r, b),
        told(a),
        anchored(a),
    ensures
        anchored(b),
{
    let tm = a.tm();
    let id = txn.txn_id;
    let before = a.index.parts();
    let ri = choose|ri: Result<(), IndexError>|
        r == mapped(ri) && #[trigger] update_outcome(a.index, k, v, txn, tm, ri, b.index);
    if !b.index.trail@.parted && b.index.pool.wal@.error is None && b.index != a.index {
        let i = cover::<K>(before, k);
        let rows = all_rows(before);
        let found = first_visible::<K>(rows, k, txn, tm, 0);
        if found is None || write_conflict(rows[found->0].xmax, txn, tm) is Some {
            lemma_still_anchored(a, txn, b);
        } else {
            lemma_can_replace(a.index, k, v, txn, tm);
            let x = found->0;
            let q = marked(before, x, id);
            let out = all_rows(q);
            lemma_marked(before, x, id);
            lemma_comparable(a.index);
            lemma_deletable::<K>(rows, x, k, txn, tm);
            lemma_updatable::<K>(out, k, v, txn, tm);
            lemma_marked_alike::<K>(before, x, txn, tm);
            assert(issued(out, tm)) by {
                assert forall|n: int| 0 <= n < out.len() implies (#[trigger] out[n]).xmin < tm.next
                    && out[n].xmax < tm.next by {
                    assert(rows[n].xmin < tm.next && rows[n].xmax < tm.next);
                }
            }
            if b.index.parts() != before && b.index.parts() != q {
                lemma_reached(q, i, q[i], k, v, id, tm, ri, b.index);
                lemma_reached_alike::<K, V>(q, i, k, v, txn, tm, b.index.parts());
                lemma_alike_chain::<K>(before, q, b.index.parts(), tm);
            }
            if floor_kept(a.index, b.index) || b.index.trail@.floor == before {
                lemma_still_anchored(a, txn, b);
            } else {
                let recs = log_records(a.index.pool.wal@);
                let more = read_all(b.index.pool.wal@.segments);
                let stage = choose|stage: Seq<Part>|
                    put_stage::<K>(q[i], k, v, id, tm.global_xmin(), tm, stage)
                        && b.index.trail@.floor == #[trigger] splice(q, i, stage) && names(more, id);
                lemma_marked_ok(recs, more, tm, before, x, id);
                lemma_put_anchored(a, q, i, k, v, txn, stage, b);
            }
        }
    }
}

/// The same after a read.
pub proof fn law_read_is_anchored<K: Key, V: Value>(
    a: Engine<K, V>,
    txn: Transaction,
    k: Seq<u8>,
    r: Result<Option<Vec<u8>>, EngineError>,
    b: Engine<K, V>,
)
    requires
        orderly(a),
        running(txn, a.tm()),
        read_in(a, txn, k, r, b),
        told(a),
        anchored(a),
    ensures
        anchored(b),
{
    if !b.index.trail@.parted && b.index.pool.wal@.error is None {
        lemma_still_anchored(a, txn, b);
    }
}

/// Leaves in which all marks are of transactions that are done, or not, as before read the
/// same to a watcher.
proof fn lemma_ended_same<K: Key>(parts: Seq<Part>, tm: TmView, m: TmView, t: Transaction, k: Seq<u8>)
    requires
        watcher(t),
        issued(all_rows(parts), tm),
        forall|i: int, j: int|
            0 <= i < parts.len() && 0 <= j < parts[i].rows.len() ==> done(
                m,
                (#[trigger] parts[i].rows[j]).xmin,
            ) == done(tm, parts[i].rows[j].xmin) && done(m, parts[i].rows[j].xmax) == done(
                tm,
                parts[i].rows[j].xmax,
            ),
    ensures
        lookup::<K>(parts, k, t, ended(m)) == lookup::<K>(parts, k, t, ended(tm)),
{
    let rows = all_rows(parts);
    assert forall|j: int| 0 <= j < rows.len() implies t.sees(
        (#[trigger] rows[j]).xmin,
        rows[j].xmax,
        ended(m),
    ) == t.sees(rows[j].xmin, rows[j].xmax, ended(tm)) by {
        lemma_row_of(parts, j);
        let r = parts[leaf_of(parts, j)].rows[slot_of(parts, j)];
        lemma_watcher(t, tm, r.xmin, r.xmax);
        lemma_watcher(t, m, r.xmin, r.xmax);
    }
    lemma_same_reading::<K>(rows, k, t, ended(m), t, ended(tm), 0);
}

/// The same of two of which a watcher reads alike.
proof fn lemma_alike_later<K: Key>(p: Seq<Part>, q: Seq<Part>, tm: TmView, m: TmView)
    requires
        tidy::<K>(p, tm),
        tidy::<K>(q, tm),
        reads_alike::<K>(p, q, tm),
        forall|i: int, j: int|
            0 <= i < p.len() && 0 <= j < p[i].rows.len() ==> done(
                m,
                (#[trigger] p[i].rows[j]).xmin,
            ) == done(tm, p[i].rows[j].xmin) && done(m, p[i].rows[j].xmax) == done(
                tm,
                p[i].rows[j].xmax,
            ),
        forall|i: int, j: int|
            0 <= i < q.len() && 0 <= j < q[i].rows.len() ==> done(
                m,
                (#[trigger] q[i].rows[j]).xmin,
            ) == done(tm, q[i].rows[j].xmin) && done(m, q[i].rows[j].xmax) == done(
                tm,
                q[i].rows[j].xmax,
            ),
    ensures
        reads_alike::<K>(p, q, m),
{
    assert forall|t: Transaction, k: Seq<u8>| watcher(t) && K::accepts(k) implies
        #[trigger] lookup::<K>(p, k, t, ended(m)) == lookup::<K>(q, k, t, ended(m)) by {
        lemma_ended_same::<K>(p, tm, m, t, k);
        lemma_ended_same::<K>(q, tm, m, t, k);
        assert(lookup::<K>(p, k, t, ended(tm)) == lookup::<K>(q, k, t, ended(tm)));
    }
}

/// The same when a transaction begins.
pub proof fn law_begin_is_anchored<K: Key, V: Value>(
    a: Engine<K, V>,
    txn: Transaction,
    m: Engine<K, V>,
)
    requires
        orderly(a),
        a.tm().next < u64::MAX,
        begins(a, txn, m),
        anchored(a),
    ensures
        anchored(m),
{
    let tm = a.tm();
    let mt = m.tm();
    if !m.index.trail@.parted && m.index.pool.wal@.error is None {
        let floor = a.index.trail@.floor;
        let parts = a.index.parts();
        lemma_begun_status(tm);
        assert forall|i: int| 0 <= i < floor.len() implies issued((#[trigger] floor[i]).rows, tm) by {
            lemma_issued_leaf(floor, tm, i);
        }
        lemma_begun_agreed(read_all(a.index.pool.wal@.segments), tm, floor);
        lemma_begun_tidy::<K>(floor, tm);
        assert forall|id: u64| id < tm.next implies #[trigger] done(mt, id) == done(tm, id) by {
            assert(mt.active.contains(id) == tm.active.contains(id));
        }
        assert forall|i: int, j: int|
            0 <= i < floor.len() && 0 <= j < floor[i].rows.len() implies done(
            mt,
            (#[trigger] floor[i].rows[j]).xmin,
        ) == done(tm, floor[i].rows[j].xmin) && done(mt, floor[i].rows[j].xmax) == done(
            tm,
            floor[i].rows[j].xmax,
        ) by {
            lemma_issued_leaf(floor, tm, i);
        }
        assert forall|i: int, j: int|
            0 <= i < parts.len() && 0 <= j < parts[i].rows.len() implies done(
            mt,
            (#[trigger] parts[i].rows[j]).xmin,
        ) == done(tm, parts[i].rows[j].xmin) && done(mt, parts[i].rows[j].xmax) == done(
            tm,
            parts[i].rows[j].xmax,
        ) by {
            lemma_issued_leaf(parts, tm, i);
        }
        lemma_alike_later::<K>(floor, parts, tm, mt);
    }
}

/// The end of a transaction that left no mark, or that aborts.
proof fn lemma_end_anchored<K: Key, V: Value>(
    a: Engine<K, V>,
    txn: Transaction,
    status: TransactionStatus,
    b: Engine<K, V>,
)
    requires
        orderly(a),
        running(txn, a.tm()),
        anchored(a),
        status != TransactionStatus::Active,
        b.tm() == a.tm().settled(txn.txn_id, status),
        b.index.parts() == a.index.parts(),
        floor_kept(a.index, b.index),
        !a.index.trail@.parted,
        a.index.pool.wal@.error is None,
        status == TransactionStatus::Committed ==> unmarked(a.index.parts(), txn.txn_id)
            && unmarked(a.index.trail@.floor, txn.txn_id),
    ensures
        anchored(b),
{
    let tm = a.tm();
    let bt = b.tm();
    let id = txn.txn_id;
    let floor = a.index.trail@.floor;
    let parts = a.index.parts();
    let recs = read_all(a.index.pool.wal@.segments);
    lemma_settled_status(tm, id, status);
    assert(verdict(recs, id) != TransactionStatus::Committed);
    lemma_ended_told(recs, recs, tm, floor, id, status);
    lemma_settled_tidy::<K>(floor, tm, txn, status);
    assert forall|x: u64| x != id || status == TransactionStatus::Aborted implies #[trigger] done(
        bt,
        x,
    ) == done(tm, x) by {
        assert(bt.active.contains(x) == (tm.active.contains(x) && x != id));
    }
    assert forall|i: int, j: int| 0 <= i < floor.len() && 0 <= j < floor[i].rows.len() implies done(
        bt,
        (#[trigger] floor[i].rows[j]).xmin,
    ) == done(tm, floor[i].rows[j].xmin) && done(bt, floor[i].rows[j].xmax) == done(
        tm,
        floor[i].rows[j].xmax,
    ) by {}
    assert forall|i: int, j: int| 0 <= i < parts.len() && 0 <= j < parts[i].rows.len() implies done(
        bt,
        (#[trigger] parts[i].rows[j]).xmin,
    ) == done(tm, parts[i].rows[j].xmin) && done(bt, parts[i].rows[j].xmax) == done(
        tm,
        parts[i].rows[j].xmax,
    ) by {}
    lemma_alike_later::<K>(floor, parts, tm, bt);
}

/// The same when a transaction commits, or fails to. It is for transactions whose writes were
/// noted.
pub proof fn law_commit_is_anchored<K: Key, V: Value>(
    a: Engine<K, V>,
    txn: Transaction,
    r: Result<(), EngineError>,
    b: Engine<K, V>,
)
    requires
        orderly(a),
        running(txn, a.tm()),
        txn.wrote || unmarked(a.index.parts(), txn.txn_id) && unmarked(
            a.index.trail@.floor,
            txn.txn_id,
        ),
        commit_outcome(a, txn, r, b),
        told(a),
        anchored(a),
    ensures
        anchored(b),
{
    if !b.index.trail@.parted && b.index.pool.wal@.error is None {
        if txn.wrote && r is Ok {
            law_commit(a, txn, r, b);
            law_commit_is_told(a, txn, r, b);
            lemma_committed_log(a, txn, b);
            lemma_anchored_here(b);
        } else if txn.wrote {
            lemma_end_anchored(a, txn, TransactionStatus::Aborted, b);
        } else {
            lemma_end_anchored(a, txn, TransactionStatus::Committed, b);
        }
    }
}

/// The same when a transaction aborts, or fails to.
pub proof fn law_abort_is_anchored<K: Key, V: Value>(
    a: Engine<K, V>,
    txn: Transaction,
    r: Result<(), EngineError>,
    b: Engine<K, V>,
)
    requires
        orderly(a),
        running(txn, a.tm()),
        abort_outcome(a, txn, r, b),
        anchored(a),
    ensures
        anchored(b),
{
    if !b.index.trail@.parted && b.index.pool.wal@.error is None && r is Ok {
        lemma_end_anchored(a, txn, TransactionStatus::Aborted, b);
    }
}

/// Swept leaves read the same to a watcher.
proof fn lemma_swept_alike<K: Key>(parts: Seq<Part>, n: int, tm: TmView)
    requires
        sound(tm),
        tidy::<K>(parts, tm),
    ensures
        reads_alike::<K>(parts, swept(parts, n, tm.global_xmin(), tm), tm),
{
    let h = tm.global_xmin();
    let out = swept(parts, n, h, tm);
    assert forall|t: Transaction, k: Seq<u8>| watcher(t) && K::accepts(k) implies
        #[trigger] lookup::<K>(parts, k, t, ended(tm)) == lookup::<K>(out, k, t, ended(tm)) by {
        assert forall|i: int| 0 <= i < parts.len() implies seen::<K>(
            (#[trigger] parts[i]).rows,
            k,
            t,
            ended(tm),
        ) == seen::<K>(out[i].rows, k, t, ended(tm)) by {
            lemma_issued_leaf(parts, tm, i);
            lemma_spares(parts[i].rows, tm, t);
            lemma_seen_kept::<K>(parts[i].rows, h, tm, k, t, ended(tm));
        }
        lemma_lookup_each::<K>(parts, out, k, t, ended(tm));
    }
}

/// The same after a sweep, also one that fails.
pub proof fn law_vacuum_is_anchored<K: Key, V: Value>(
    a: Engine<K, V>,
    r: Result<usize, IndexError>,
    b: Engine<K, V>,
)
    requires
        orderly(a),
        b.wf(),
        vacuum_outcome(a.index, a.tm(), r, b.index, b.tm()),
        told(a),
        anchored(a),
    ensures
        anchored(b),
{
    let tm = a.tm();
    let bt = b.tm();
    let parts = a.index.parts();
    let h = tm.global_xmin();
    let n = match r {
        Ok(_) => parts.len() as int,
        Err(_) => choose|n: int|
            0 <= n <= parts.len() && b.index.parts() == #[trigger] swept(parts, n, h, tm),
    };
    if !b.index.trail@.parted && b.index.pool.wal@.error is None {
        let floor = b.index.trail@.floor;
        let recs = log_records(a.index.pool.wal@);
        let more = read_all(b.index.pool.wal@.segments);
        assert forall|id: u64| #[trigger] bt.status(id) == tm.status(id) by {}
        assert(ended(bt) == ended(tm)) by {
            assert(ended(bt).clog =~= ended(tm).clog);
        }
        lemma_swept_alike::<K>(parts, n, tm);
        if floor_kept(a.index, b.index) {
            assert(swept(floor, 0, h, tm) =~= floor);
            lemma_swept_tidy::<K>(floor, 0, tm, bt);
            assert forall|t: Transaction, k: Seq<u8>| watcher(t) && K::accepts(k) implies
                #[trigger] lookup::<K>(floor, k, t, ended(bt)) == lookup::<K>(
                b.index.parts(),
                k,
                t,
                ended(bt),
            ) by {
                assert(lookup::<K>(floor, k, t, ended(tm)) == lookup::<K>(
                    parts,
                    k,
                    t,
                    ended(tm),
                ));
            }
        } else {
            let m = choose|m: int| 0 <= m <= parts.len() && floor == #[trigger] swept(parts, m, h, tm);
            lemma_swept_tidy::<K>(parts, m, tm, bt);
            lemma_swept_alike::<K>(parts, m, tm);
            assert forall|t: Transaction, k: Seq<u8>| watcher(t) && K::accepts(k) implies
                #[trigger] lookup::<K>(floor, k, t, ended(bt)) == lookup::<K>(
                b.index.parts(),
                k,
                t,
                ended(bt),
            ) by {
                assert(lookup::<K>(parts, k, t, ended(tm)) == lookup::<K>(
                    floor,
                    k,
                    t,
                    ended(tm),
                ));
            }
            assert forall|i: int, j: int|
                0 <= i < floor.len() && 0 <= j < floor[i].rows.len() implies told_row(
                more,
                bt,
                #[trigger] floor[i].rows[j],
            ) by {
                let x = floor[i].rows[j];
                lemma_pairs_kept(parts[i].rows, h, tm, any());
                assert(parts[i].rows.contains(x));
                let c = choose|c: int| 0 <= c < parts[i].rows.len() && parts[i].rows[c] == x;
                assert(told_row(recs, tm, parts[i].rows[c]));
                assert(verdict(more, x.xmin) == verdict(recs, x.xmin));
                assert(verdict(more, x.xmax) == verdict(recs, x.xmax));
                assert(names(recs, x.xmin) ==> names(more, x.xmin));
                assert(names(recs, x.xmax) ==> names(more, x.xmax));
            }
            assert forall|id: u64| bt.active.contains(id) || id >= bt.next implies #[trigger] verdict(
                more,
                id,
            ) != TransactionStatus::Committed by {
                assert(verdict(more, id) == verdict(recs, id));
            }
        }
    }
}

/// In a new database a crash falls back to what there is.
pub proof fn law_new_database_is_anchored<K: Key, V: Value>(w: WalView, e: Engine<K, V>)
    requires
        blank(w),
        orderly(e),
        newly_created(e.index),
        log_step(w, e.index.pool.wal@),
        e.index.pool.wal@.error is None,
        !e.index.trail@.parted,
        e.index.trail@.floor == e.index.parts(),
    ensures
        anchored(e),
{
    law_new_database_is_told(w, e);
    lemma_anchored_here(e);
}

/// After a crash and a restart the database is in order, the log and the engine agree, and a
/// crash falls back to what there is.
pub proof fn law_crash_is_told<K: Key, V: Value>(
    e: Engine<K, V>,
    d: DiskView,
    capacity: usize,
    segment_size: usize,
    w: Wal,
    after: Engine<K, V>,
)
    requires
        orderly(e),
        anchored(e),
        !e.index.trail@.parted,
        e.index.pool.wal@.error is None,
        stands_in(d, e.index.pool, e.index.trail@),
        opens(e.index.pool.wal@.segments, capacity, segment_size, Ok(w)),
        reopened(d, w@, after),
    ensures
        orderly(after),
        told(after),
        anchored(after),
        after.index.parts() == e.index.trail@.floor,
{
    let recs = read_all(e.index.pool.wal@.segments);
    law_crash_falls_back(e, d, capacity, segment_size, w, after);
    lemma_taken_over(recs, e.tm(), e.index.trail@.floor, after);
    if after.index.pool.wal@.error is None {
        lemma_anchored_here(after);
    }
}

/// Committed data survive a crash, and nothing else does: whenever an engine crashes, with
/// records that wait and pages that are not written, or not saved, a transaction that begins
/// after the restart reads of every key what a transaction would read that begins at the moment of the
/// crash. So what had committed is read, and what was in progress is as if it had not been.
pub proof fn law_crash_reads_the_same<K: Key, V: Value>(
    e: Engine<K, V>,
    d: DiskView,
    capacity: usize,
    segment_size: usize,
    w: Wal,
    after: Engine<K, V>,
    t1: Transaction,
    m1: Engine<K, V>,
    t2: Transaction,
    m2: Engine<K, V>,
    k: Seq<u8>,
)
    requires
        orderly(e),
        anchored(e),
        !e.index.trail@.parted,
        e.index.pool.wal@.error is None,
        stands_in(d, e.index.pool, e.index.trail@),
        opens(e.index.pool.wal@.segments, capacity, segment_size, Ok(w)),
        reopened(d, w@, after),
        e.tm().next < u64::MAX,
        begins(e, t1, m1),
        after.tm().next < u64::MAX,
        begins(after, t2, m2),
        K::accepts(k),
    ensures
        lookup::<K>(m2.index.parts(), k, t2, m2.tm()) == lookup::<K>(
            m1.index.parts(),
            k,
            t1,
            m1.tm(),
        ),
{
    let recs = read_all(e.index.pool.wal@.segments);
    let floor = e.index.trail@.floor;
    let parts = e.index.parts();
    let t = Transaction {
        txn_id: u64::MAX,
        snapshot: Snapshot { xmin: u64::MAX, ..t1.snapshot },
        ..t1
    };
    law_crash_is_told(e, d, capacity, segment_size, w, after);
    law_crash_falls_back(e, d, capacity, segment_size, w, after);
    lemma_newcomer::<K>(parts, e.tm(), t1, m1.tm(), t, k);
    assert(lookup::<K>(floor, k, t, ended(e.tm())) == lookup::<K>(parts, k, t, ended(e.tm())));
    assert forall|i: int, j: int|
        0 <= i < floor.len() && 0 <= j < floor[i].rows.len() implies done(
        after.tm(),
        (#[trigger] floor[i].rows[j]).xmin,
    ) == done(e.tm(), floor[i].rows[j].xmin) && done(after.tm(), floor[i].rows[j].xmax) == done(
        e.tm(),
        floor[i].rows[j].xmax,
    ) by {
        lemma_issued_leaf(floor, e.tm(), i);
        assert(told_row(recs, e.tm(), floor[i].rows[j]));
        lemma_mark_after_restart(recs, e.tm(), floor[i].rows[j].xmin);
        lemma_mark_after_restart(recs, e.tm(), floor[i].rows[j].xmax);
    }
    lemma_ended_same::<K>(floor, e.tm(), after.tm(), t, k);
    lemma_newcomer::<K>(floor, after.tm(), t2, m2.tm(), t, k);
}

/// A transaction that begins reads what a watcher reads.
proof fn lemma_newcomer<K: Key>(
    parts: Seq<Part>,
    tm: TmView,
    t1: Transaction,
    m: TmView,
    t: Transaction,
    k: Seq<u8>,
)
    requires
        sound(tm),
        tidy::<K>(parts, tm),
        tm.next < u64::MAX,
        m == tm.begun(),
        t1.txn_id == tm.next,
        t1.snapshot.xmin == m.active[0],
        t1.snapshot.xmax == m.next,
        t1.snapshot.active@ == m.active,
        watcher(t),
    ensures
        lookup::<K>(parts, k, t1, m) == lookup::<K>(parts, k, t, ended(tm)),
{
    let rows = all_rows(parts);
    assert forall|j: int| 0 <= j < rows.len() implies t1.sees(
        (#[trigger] rows[j]).xmin,
        rows[j].xmax,
        m,
    ) == t.sees(rows[j].xmin, rows[j].xmax, ended(tm)) by {
        let r = rows[j];
        lemma_watcher(t, tm, r.xmin, r.xmax);
        if r.xmin != 0 {
            law_begin_snapshot(tm, t1.snapshot, r.xmin);
        }
        if r.xmax != 0 {
            law_begin_snapshot(tm, t1.snapshot, r.xmax);
        }
    }
    lemma_same_reading::<K>(rows, k, t1, m, t, ended(tm), 0);
}

/// A commit whose record the host cannot write takes nothing from what had committed: a
/// restart reads of every key what a transaction would have read that began just before
/// it, and the transaction itself is as if it had not been.
pub proof fn law_failed_commit_loses_nothing<K: Key, V: Value>(
    e: Engine<K, V>,
    txn: Transaction,
    error: EngineError,
    b: Engine<K, V>,
    d: DiskView,
    capacity: usize,
    segment_size: usize,
    w: Wal,
    after: Engine<K, V>,
    t1: Transaction,
    m1: Engine<K, V>,
    t2: Transaction,
    m2: Engine<K, V>,
    k: Seq<u8>,
)
    requires
        orderly(e),
        anchored(e),
        !e.index.trail@.parted,
        e.index.pool.wal@.error is None,
        e.index.pool.wal@.broken is Some,
        txn.wrote,
        commit_outcome(e, txn, Err(error), b),
        stands_in(d, e.index.pool, e.index.trail@),
        opens(b.index.pool.wal@.segments, capacity, segment_size, Ok(w)),
        reopened(d, w@, after),
        e.tm().next < u64::MAX,
        begins(e, t1, m1),
        after.tm().next < u64::MAX,
        begins(after, t2, m2),
        K::accepts(k),
    ensures
        b.tm().is_aborted(txn.txn_id),
        lookup::<K>(m2.index.parts(), k, t2, m2.tm()) == lookup::<K>(
            m1.index.parts(),
            k,
            t1,
            m1.tm(),
        ),
{
    assert(b.index.pool.wal@.segments == e.index.pool.wal@.segments);
    law_crash_reads_the_same(e, d, capacity, segment_size, w, after, t1, m1, t2, m2, k);
}

} // verus!
