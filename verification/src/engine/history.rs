//! What stays true of the versions of a key as transactions come and go, and what readers
//! see because of it.

use crate::engine::ops::{deleted_in, inserted_in, read_in, updated_in, writer};
use crate::engine::txn::{abort_outcome, commit_outcome};
use crate::engine::{begins, Engine};
use crate::error::{EngineError, IndexError};
use crate::index::flat::{
    all_rows, lemma_around, lemma_one_leaf, lemma_row_at, lemma_splice_rows, row_count,
};
use crate::index::laws::{
    can_put, inserted, lemma_can_put, lemma_can_replace, lemma_first_is, lemma_first_visible,
    lemma_marked, lemma_row_typed, lemma_seen_only, lemma_stage_rows, sole,
};
use crate::index::lifecycle::newly_created;
use crate::index::ops::{delete_outcome, insert_outcome, marked, update_outcome};
use crate::index::rows::{
    first_conflict, first_visible, insert_conflict, placed, shows, splice, write_conflict,
};
use crate::index::smo::{early_stage, put_outcome, put_stage};
use crate::index::tree::{lemma_le_chain, Part};
use crate::index::vacuum::{swept, vacuum_outcome};
use crate::index::{cover, lookup, BTreeIndex};
use crate::page::leaf::{kept_rows, Version};
use crate::transaction::Transaction;
use crate::transaction_manager::{TmView, TransactionStatus};
use crate::types::{canonical, key_same, Key, Value};
use vstd::prelude::*;

verus! {

/// The relation holds of any two rows.
pub open spec fn pairwise(rows: Seq<Version>, f: spec_fn(Version, Version) -> bool) -> bool {
    forall|i: int, j: int|
        #![trigger rows[i], rows[j]]
        0 <= i < rows.len() && 0 <= j < rows.len() && i != j ==> f(rows[i], rows[j])
}

/// The relation holds between the row and any of the others, both ways.
pub open spec fn agrees(
    rows: Seq<Version>,
    r: Version,
    f: spec_fn(Version, Version) -> bool,
) -> bool {
    forall|i: int| 0 <= i < rows.len() ==> f(#[trigger] rows[i], r) && f(r, rows[i])
}

/// The row is one of these, or the new one.
pub open spec fn among(rows: Seq<Version>, new: Version, r: Version) -> bool {
    rows.contains(r) || r == new
}

/// Some of the rows, in order.
proof fn lemma_pairs_part(rows: Seq<Version>, lo: int, hi: int, f: spec_fn(Version, Version) -> bool)
    requires
        pairwise(rows, f),
        0 <= lo <= hi <= rows.len(),
    ensures
        pairwise(rows.subrange(lo, hi), f),
        forall|r: Version| agrees(rows, r, f) ==> #[trigger] agrees(rows.subrange(lo, hi), r, f),
        forall|i: int|
            0 <= i < hi - lo ==> rows.contains(#[trigger] rows.subrange(lo, hi)[i]),
{
    let part = rows.subrange(lo, hi);
    assert forall|i: int, j: int|
        #![trigger part[i], part[j]]
        0 <= i < part.len() && 0 <= j < part.len() && i != j implies f(part[i], part[j]) by {
        assert(part[i] == rows[lo + i] && part[j] == rows[lo + j]);
    }
    assert forall|r: Version| agrees(rows, r, f) implies #[trigger] agrees(part, r, f) by {
        assert forall|i: int| 0 <= i < part.len() implies f(#[trigger] part[i], r) && f(
            r,
            part[i],
        ) by {
            assert(part[i] == rows[lo + i]);
        }
    }
}

/// The rows that vacuum keeps.
pub proof fn lemma_pairs_kept(
    rows: Seq<Version>,
    horizon: u64,
    tm: TmView,
    f: spec_fn(Version, Version) -> bool,
)
    requires
        pairwise(rows, f),
    ensures
        pairwise(kept_rows(rows, horizon, tm), f),
        forall|r: Version|
            agrees(rows, r, f) ==> #[trigger] agrees(kept_rows(rows, horizon, tm), r, f),
        forall|i: int|
            0 <= i < kept_rows(rows, horizon, tm).len() ==> rows.contains(
                #[trigger] kept_rows(rows, horizon, tm)[i],
            ),
    decreases rows.len(),
{
    crate::page::leaf::lemma_kept_bytes(rows, horizon, tm);
    let out = kept_rows(rows, horizon, tm);
    if rows.len() > 0 {
        let init = rows.drop_last();
        let last = rows.last();
        lemma_pairs_part(rows, 0, rows.len() - 1, f);
        assert(rows.subrange(0, rows.len() - 1) =~= init);
        lemma_pairs_kept(init, horizon, tm, f);
        let rest = kept_rows(init, horizon, tm);
        assert forall|i: int, j: int|
            #![trigger out[i], out[j]]
            0 <= i < out.len() && 0 <= j < out.len() && i != j implies f(out[i], out[j]) by {
            if i < rest.len() && j < rest.len() {
                assert(out[i] == rest[i] && out[j] == rest[j]);
            } else if i < rest.len() {
                assert(init.contains(rest[i]));
                let a = choose|a: int| 0 <= a < init.len() && init[a] == rest[i];
                assert(f(rows[a], rows[rows.len() - 1]));
            } else {
                assert(init.contains(rest[j]));
                let a = choose|a: int| 0 <= a < init.len() && init[a] == rest[j];
                assert(f(rows[rows.len() - 1], rows[a]));
            }
        }
    }
    assert forall|r: Version| agrees(rows, r, f) implies #[trigger] agrees(out, r, f) by {
        assert forall|i: int| 0 <= i < out.len() implies f(#[trigger] out[i], r) && f(
            r,
            out[i],
        ) by {
            assert(rows.contains(out[i]));
            let a = choose|a: int| 0 <= a < rows.len() && rows[a] == out[i];
            assert(f(rows[a], r) && f(r, rows[a]));
        }
    }
}

/// The first version was deleted for good, or by the one who created the second.
pub open spec fn gone(x: Version, y: Version, tm: TmView) -> bool {
    &&& x.xmax != 0
    &&& {
        ||| tm.status(x.xmax) == TransactionStatus::Committed
        ||| x.xmax == y.xmin && tm.status(x.xmax) != TransactionStatus::Aborted
    }
}

/// At most one of two versions of a key is there to stay.
pub open spec fn one_lives(x: Version, y: Version, tm: TmView) -> bool {
    ||| tm.status(x.xmin) == TransactionStatus::Aborted
    ||| tm.status(y.xmin) == TransactionStatus::Aborted
    ||| gone(x, y, tm)
    ||| gone(y, x, tm)
}

/// The same, where the keys are equal.
pub open spec fn lives_apart<K: Key>(tm: TmView) -> spec_fn(Version, Version) -> bool {
    |x: Version, y: Version| key_same::<K>(x.key, y.key) ==> one_lives(x, y, tm)
}

/// The transaction does not see both of two versions of a key.
pub open spec fn not_both<K: Key>(txn: Transaction, tm: TmView) -> spec_fn(
    Version,
    Version,
) -> bool {
    |x: Version, y: Version|
        key_same::<K>(x.key, y.key) ==> !(txn.sees(x.xmin, x.xmax, tm) && txn.sees(
            y.xmin,
            y.xmax,
            tm,
        ))
}

/// Only transactions that have begun left their mark on the rows.
pub open spec fn issued(rows: Seq<Version>, tm: TmView) -> bool {
    forall|i: int|
        0 <= i < rows.len() ==> (#[trigger] rows[i]).xmin < tm.next && rows[i].xmax < tm.next
}

/// The versions of all keys are in order.
pub open spec fn tidy<K: Key>(parts: Seq<Part>, tm: TmView) -> bool {
    &&& issued(all_rows(parts), tm)
    &&& pairwise(all_rows(parts), lives_apart::<K>(tm))
}

/// The transaction sees one version of each key at most.
pub open spec fn sees_one<K: Key>(parts: Seq<Part>, txn: Transaction, tm: TmView) -> bool {
    pairwise(all_rows(parts), not_both::<K>(txn, tm))
}

/// The commit log says of every id that was given out whether it is active.
pub open spec fn sound(tm: TmView) -> bool {
    &&& tm.wf()
    &&& forall|id: u64|
        0 < id < tm.next ==> (#[trigger] tm.status(id) == TransactionStatus::Active)
            == tm.active.contains(id)
    &&& forall|id: u64| #[trigger] tm.active.contains(id) ==> id != 0 && tm.clog.contains_key(id)
    &&& tm.next > 0
    &&& forall|id: u64| id >= tm.next ==> !#[trigger] tm.clog.contains_key(id)
}

/// The transaction is active, and whatever had settled when it began has settled.
pub open spec fn running(txn: Transaction, tm: TmView) -> bool {
    &&& 0 < txn.txn_id < tm.next
    &&& tm.active.contains(txn.txn_id)
    &&& txn.snapshot.xmin <= txn.snapshot.xmax <= tm.next
    &&& forall|id: u64| #[trigger]
        txn.snapshot.had_settled(id) ==> id == 0 || !tm.active.contains(id)
}

/// The database is in order: its transactions, and what they left behind.
pub open spec fn orderly<K: Key, V: Value>(e: Engine<K, V>) -> bool {
    &&& e.wf()
    &&& sound(e.tm())
    &&& tidy::<K>(e.index.parts(), e.tm())
}

/// The transaction is one of the database's that has not ended.
pub open spec fn open_in<K: Key, V: Value>(txn: Transaction, e: Engine<K, V>) -> bool {
    &&& running(txn, e.tm())
    &&& sees_one::<K>(e.index.parts(), txn, e.tm())
}

/// An active transaction has the status of one.
pub proof fn lemma_running(txn: Transaction, tm: TmView)
    requires
        sound(tm),
        running(txn, tm),
    ensures
        tm.status(txn.txn_id) == TransactionStatus::Active,
        !txn.snapshot.had_settled(txn.txn_id),
        forall|id: u64| #[trigger]
            txn.snapshot.had_settled(id) ==> id < tm.next && tm.status(id)
                != TransactionStatus::Active,
{
    assert forall|id: u64| #[trigger] txn.snapshot.had_settled(id) implies id < tm.next
        && tm.status(id) != TransactionStatus::Active by {
        if id != 0 {
            assert(!tm.active.contains(id));
        }
    }
}

/// Two transactions that run at once do not see each other.
proof fn lemma_apart(u: Transaction, txn: Transaction, tm: TmView)
    requires
        sound(tm),
        running(u, tm),
        running(txn, tm),
        u.txn_id != txn.txn_id,
    ensures
        !u.snapshot.committed(txn.txn_id, tm),
        !u.sees(txn.txn_id, 0, tm),
{
    lemma_running(txn, tm);
    lemma_running(u, tm);
}

/// What a transaction may see of one key is one version at most.
pub proof fn lemma_sole<K: Key>(rows: Seq<Version>, k: Seq<u8>, txn: Transaction, tm: TmView)
    requires
        rows_comparable::<K>(rows),
        K::accepts(k),
        pairwise(rows, not_both::<K>(txn, tm)),
    ensures
        sole::<K>(rows, k, txn, tm),
{
    let f = not_both::<K>(txn, tm);
    assert forall|i: int, j: int|
        0 <= i < rows.len() && 0 <= j < rows.len() && #[trigger] shows::<K>(rows[i], k, txn, tm)
            && #[trigger] shows::<K>(rows[j], k, txn, tm) implies i == j by {
        if i != j {
            lemma_le_chain::<K>(rows[i].key, k, rows[j].key);
            lemma_le_chain::<K>(rows[j].key, k, rows[i].key);
            assert(f(rows[i], rows[j]));
        }
    }
}

/// The keys of the rows can be compared.
pub open spec fn rows_comparable<K: Key>(rows: Seq<Version>) -> bool {
    forall|i: int| 0 <= i < rows.len() ==> K::accepts((#[trigger] rows[i]).key)
}

/// Those of an index can.
pub proof fn lemma_comparable<K: Key, V: Value>(t: BTreeIndex<K, V>)
    requires
        t.wf(),
    ensures
        rows_comparable::<K>(all_rows(t.parts())),
{
    let rows = all_rows(t.parts());
    assert forall|i: int| 0 <= i < rows.len() implies K::accepts((#[trigger] rows[i]).key) by {
        lemma_row_typed(t, i);
    }
}

/// The rows of a leaf are among all rows.
pub proof fn lemma_issued_leaf(parts: Seq<Part>, tm: TmView, i: int)
    requires
        issued(all_rows(parts), tm),
        0 <= i < parts.len(),
    ensures
        issued(parts[i].rows, tm),
{
    let rows = parts[i].rows;
    assert forall|j: int| 0 <= j < rows.len() implies (#[trigger] rows[j]).xmin < tm.next
        && rows[j].xmax < tm.next by {
        lemma_row_at(parts, i, j);
        let x = row_count(parts, i) + j;
        assert(all_rows(parts)[x] == rows[j]);
    }
}

/// A row more that agrees with the rows.
proof fn lemma_pairs_insert(
    rows: Seq<Version>,
    at: int,
    new: Version,
    f: spec_fn(Version, Version) -> bool,
)
    requires
        pairwise(rows, f),
        agrees(rows, new, f),
        0 <= at <= rows.len(),
    ensures
        pairwise(rows.insert(at, new), f),
        forall|i: int|
            0 <= i < rows.insert(at, new).len() ==> among(
                rows,
                new,
                #[trigger] rows.insert(at, new)[i],
            ),
{
    let out = rows.insert(at, new);
    assert forall|i: int| 0 <= i < out.len() implies #[trigger] out[i] == (if i < at {
        rows[i]
    } else if i == at {
        new
    } else {
        rows[i - 1]
    }) by {}
    assert forall|i: int, j: int|
        #![trigger out[i], out[j]]
        0 <= i < out.len() && 0 <= j < out.len() && i != j implies f(out[i], out[j]) by {}
    assert forall|i: int| 0 <= i < out.len() implies among(rows, new, #[trigger] out[i]) by {
        if i != at {
            let a = if i < at {
                i
            } else {
                i - 1
            };
            assert(rows[a] == out[i]);
        }
    }
}

/// Some rows in the midst of others gave way to some of them and perhaps a new one.
proof fn lemma_pairs_around(
    a: Seq<Version>,
    rows: Seq<Version>,
    c: Seq<Version>,
    out: Seq<Version>,
    new: Version,
    f: spec_fn(Version, Version) -> bool,
)
    requires
        pairwise(a + rows + c, f),
        pairwise(out, f),
        forall|i: int|
            0 <= i < out.len() ==> rows.contains(#[trigger] out[i]) || out[i] == new && agrees(
                a + rows + c,
                new,
                f,
            ),
    ensures
        pairwise(a + out + c, f),
        forall|i: int|
            0 <= i < (a + out + c).len() ==> among(a + rows + c, new, #[trigger] (a + out + c)[i]),
{
    let all = a + rows + c;
    let after = a + out + c;
    let n = a.len() as int;
    let m = rows.len() as int;
    let o = out.len() as int;
    assert forall|i: int, j: int|
        #![trigger after[i], after[j]]
        0 <= i < after.len() && 0 <= j < after.len() && i != j implies f(after[i], after[j]) by {
        // Where a row of the others stood among all rows.
        let x = if i < n {
            i
        } else {
            i - o + m
        };
        let y = if j < n {
            j
        } else {
            j - o + m
        };
        let i_out = n <= i < n + o;
        let j_out = n <= j < n + o;
        if !i_out {
            assert(after[i] == all[x]);
        } else {
            assert(after[i] == out[i - n]);
        }
        if !j_out {
            assert(after[j] == all[y]);
        } else {
            assert(after[j] == out[j - n]);
        }
        if i_out && j_out {
            assert(f(out[i - n], out[j - n]));
        } else if i_out {
            if rows.contains(out[i - n]) {
                let z = choose|z: int| 0 <= z < rows.len() && rows[z] == out[i - n];
                assert(all[n + z] == out[i - n]);
                assert(f(all[n + z], all[y]));
            } else {
                assert(f(new, all[y]));
            }
        } else if j_out {
            if rows.contains(out[j - n]) {
                let z = choose|z: int| 0 <= z < rows.len() && rows[z] == out[j - n];
                assert(all[n + z] == out[j - n]);
                assert(f(all[x], all[n + z]));
            } else {
                assert(f(all[x], new));
            }
        } else {
            assert(f(all[x], all[y]));
        }
    }
    assert forall|i: int| 0 <= i < after.len() implies among(all, new, #[trigger] after[i]) by {
        if i < n {
            assert(after[i] == all[i]);
        } else if i < n + o {
            assert(after[i] == out[i - n]);
            if rows.contains(out[i - n]) {
                let z = choose|z: int| 0 <= z < rows.len() && rows[z] == out[i - n];
                assert(all[n + z] == out[i - n]);
            }
        } else {
            assert(after[i] == all[i - o + m]);
        }
    }
}

/// What becomes of all rows while a version is put into a leaf.
pub proof fn lemma_stage_pairs<K: Key, V: Value>(
    before: Seq<Part>,
    at: int,
    k: Seq<u8>,
    v: Seq<u8>,
    txn_id: u64,
    horizon: u64,
    tm: TmView,
    f: spec_fn(Version, Version) -> bool,
    stage: Seq<Part>,
)
    requires
        can_put::<K, V>(before, at, before[at], k, v),
        pairwise(all_rows(before), f),
        agrees(all_rows(before), Version { key: k, val: v, xmin: txn_id, xmax: 0 }, f),
        put_stage::<K>(before[at], k, v, txn_id, horizon, tm, stage),
    ensures
        pairwise(all_rows(splice(before, at, stage)), f),
        forall|i: int|
            0 <= i < all_rows(splice(before, at, stage)).len() ==> among(
                all_rows(before),
                Version { key: k, val: v, xmin: txn_id, xmax: 0 },
                #[trigger] all_rows(splice(before, at, stage))[i],
            ),
{
    let new = Version { key: k, val: v, xmin: txn_id, xmax: 0 };
    let rows = before[at].rows;
    let kept = kept_rows(rows, horizon, tm);
    let all = all_rows(before);
    let out = all_rows(stage);
    let a = all_rows(before.take(at));
    let c = all_rows(before.skip(at + 1));
    lemma_stage_rows::<K, V>(before, at, before[at], k, v, txn_id, horizon, tm, stage);
    lemma_splice_rows(before, at, stage);
    lemma_around(before, at);
    let n = a.len() as int;
    lemma_pairs_part(all, n, n + rows.len(), f);
    assert(all.subrange(n, n + rows.len()) =~= rows);
    assert(agrees(rows, new, f));
    lemma_pairs_kept(rows, horizon, tm, f);
    if inserted(rows, out, new) {
        let y = choose|y: int| 0 <= y <= rows.len() && out == #[trigger] rows.insert(y, new);
        lemma_pairs_insert(rows, y, new, f);
    } else if inserted(kept, out, new) {
        let y = choose|y: int| 0 <= y <= kept.len() && out == #[trigger] kept.insert(y, new);
        lemma_pairs_insert(kept, y, new, f);
    }
    assert forall|i: int| 0 <= i < out.len() implies rows.contains(#[trigger] out[i]) || out[i]
        == new && agrees(a + rows + c, new, f) by {
        if out == rows {
            assert(rows[i] == out[i]);
        } else if !(out == kept) && inserted(kept, out, new) && kept.contains(out[i]) {
            let z = choose|z: int| 0 <= z < kept.len() && kept[z] == out[i];
            assert(rows.contains(kept[z]));
        }
    }
    lemma_pairs_around(a, rows, c, out, new, f);
}

/// No relation at all.
pub open spec fn any() -> spec_fn(Version, Version) -> bool {
    |x: Version, y: Version| true
}

/// Where the version was not put, the rows are those that there were.
pub proof fn lemma_early_rows<K: Key, V: Value>(
    before: Seq<Part>,
    at: int,
    k: Seq<u8>,
    v: Seq<u8>,
    horizon: u64,
    tm: TmView,
    stage: Seq<Part>,
    new: Version,
)
    requires
        can_put::<K, V>(before, at, before[at], k, v),
        early_stage::<K>(before[at], k, v, horizon, tm, stage),
    ensures
        forall|i: int|
            0 <= i < all_rows(splice(before, at, stage)).len() ==> among(
                all_rows(before),
                new,
                #[trigger] all_rows(splice(before, at, stage))[i],
            ),
{
    let rows = before[at].rows;
    let out = all_rows(stage);
    let a = all_rows(before.take(at));
    let c = all_rows(before.skip(at + 1));
    lemma_stage_rows::<K, V>(before, at, before[at], k, v, 0, horizon, tm, stage);
    lemma_splice_rows(before, at, stage);
    lemma_around(before, at);
    lemma_pairs_kept(rows, horizon, tm, any());
    assert forall|i: int| 0 <= i < out.len() implies rows.contains(#[trigger] out[i]) by {
        if out == rows {
            assert(rows[i] == out[i]);
        }
    }
    lemma_pairs_around(a, rows, c, out, new, any());
}

/// Whatever putting a version came to, also where it failed.
pub proof fn lemma_put_pairs<K: Key, V: Value>(
    before: Seq<Part>,
    at: int,
    k: Seq<u8>,
    v: Seq<u8>,
    txn_id: u64,
    tm: TmView,
    r: Result<(), IndexError>,
    t: BTreeIndex<K, V>,
    f: spec_fn(Version, Version) -> bool,
)
    requires
        can_put::<K, V>(before, at, before[at], k, v),
        pairwise(all_rows(before), f),
        agrees(all_rows(before), Version { key: k, val: v, xmin: txn_id, xmax: 0 }, f),
        put_outcome(before, at, before[at], k, v, txn_id, tm, r, t) || t.parts() == before,
    ensures
        pairwise(all_rows(t.parts()), f),
        forall|i: int|
            0 <= i < all_rows(t.parts()).len() ==> among(
                all_rows(before),
                Version { key: k, val: v, xmin: txn_id, xmax: 0 },
                #[trigger] all_rows(t.parts())[i],
            ),
{
    if t.parts() == before {
        let rows = all_rows(before);
        assert forall|i: int| 0 <= i < rows.len() implies among(
            rows,
            Version { key: k, val: v, xmin: txn_id, xmax: 0 },
            #[trigger] rows[i],
        ) by {}
    } else {
        let p = before[at];
        let h = tm.global_xmin();
        let out = placed::<K>(p, k, v, txn_id, h, tm).0;
        assert(put_stage::<K>(p, k, v, txn_id, h, tm, out));
        let stage = if t.parts() == splice(before, at, out) {
            out
        } else {
            choose|stage: Seq<Part>|
                put_stage::<K>(p, k, v, txn_id, h, tm, stage) && t.parts() == #[trigger] splice(
                    before,
                    at,
                    stage,
                )
        };
        lemma_stage_pairs::<K, V>(before, at, k, v, txn_id, h, tm, f, stage);
    }
}

/// Rows among rows of transactions that have begun, and a new one of such.
pub proof fn lemma_issued_among(all: Seq<Version>, new: Version, out: Seq<Version>, tm: TmView)
    requires
        issued(all, tm),
        new.xmin < tm.next,
        new.xmax < tm.next,
        forall|i: int| 0 <= i < out.len() ==> among(all, new, #[trigger] out[i]),
    ensures
        issued(out, tm),
{
    assert forall|i: int| 0 <= i < out.len() implies (#[trigger] out[i]).xmin < tm.next
        && out[i].xmax < tm.next by {
        if all.contains(out[i]) {
            let z = choose|z: int| 0 <= z < all.len() && all[z] == out[i];
            assert(all[z].xmin < tm.next);
        }
    }
}

/// Where nothing forbids to insert a key, every version of it is gone for the one who
/// inserts, and he sees none.
pub proof fn lemma_insertable<K: Key>(
    rows: Seq<Version>,
    k: Seq<u8>,
    v: Seq<u8>,
    txn: Transaction,
    tm: TmView,
    i: int,
)
    requires
        sound(tm),
        running(txn, tm),
        0 <= i <= rows.len(),
        first_conflict::<K>(rows, k, txn, tm, i) is None,
    ensures
        ({
            let new = Version { key: k, val: v, xmin: txn.txn_id, xmax: 0 };
            forall|a: int|
                i <= a < rows.len() && key_same::<K>((#[trigger] rows[a]).key, k) ==> one_lives(
                    rows[a],
                    new,
                    tm,
                ) && !txn.sees(rows[a].xmin, rows[a].xmax, tm)
        }),
    decreases rows.len() - i,
{
    if i < rows.len() {
        lemma_insertable::<K>(rows, k, v, txn, tm, i + 1);
        if key_same::<K>(rows[i].key, k) {
            let r = rows[i];
            lemma_running(txn, tm);
            assert(insert_conflict(r, txn, tm) is None);
            if r.xmin != 0 && txn.snapshot.had_settled(r.xmin) {
                assert(tm.status(r.xmin) != TransactionStatus::Active);
            }
            if r.xmax != 0 && txn.snapshot.had_settled(r.xmax) {
                assert(tm.status(r.xmax) != TransactionStatus::Active);
            }
        }
    }
}

/// A version that the reader does not see goes with any others.
proof fn lemma_unseen_agrees<K: Key>(rows: Seq<Version>, new: Version, u: Transaction, tm: TmView)
    requires
        !u.sees(new.xmin, new.xmax, tm),
    ensures
        agrees(rows, new, not_both::<K>(u, tm)),
{
}

/// Equality of keys goes both ways.
pub proof fn lemma_agrees_sym<K: Key>(rows: Seq<Version>, new: Version, tm: TmView)
    requires
        forall|a: int|
            0 <= a < rows.len() && key_same::<K>((#[trigger] rows[a]).key, new.key) ==> one_lives(
                rows[a],
                new,
                tm,
            ),
    ensures
        agrees(rows, new, lives_apart::<K>(tm)),
{
    let f = lives_apart::<K>(tm);
    assert forall|i: int| 0 <= i < rows.len() implies f(#[trigger] rows[i], new) && f(
        new,
        rows[i],
    ) by {
        if key_same::<K>(new.key, rows[i].key) {
            assert(key_same::<K>(rows[i].key, new.key));
        }
    }
}

/// What a step within a transaction leaves as it was: the database in order, the
/// transaction open, and every other one that is open.
pub open spec fn undisturbed<K: Key, V: Value>(
    a: Engine<K, V>,
    txn: Transaction,
    b: Engine<K, V>,
) -> bool {
    &&& orderly(b)
    &&& open_in(txn, b)
    &&& forall|u: Transaction| #[trigger]
        open_in(u, a) && u.txn_id != txn.txn_id ==> open_in(u, b)
}

/// An insertion keeps the database in order and all transactions open, whether it succeeds
/// or not. Where it succeeds, the transaction reads what it inserted.
pub proof fn law_insert_in<K: Key, V: Value>(
    a: Engine<K, V>,
    txn: Transaction,
    k: Seq<u8>,
    v: Seq<u8>,
    r: Result<(), EngineError>,
    b: Engine<K, V>,
)
    requires
        orderly(a),
        open_in(txn, a),
        canonical::<K>(k),
        canonical::<V>(v),
        inserted_in(a, txn, k, v, r, b),
    ensures
        undisturbed(a, txn, b),
        r is Ok ==> lookup::<K>(b.index.parts(), k, txn, b.tm()) == Some(v),
        r is Ok ==> all_rows(b.index.parts()).contains(
            Version { key: k, val: v, xmin: txn.txn_id, xmax: 0 },
        ),
{
    let tm = a.tm();
    let before = a.index.parts();
    let ri = choose|ri: Result<(), IndexError>|
        r == crate::engine::ops::mapped(ri) && #[trigger] insert_outcome(
            a.index,
            k,
            v,
            txn,
            tm,
            ri,
            b.index,
        );
    let i = cover::<K>(before, k);
    let rows = all_rows(before);
    let new = Version { key: k, val: v, xmin: txn.txn_id, xmax: 0 };
    if b.index.parts() != before {
        let f = lives_apart::<K>(tm);
        let g = not_both::<K>(txn, tm);
        let id = txn.txn_id;
        lemma_can_put(a.index, k, v);
        lemma_insertable::<K>(rows, k, v, txn, tm, 0);
        lemma_agrees_sym::<K>(rows, new, tm);
        lemma_put_pairs(before, i, k, v, id, tm, ri, b.index, f);
        lemma_issued_among(rows, new, all_rows(b.index.parts()), tm);
        assert(agrees(rows, new, g));
        lemma_put_pairs(before, i, k, v, id, tm, ri, b.index, g);
        assert forall|u: Transaction| #[trigger]
            open_in(u, a) && u.txn_id != txn.txn_id implies open_in(u, b) by {
            lemma_apart(u, txn, tm);
            lemma_unseen_agrees::<K>(rows, new, u, tm);
            lemma_put_pairs(before, i, k, v, id, tm, ri, b.index, not_both::<K>(u, tm));
        }
    }
    if r is Ok {
        lemma_running(txn, tm);
        crate::index::laws::law_insert_is_read(a.index, k, v, txn, tm, b.index);
    }
}

/// Every version of the key is gone for the transaction, or was never there.
pub open spec fn all_gone<K: Key>(rows: Seq<Version>, k: Seq<u8>, txn_id: u64, tm: TmView) -> bool {
    forall|i: int|
        0 <= i < rows.len() && key_same::<K>((#[trigger] rows[i]).key, k) ==> {
            ||| tm.status(rows[i].xmin) == TransactionStatus::Aborted
            ||| rows[i].xmax != 0 && (rows[i].xmax == txn_id || tm.status(rows[i].xmax)
                == TransactionStatus::Committed)
        }
}

/// The version that a transaction may delete has not been deleted, and all others of its
/// key are gone.
pub proof fn lemma_deletable<K: Key>(
    rows: Seq<Version>,
    s: int,
    k: Seq<u8>,
    txn: Transaction,
    tm: TmView,
)
    requires
        sound(tm),
        running(txn, tm),
        rows_comparable::<K>(rows),
        K::accepts(k),
        pairwise(rows, lives_apart::<K>(tm)),
        0 <= s < rows.len(),
        shows::<K>(rows[s], k, txn, tm),
        write_conflict(rows[s].xmax, txn, tm) is None,
    ensures
        rows[s].xmax == 0 || tm.status(rows[s].xmax) == TransactionStatus::Aborted,
        ({
            let out = rows.update(s, Version { xmax: txn.txn_id, ..rows[s] });
            &&& all_gone::<K>(out, k, txn.txn_id, tm)
            &&& pairwise(out, lives_apart::<K>(tm))
        }),
{
    let out = rows.update(s, Version { xmax: txn.txn_id, ..rows[s] });
    let f = lives_apart::<K>(tm);
    let d = rows[s];
    lemma_running(txn, tm);
    if d.xmin != txn.txn_id && d.xmin != 0 {
        assert(txn.snapshot.had_settled(d.xmin));
        assert(tm.status(d.xmin) != TransactionStatus::Active);
    }
    assert forall|i: int|
        0 <= i < rows.len() && i != s && key_same::<K>((#[trigger] rows[i]).key, d.key) implies {
        ||| tm.status(rows[i].xmin) == TransactionStatus::Aborted
        ||| rows[i].xmax != 0 && (rows[i].xmax == txn.txn_id || tm.status(rows[i].xmax)
            == TransactionStatus::Committed)
    } by {
        assert(f(rows[i], rows[s]));
    }
    assert forall|i: int| 0 <= i < out.len() && key_same::<K>((#[trigger] out[i]).key, k) implies {
        ||| tm.status(out[i].xmin) == TransactionStatus::Aborted
        ||| out[i].xmax != 0 && (out[i].xmax == txn.txn_id || tm.status(out[i].xmax)
            == TransactionStatus::Committed)
    } by {
        if i != s {
            assert(out[i] == rows[i]);
            lemma_le_chain::<K>(rows[i].key, k, d.key);
            lemma_le_chain::<K>(d.key, k, rows[i].key);
        }
    }
    assert forall|i: int, j: int|
        #![trigger out[i], out[j]]
        0 <= i < out.len() && 0 <= j < out.len() && i != j implies f(out[i], out[j]) by {
        assert(f(rows[i], rows[j]));
        if i != s {
            assert(out[i] == rows[i]);
        }
        if j != s {
            assert(out[j] == rows[j]);
        }
        if key_same::<K>(out[i].key, out[j].key) {
            if j == s {
                assert(key_same::<K>(rows[i].key, d.key));
            } else if i == s {
                assert(key_same::<K>(rows[j].key, d.key));
            }
        }
    }
}

/// To another transaction that runs, the deleted version is as it was; the one who deleted
/// it does not see it any more.
proof fn lemma_deleted_sees<K: Key>(
    rows: Seq<Version>,
    s: int,
    u: Transaction,
    txn: Transaction,
    tm: TmView,
)
    requires
        sound(tm),
        running(txn, tm),
        running(u, tm),
        pairwise(rows, not_both::<K>(u, tm)),
        0 <= s < rows.len(),
        rows[s].xmax == 0 || tm.status(rows[s].xmax) == TransactionStatus::Aborted,
    ensures
        pairwise(
            rows.update(s, Version { xmax: txn.txn_id, ..rows[s] }),
            not_both::<K>(u, tm),
        ),
{
    let out = rows.update(s, Version { xmax: txn.txn_id, ..rows[s] });
    let f = not_both::<K>(u, tm);
    lemma_running(u, tm);
    if u.txn_id != txn.txn_id {
        lemma_apart(u, txn, tm);
    }
    assert(u.sees(out[s].xmin, out[s].xmax, tm) ==> u.sees(rows[s].xmin, rows[s].xmax, tm));
    assert forall|i: int, j: int|
        #![trigger out[i], out[j]]
        0 <= i < out.len() && 0 <= j < out.len() && i != j implies f(out[i], out[j]) by {
        assert(f(rows[i], rows[j]));
        if i != s {
            assert(out[i] == rows[i]);
        }
        if j != s {
            assert(out[j] == rows[j]);
        }
    }
}

/// A deletion keeps the database in order and all transactions open, whether it succeeds or
/// not. Where it succeeds, the transaction does not read the key any more.
pub proof fn law_delete_in<K: Key, V: Value>(
    a: Engine<K, V>,
    txn: Transaction,
    k: Seq<u8>,
    r: Result<(), EngineError>,
    b: Engine<K, V>,
)
    requires
        orderly(a),
        open_in(txn, a),
        canonical::<K>(k),
        deleted_in(a, txn, k, r, b),
    ensures
        undisturbed(a, txn, b),
        r is Ok ==> lookup::<K>(b.index.parts(), k, txn, b.tm()) is None,
        r is Ok ==> all_gone::<K>(all_rows(b.index.parts()), k, txn.txn_id, b.tm()),
{
    let tm = a.tm();
    let before = a.index.parts();
    let ri = choose|ri: Result<(), IndexError>|
        r == crate::engine::ops::mapped(ri) && #[trigger] delete_outcome(
            a.index,
            k,
            txn,
            tm,
            ri,
            b.index,
        );
    let rows = all_rows(before);
    lemma_comparable(a.index);
    lemma_first_visible::<K>(rows, k, txn, tm, 0);
    if b.index.parts() != before || r is Ok {
        let x = first_visible::<K>(rows, k, txn, tm, 0)->0;
        let out = rows.update(x, Version { xmax: txn.txn_id, ..rows[x] });
        lemma_marked(before, x, txn.txn_id);
        assert(all_rows(b.index.parts()) == out);
        lemma_deletable::<K>(rows, x, k, txn, tm);
        lemma_deleted_sees::<K>(rows, x, txn, txn, tm);
        assert forall|i: int| 0 <= i < out.len() implies (#[trigger] out[i]).xmin < tm.next
            && out[i].xmax < tm.next by {
            assert(rows[i].xmin < tm.next);
        }
        assert forall|u: Transaction| #[trigger]
            open_in(u, a) && u.txn_id != txn.txn_id implies open_in(u, b) by {
            lemma_deleted_sees::<K>(rows, x, u, txn, tm);
        }
    }
    if r is Ok {
        lemma_running(txn, tm);
        lemma_sole::<K>(rows, k, txn, tm);
        crate::index::laws::law_delete_is_read(a.index, k, txn, tm, b.index);
    }
}

/// The new version of an update goes with what the update left of the others.
pub proof fn lemma_updatable<K: Key>(
    rows: Seq<Version>,
    k: Seq<u8>,
    v: Seq<u8>,
    txn: Transaction,
    tm: TmView,
)
    requires
        sound(tm),
        running(txn, tm),
        all_gone::<K>(rows, k, txn.txn_id, tm),
    ensures
        agrees(
            rows,
            Version { key: k, val: v, xmin: txn.txn_id, xmax: 0 },
            lives_apart::<K>(tm),
        ),
{
    let new = Version { key: k, val: v, xmin: txn.txn_id, xmax: 0 };
    lemma_running(txn, tm);
    lemma_agrees_sym::<K>(rows, new, tm);
}

/// An update keeps the database in order and all transactions open, whether it succeeds or
/// not. Where it succeeds, the transaction reads the new value.
#[verifier::rlimit(40)]
pub proof fn law_update_in<K: Key, V: Value>(
    a: Engine<K, V>,
    txn: Transaction,
    k: Seq<u8>,
    v: Seq<u8>,
    r: Result<(), EngineError>,
    b: Engine<K, V>,
)
    requires
        orderly(a),
        open_in(txn, a),
        canonical::<K>(k),
        canonical::<V>(v),
        updated_in(a, txn, k, v, r, b),
    ensures
        undisturbed(a, txn, b),
        r is Ok ==> lookup::<K>(b.index.parts(), k, txn, b.tm()) == Some(v),
        r is Ok ==> all_rows(b.index.parts()).contains(
            Version { key: k, val: v, xmin: txn.txn_id, xmax: 0 },
        ),
{
    let tm = a.tm();
    lemma_running(txn, tm);
    let before = a.index.parts();
    let ri = choose|ri: Result<(), IndexError>|
        r == crate::engine::ops::mapped(ri) && #[trigger] update_outcome(
            a.index,
            k,
            v,
            txn,
            tm,
            ri,
            b.index,
        );
    let i = cover::<K>(before, k);
    let rows = all_rows(before);
    lemma_comparable(a.index);
    lemma_sole::<K>(rows, k, txn, tm);
    if b.index.parts() != before {
        lemma_can_replace(a.index, k, v, txn, tm);
        let x = first_visible::<K>(rows, k, txn, tm, 0)->0;
        let id = txn.txn_id;
        let q = marked(before, x, id);
        let out = rows.update(x, Version { xmax: id, ..rows[x] });
        let new = Version { key: k, val: v, xmin: id, xmax: 0 };
        let f = lives_apart::<K>(tm);
        let g = not_both::<K>(txn, tm);
        lemma_marked(before, x, id);
        lemma_deletable::<K>(rows, x, k, txn, tm);
        lemma_updatable::<K>(out, k, v, txn, tm);
        lemma_put_pairs(q, i, k, v, id, tm, ri, b.index, f);
        assert forall|n: int| 0 <= n < out.len() implies (#[trigger] out[n]).xmin < tm.next
            && out[n].xmax < tm.next by {
            assert(rows[n].xmin < tm.next);
        }
        lemma_issued_among(out, new, all_rows(b.index.parts()), tm);
        lemma_deleted_sees::<K>(rows, x, txn, txn, tm);
        crate::index::laws::lemma_deleted_own::<K>(rows, x, k, txn, tm);
        lemma_unshown_agrees::<K>(out, new, txn, tm);
        lemma_put_pairs(q, i, k, v, id, tm, ri, b.index, g);
        assert forall|u: Transaction| #[trigger]
            open_in(u, a) && u.txn_id != txn.txn_id implies open_in(u, b) by {
            lemma_apart(u, txn, tm);
            lemma_deleted_sees::<K>(rows, x, u, txn, tm);
            lemma_unseen_agrees::<K>(out, new, u, tm);
            lemma_put_pairs(q, i, k, v, id, tm, ri, b.index, not_both::<K>(u, tm));
        }
    }
    if r is Ok {
        crate::index::laws::law_update_is_read(a.index, k, v, txn, tm, b.index);
    }
}

/// A version goes with rows of its key that the transaction does not see.
proof fn lemma_unshown_agrees<K: Key>(
    rows: Seq<Version>,
    new: Version,
    txn: Transaction,
    tm: TmView,
)
    requires
        forall|i: int|
            0 <= i < rows.len() ==> !shows::<K>(#[trigger] rows[i], new.key, txn, tm),
    ensures
        agrees(rows, new, not_both::<K>(txn, tm)),
{
    let g = not_both::<K>(txn, tm);
    assert forall|i: int| 0 <= i < rows.len() implies g(#[trigger] rows[i], new) && g(
        new,
        rows[i],
    ) by {
        assert(!shows::<K>(rows[i], new.key, txn, tm));
    }
}

/// A read keeps everything.
pub proof fn law_read_in<K: Key, V: Value>(
    a: Engine<K, V>,
    txn: Transaction,
    k: Seq<u8>,
    r: Result<Option<Vec<u8>>, EngineError>,
    b: Engine<K, V>,
)
    requires
        orderly(a),
        read_in(a, txn, k, r, b),
    ensures
        orderly(b),
        forall|u: Transaction| #[trigger] open_in(u, a) ==> open_in(u, b),
{
}

/// A sweep leaves versions in order that are.
pub proof fn lemma_swept_tidy<K: Key>(parts: Seq<Part>, n: int, tm: TmView, bt: TmView)
    requires
        tidy::<K>(parts, tm),
        bt.next == tm.next,
        forall|id: u64| #[trigger] bt.status(id) == tm.status(id),
    ensures
        tidy::<K>(swept(parts, n, tm.global_xmin(), tm), bt),
{
    let h = tm.global_xmin();
    let out = all_rows(swept(parts, n, h, tm));
    let all = all_rows(parts);
    lemma_swept_pairs(parts, n, h, tm, lives_apart::<K>(tm));
    assert(forall|x: Version, y: Version| one_lives(x, y, tm) == one_lives(x, y, bt));
    assert(lives_apart::<K>(tm) =~= lives_apart::<K>(bt));
    assert forall|j: int| 0 <= j < out.len() implies (#[trigger] out[j]).xmin < bt.next
        && out[j].xmax < bt.next by {
        assert(all.contains(out[j]));
        let z = choose|z: int| 0 <= z < all.len() && all[z] == out[j];
        assert(all[z].xmin < tm.next);
    }
}

/// A sweep keeps the database in order and all transactions open, also one that fails.
pub proof fn law_vacuum<K: Key, V: Value>(
    a: Engine<K, V>,
    r: Result<usize, IndexError>,
    b: Engine<K, V>,
)
    requires
        orderly(a),
        b.wf(),
        vacuum_outcome(a.index, a.tm(), r, b.index, b.tm()),
    ensures
        orderly(b),
        forall|u: Transaction| #[trigger] open_in(u, a) ==> open_in(u, b),
{
    let tm = a.tm();
    let parts = a.index.parts();
    let h = tm.global_xmin();
    let n = match r {
        Ok(_) => parts.len() as int,
        Err(_) => choose|n: int|
            0 <= n <= parts.len() && b.index.parts() == #[trigger] swept(parts, n, h, tm),
    };
    assert(b.index.parts() == swept(parts, n, h, tm));
    assert forall|id: u64| #[trigger] b.tm().status(id) == tm.status(id) by {}
    lemma_swept_tidy::<K>(parts, n, tm, b.tm());
    assert forall|u: Transaction| #[trigger] open_in(u, a) implies open_in(u, b) by {
        lemma_swept_pairs(parts, n, h, tm, not_both::<K>(u, tm));
        assert forall|xmin: u64, xmax: u64| #[trigger] u.sees(xmin, xmax, b.tm()) == u.sees(
            xmin,
            xmax,
            tm,
        ) by {}
        assert(not_both::<K>(u, tm) =~= not_both::<K>(u, b.tm()));
    }
}

/// The relation between any two rows outlives a sweep.
proof fn lemma_swept_pairs(
    parts: Seq<Part>,
    n: int,
    h: u64,
    tm: TmView,
    f: spec_fn(Version, Version) -> bool,
)
    requires
        pairwise(all_rows(parts), f),
    ensures
        pairwise(all_rows(swept(parts, n, h, tm)), f),
        forall|i: int|
            0 <= i < all_rows(swept(parts, n, h, tm)).len() ==> all_rows(parts).contains(
                #[trigger] all_rows(swept(parts, n, h, tm))[i],
            ),
    decreases parts.len(),
{
    let out = swept(parts, n, h, tm);
    let all = all_rows(parts);
    if parts.len() > 0 {
        let init = parts.drop_last();
        let last = parts.last().rows;
        let a = all_rows(init);
        let kept = out.last().rows;
        lemma_pairs_part(all, 0, a.len() as int, f);
        assert(all.subrange(0, a.len() as int) =~= a);
        lemma_swept_pairs(init, n, h, tm, f);
        assert(out.drop_last() =~= swept(init, n, h, tm));
        let b = all_rows(out.drop_last());
        lemma_pairs_part(all, a.len() as int, all.len() as int, f);
        assert(all.subrange(a.len() as int, all.len() as int) =~= last);
        lemma_pairs_kept(last, h, tm, f);
        let none = Seq::<Version>::empty();
        let dummy = Version { key: Seq::empty(), val: Seq::empty(), xmin: 0, xmax: 0 };
        assert(a + last + none =~= all);
        assert forall|i: int| 0 <= i < kept.len() implies last.contains(#[trigger] kept[i]) by {
            if kept == last {
                assert(last[i] == kept[i]);
            }
        }
        lemma_pairs_around(a, last, none, kept, dummy, f);
        let mid = a + kept + none;
        assert(none + a + kept =~= mid);
        assert forall|i: int| 0 <= i < b.len() implies a.contains(#[trigger] b[i]) by {}
        lemma_pairs_around(none, a, kept, b, dummy, f);
        assert(none + b + kept =~= all_rows(out));
        assert forall|i: int| 0 <= i < all_rows(out).len() implies all.contains(
            #[trigger] all_rows(out)[i],
        ) by {
            if i < b.len() {
                assert(all_rows(out)[i] == b[i]);
                let z = choose|z: int| 0 <= z < a.len() && a[z] == b[i];
                assert(all[z] == b[i]);
            } else {
                assert(all_rows(out)[i] == kept[i - b.len()]);
                let z = choose|z: int| 0 <= z < last.len() && last[z] == kept[i - b.len()];
                assert(all[a.len() + z] == last[z]);
            }
        }
    }
}

/// A new database is in order.
pub proof fn law_new_database<K: Key, V: Value>(e: Engine<K, V>)
    requires
        e.wf(),
        newly_created(e.index),
        e.tm().next == 1,
        e.tm().active.len() == 0,
        e.tm().clog.dom() =~= Set::empty(),
    ensures
        orderly(e),
{
    lemma_one_leaf(Part { low: None, high: None, rows: Seq::empty() });
}

/// Beginning a transaction changes no status.
pub proof fn lemma_begun_status(tm: TmView)
    requires
        sound(tm),
        tm.next < u64::MAX,
    ensures
        sound(tm.begun()),
        forall|id: u64| #[trigger] tm.begun().status(id) == tm.status(id),
        tm.begun().active.contains(tm.next),
        forall|id: u64|
            id != tm.next ==> (#[trigger] tm.begun().active.contains(id) == tm.active.contains(id)),
{
    let b = tm.begun();
    crate::transaction_manager::law_begin(tm);
    assert forall|id: u64| id != tm.next implies (#[trigger] b.active.contains(id)
        == tm.active.contains(id)) by {
        if tm.active.contains(id) {
            let i = choose|i: int| 0 <= i < tm.active.len() && tm.active[i] == id;
            assert(b.active[i] == id);
        }
        if b.active.contains(id) {
            let i = choose|i: int| 0 <= i < b.active.len() && b.active[i] == id;
            assert(tm.active[i] == id);
        }
    }
    assert(tm.active.len() > 0 ==> tm.active[0] < tm.next);
    assert(b.global_xmin() == tm.global_xmin());
    assert(!tm.clog.contains_key(tm.next));
    assert forall|id: u64| #[trigger] b.status(id) == tm.status(id) by {}
    assert forall|id: u64| #[trigger] b.active.contains(id) implies id != 0 && b.clog.contains_key(
        id,
    ) by {
        if id != tm.next {
            assert(tm.active.contains(id));
        }
    }
    assert forall|id: u64| id >= b.next implies !#[trigger] b.clog.contains_key(id) by {
        assert(!tm.clog.contains_key(id));
    }
    assert forall|id: u64| 0 < id < b.next implies (#[trigger] b.status(id)
        == TransactionStatus::Active) == b.active.contains(id) by {
        assert(b.status(id) == tm.status(id));
        if id == tm.next {
            assert(b.clog.contains_key(id));
        }
    }
}

/// What a transaction sees depends on who aborted, among those that had settled and itself.
proof fn lemma_same_sight<K: Key>(u: Transaction, before: TmView, after: TmView)
    requires
        forall|id: u64| #[trigger]
            u.snapshot.had_settled(id) ==> after.is_aborted(id) == before.is_aborted(id),
        after.is_aborted(u.txn_id) == before.is_aborted(u.txn_id),
    ensures
        not_both::<K>(u, after) == not_both::<K>(u, before),
        forall|xmin: u64, xmax: u64| #[trigger]
            u.sees(xmin, xmax, after) == u.sees(xmin, xmax, before),
{
    assert forall|id: u64| #[trigger] u.snapshot.committed(id, after) == u.snapshot.committed(
        id,
        before,
    ) by {
        if u.snapshot.had_settled(id) {
            assert(after.is_aborted(id) == before.is_aborted(id));
        }
    }
    assert(not_both::<K>(u, after) =~= not_both::<K>(u, before));
}

/// The one that begins last sees one version of each key at most.
proof fn lemma_newest_sees_one<K: Key>(parts: Seq<Part>, txn: Transaction, tm: TmView, m: TmView)
    requires
        sound(m),
        tidy::<K>(parts, m),
        issued(all_rows(parts), tm),
        txn.txn_id == tm.next,
        m.next == tm.next + 1,
        txn.snapshot.xmin == m.active[0],
        txn.snapshot.xmax == m.next,
        txn.snapshot.active@ == m.active,
        m.active.contains(txn.txn_id),
    ensures
        sees_one::<K>(parts, txn, m),
{
    let f = lives_apart::<K>(m);
    let g = not_both::<K>(txn, m);
    let rows = all_rows(parts);
    assert forall|a: int, b: int|
        #![trigger rows[a], rows[b]]
        0 <= a < rows.len() && 0 <= b < rows.len() && a != b implies g(rows[a], rows[b]) by {
        let x = rows[a];
        let y = rows[b];
        assert(f(x, y));
        assert(x.xmin < tm.next && x.xmax < tm.next && y.xmin < tm.next && y.xmax < tm.next);
        if x.xmax != 0 && m.status(x.xmax) == TransactionStatus::Committed {
            assert(!m.active.contains(x.xmax));
        }
        if y.xmax != 0 && m.status(y.xmax) == TransactionStatus::Committed {
            assert(!m.active.contains(y.xmax));
        }
    }
}

/// Beginning a transaction leaves versions in order that are.
pub proof fn lemma_begun_tidy<K: Key>(parts: Seq<Part>, tm: TmView)
    requires
        sound(tm),
        tm.next < u64::MAX,
        tidy::<K>(parts, tm),
    ensures
        tidy::<K>(parts, tm.begun()),
{
    let mt = tm.begun();
    lemma_begun_status(tm);
    assert(forall|x: Version, y: Version| one_lives(x, y, mt) == one_lives(x, y, tm));
    assert(lives_apart::<K>(mt) =~= lives_apart::<K>(tm));
    let rows = all_rows(parts);
    assert forall|i: int| 0 <= i < rows.len() implies (#[trigger] rows[i]).xmin < mt.next
        && rows[i].xmax < mt.next by {
        assert(rows[i].xmin < tm.next);
    }
}

/// A transaction that begins is open, and so are those that were.
pub proof fn law_begin_opens<K: Key, V: Value>(a: Engine<K, V>, txn: Transaction, m: Engine<K, V>)
    requires
        orderly(a),
        a.tm().next < u64::MAX,
        begins(a, txn, m),
    ensures
        orderly(m),
        open_in(txn, m),
        forall|u: Transaction| #[trigger] open_in(u, a) ==> open_in(u, m),
        forall|id: u64|
            id < a.tm().next && !a.tm().active.contains(id) ==> #[trigger] txn.snapshot.had_settled(
                id,
            ),
{
    let tm = a.tm();
    let mt = m.tm();
    let parts = a.index.parts();
    lemma_begun_status(tm);
    lemma_begun_tidy::<K>(parts, tm);
    lemma_newest_sees_one::<K>(parts, txn, tm, mt);
    assert(mt.active.len() > 0);
    assert forall|id: u64| #[trigger] txn.snapshot.had_settled(id) implies id == 0
        || !mt.active.contains(id) by {
        if mt.active.contains(id) {
            let i = choose|i: int| 0 <= i < mt.active.len() && mt.active[i] == id;
            assert(mt.active[0] <= mt.active[i]);
        }
    }
    assert(mt.active[0] < mt.next);
    assert forall|u: Transaction| #[trigger] open_in(u, a) implies open_in(u, m) by {
        assert forall|id: u64| #[trigger] u.snapshot.had_settled(id) implies mt.is_aborted(id)
            == tm.is_aborted(id) by {}
        lemma_same_sight::<K>(u, tm, mt);
        assert(mt.active.contains(u.txn_id));
        assert forall|id: u64| #[trigger] u.snapshot.had_settled(id) implies id == 0
            || !mt.active.contains(id) by {
            assert(id == 0 || !tm.active.contains(id));
        }
    }
    assert forall|id: u64|
        id < tm.next && !tm.active.contains(id) implies #[trigger] txn.snapshot.had_settled(id) by {
        assert(!mt.active.contains(id));
    }
}

/// Settling an active transaction changes no other status.
pub proof fn lemma_settled_status(tm: TmView, id: u64, status: TransactionStatus)
    requires
        sound(tm),
        tm.active.contains(id),
        id < tm.next,
        status != TransactionStatus::Active,
    ensures
        sound(tm.settled(id, status)),
        forall|x: u64| x != id ==> #[trigger] tm.settled(id, status).status(x) == tm.status(x),
        tm.settled(id, status).status(id) == status,
        forall|x: u64|
            #[trigger] tm.settled(id, status).active.contains(x) == (tm.active.contains(x) && x
                != id),
{
    let b = tm.settled(id, status);
    crate::transaction_manager::law_settle(tm, id, status);
    assert forall|x: u64| #[trigger] b.active.contains(x) == (tm.active.contains(x) && x
        != id) by {}
    assert(tm.global_xmin() <= b.global_xmin() <= tm.next) by {
        if b.active.len() > 0 {
            assert(b.active.contains(b.active[0]));
            assert(tm.active.contains(b.active[0]));
            let k = choose|k: int| 0 <= k < tm.active.len() && tm.active[k] == b.active[0];
            assert(tm.active[0] <= tm.active[k]);
        } else if tm.active.len() > 0 {
            assert(tm.active[0] < tm.next);
        }
    }
    assert forall|x: u64| x != id implies #[trigger] b.status(x) == tm.status(x) by {
        if x != 0 && !tm.clog.contains_key(x) && x < tm.next {
            assert(!tm.active.contains(x));
            assert(tm.status(x) != TransactionStatus::Active);
        }
    }
    assert forall|x: u64| 0 < x < b.next implies (#[trigger] b.status(x)
        == TransactionStatus::Active) == b.active.contains(x) by {
        if x != id {
            assert(b.status(x) == tm.status(x));
        }
    }
    assert forall|x: u64| #[trigger] b.active.contains(x) implies x != 0 && b.clog.contains_key(
        x,
    ) by {
        assert(tm.active.contains(x));
    }
    assert forall|x: u64| x >= b.next implies !#[trigger] b.clog.contains_key(x) by {
        assert(!tm.clog.contains_key(x));
    }
}

/// The end of a transaction leaves versions in order that are.
pub proof fn lemma_settled_tidy<K: Key>(
    parts: Seq<Part>,
    tm: TmView,
    txn: Transaction,
    status: TransactionStatus,
)
    requires
        sound(tm),
        running(txn, tm),
        status != TransactionStatus::Active,
        tidy::<K>(parts, tm),
    ensures
        tidy::<K>(parts, tm.settled(txn.txn_id, status)),
{
    let bt = tm.settled(txn.txn_id, status);
    lemma_settled_status(tm, txn.txn_id, status);
    lemma_running(txn, tm);
    let f = lives_apart::<K>(tm);
    let g = lives_apart::<K>(bt);
    let rows = all_rows(parts);
    assert forall|x: int, y: int|
        #![trigger rows[x], rows[y]]
        0 <= x < rows.len() && 0 <= y < rows.len() && x != y implies g(rows[x], rows[y]) by {
        assert(f(rows[x], rows[y]));
    }
}

/// The end of a transaction keeps the database in order and the other transactions open.
proof fn lemma_settled_engine<K: Key, V: Value>(
    a: Engine<K, V>,
    txn: Transaction,
    status: TransactionStatus,
    b: Engine<K, V>,
)
    requires
        orderly(a),
        running(txn, a.tm()),
        status != TransactionStatus::Active,
        b.wf(),
        b.index.parts() == a.index.parts(),
        b.tm() == a.tm().settled(txn.txn_id, status),
    ensures
        orderly(b),
        b.tm().status(txn.txn_id) == status,
        forall|id: u64| id != txn.txn_id ==> #[trigger] b.tm().status(id) == a.tm().status(id),
        forall|u: Transaction| #[trigger]
            open_in(u, a) && u.txn_id != txn.txn_id ==> open_in(u, b),
{
    let tm = a.tm();
    let bt = b.tm();
    let parts = a.index.parts();
    let id = txn.txn_id;
    lemma_settled_status(tm, id, status);
    lemma_running(txn, tm);
    lemma_settled_tidy::<K>(parts, tm, txn, status);
    assert forall|u: Transaction| #[trigger] open_in(u, a) && u.txn_id != id implies open_in(
        u,
        b,
    ) by {
        assert forall|x: u64| #[trigger] u.snapshot.had_settled(x) implies bt.is_aborted(x)
            == tm.is_aborted(x) by {
            if x == id {
                assert(!tm.active.contains(x));
            }
        }
        lemma_same_sight::<K>(u, tm, bt);
        assert(bt.active.contains(u.txn_id));
        assert forall|x: u64| #[trigger] u.snapshot.had_settled(x) implies x == 0
            || !bt.active.contains(x) by {
            assert(x == 0 || !tm.active.contains(x));
        }
    }
}

/// A commit keeps the database in order and the other transactions open, also one that
/// fails.
pub proof fn law_commit<K: Key, V: Value>(
    a: Engine<K, V>,
    txn: Transaction,
    r: Result<(), EngineError>,
    b: Engine<K, V>,
)
    requires
        orderly(a),
        running(txn, a.tm()),
        commit_outcome(a, txn, r, b),
    ensures
        orderly(b),
        b.tm().status(txn.txn_id) == (if r is Ok {
            TransactionStatus::Committed
        } else {
            TransactionStatus::Aborted
        }),
        forall|u: Transaction| #[trigger]
            open_in(u, a) && u.txn_id != txn.txn_id ==> open_in(u, b),
{
    let status = if r is Ok {
        TransactionStatus::Committed
    } else {
        TransactionStatus::Aborted
    };
    lemma_settled_engine(a, txn, status, b);
}

/// An abort keeps the database in order and the other transactions open; one that fails
/// leaves the transaction open.
pub proof fn law_abort<K: Key, V: Value>(
    a: Engine<K, V>,
    txn: Transaction,
    r: Result<(), EngineError>,
    b: Engine<K, V>,
)
    requires
        orderly(a),
        running(txn, a.tm()),
        abort_outcome(a, txn, r, b),
    ensures
        orderly(b),
        r is Ok ==> b.tm().status(txn.txn_id) == TransactionStatus::Aborted,
        forall|u: Transaction| #[trigger]
            open_in(u, a) && (r is Err || u.txn_id != txn.txn_id) ==> open_in(u, b),
{
    if r is Ok {
        lemma_settled_engine(a, txn, TransactionStatus::Aborted, b);
    }
}

/// That a transaction wrote does not change what it sees.
pub proof fn law_writer_is_open<K: Key, V: Value>(txn: Transaction, e: Engine<K, V>)
    requires
        open_in(txn, e),
    ensures
        open_in(writer(txn), e),
{
    let w = writer(txn);
    assert forall|id: u64| #[trigger] w.snapshot.had_settled(id) implies id == 0
        || !e.tm().active.contains(id) by {
        assert(txn.snapshot.had_settled(id));
    }
    assert(forall|xmin: u64, xmax: u64|
        w.sees(xmin, xmax, e.tm()) == txn.sees(xmin, xmax, e.tm()));
    assert(not_both::<K>(w, e.tm()) =~= not_both::<K>(txn, e.tm()));
}

/// A version that nobody deleted, of a transaction that had committed, is what an open
/// transaction reads of its key.
proof fn lemma_committed_version<K: Key, V: Value>(
    m: Engine<K, V>,
    u: Transaction,
    k: Seq<u8>,
    v: Seq<u8>,
    id: u64,
)
    requires
        orderly(m),
        open_in(u, m),
        canonical::<K>(k),
        m.tm().status(id) == TransactionStatus::Committed,
        u.snapshot.had_settled(id),
        all_rows(m.index.parts()).contains(Version { key: k, val: v, xmin: id, xmax: 0 }),
    ensures
        lookup::<K>(m.index.parts(), k, u, m.tm()) == Some(v),
{
    let rows = all_rows(m.index.parts());
    let new = Version { key: k, val: v, xmin: id, xmax: 0 };
    let at = choose|at: int| 0 <= at < rows.len() && rows[at] == new;
    lemma_comparable(m.index);
    lemma_sole::<K>(rows, k, u, m.tm());
    K::le_total(k, k);
    assert(shows::<K>(rows[at], k, u, m.tm()));
    assert forall|a: int| 0 <= a < at implies !shows::<K>(
        #[trigger] rows[a],
        k,
        u,
        m.tm(),
    ) by {}
    lemma_seen_only::<K>(rows, at, k, u, m.tm());
}

/// A value that was inserted in a transaction of its own is what a transaction reads that
/// begins afterwards.
pub proof fn law_inserted_is_read<K: Key, V: Value>(
    a: Engine<K, V>,
    txn: Transaction,
    m0: Engine<K, V>,
    k: Seq<u8>,
    v: Seq<u8>,
    m1: Engine<K, V>,
    b: Engine<K, V>,
    u: Transaction,
    m2: Engine<K, V>,
)
    requires
        orderly(a),
        a.tm().next < u64::MAX - 1,
        canonical::<K>(k),
        canonical::<V>(v),
        begins(a, txn, m0),
        inserted_in(m0, writer(txn), k, v, Ok(()), m1),
        commit_outcome(m1, writer(txn), Ok(()), b),
        begins(b, u, m2),
    ensures
        orderly(b),
        lookup::<K>(m2.index.parts(), k, u, m2.tm()) == Some(v),
{
    law_begin_opens(a, txn, m0);
    law_writer_is_open(txn, m0);
    law_insert_in(m0, writer(txn), k, v, Ok(()), m1);
    lemma_read_later(m1, writer(txn), b, u, m2);
    lemma_committed_version(m2, u, k, v, txn.txn_id);
}

/// A value that was put in place of another in a transaction of its own is what a
/// transaction reads that begins afterwards.
pub proof fn law_updated_is_read<K: Key, V: Value>(
    a: Engine<K, V>,
    txn: Transaction,
    m0: Engine<K, V>,
    k: Seq<u8>,
    v: Seq<u8>,
    m1: Engine<K, V>,
    b: Engine<K, V>,
    u: Transaction,
    m2: Engine<K, V>,
)
    requires
        orderly(a),
        a.tm().next < u64::MAX - 1,
        canonical::<K>(k),
        canonical::<V>(v),
        begins(a, txn, m0),
        updated_in(m0, writer(txn), k, v, Ok(()), m1),
        commit_outcome(m1, writer(txn), Ok(()), b),
        begins(b, u, m2),
    ensures
        orderly(b),
        lookup::<K>(m2.index.parts(), k, u, m2.tm()) == Some(v),
{
    law_begin_opens(a, txn, m0);
    law_writer_is_open(txn, m0);
    law_update_in(m0, writer(txn), k, v, Ok(()), m1);
    lemma_read_later(m1, writer(txn), b, u, m2);
    lemma_committed_version(m2, u, k, v, txn.txn_id);
}

/// A key that was deleted in a transaction of its own is not there for a transaction that
/// begins afterwards.
pub proof fn law_deleted_is_not_read<K: Key, V: Value>(
    a: Engine<K, V>,
    txn: Transaction,
    m0: Engine<K, V>,
    k: Seq<u8>,
    m1: Engine<K, V>,
    b: Engine<K, V>,
    u: Transaction,
    m2: Engine<K, V>,
)
    requires
        orderly(a),
        a.tm().next < u64::MAX - 1,
        canonical::<K>(k),
        begins(a, txn, m0),
        deleted_in(m0, writer(txn), k, Ok(()), m1),
        commit_outcome(m1, writer(txn), Ok(()), b),
        begins(b, u, m2),
    ensures
        orderly(b),
        lookup::<K>(m2.index.parts(), k, u, m2.tm()) is None,
{
    law_begin_opens(a, txn, m0);
    law_writer_is_open(txn, m0);
    law_delete_in(m0, writer(txn), k, Ok(()), m1);
    lemma_read_later(m1, writer(txn), b, u, m2);
    lemma_running(writer(txn), m1.tm());
    lemma_gone_is_not_seen::<K>(
        all_rows(m2.index.parts()),
        k,
        txn.txn_id,
        m1.tm(),
        u,
        m2.tm(),
    );
}

/// A key all versions of which are gone is not there for a transaction that counts as
/// committed whoever has committed.
proof fn lemma_gone_is_not_seen<K: Key>(
    rows: Seq<Version>,
    k: Seq<u8>,
    id: u64,
    tm: TmView,
    u: Transaction,
    later: TmView,
)
    requires
        all_gone::<K>(rows, k, id, tm),
        issued(rows, tm),
        u.txn_id == tm.next,
        tm.status(id) == TransactionStatus::Active,
        later.status(id) == TransactionStatus::Committed,
        forall|x: u64| x != id ==> #[trigger] later.status(x) == tm.status(x),
        forall|x: u64|
            x < tm.next && later.status(x) == TransactionStatus::Committed
                ==> #[trigger] u.snapshot.had_settled(x),
    ensures
        first_visible::<K>(rows, k, u, later, 0) is None,
{
    assert forall|i: int| 0 <= i < rows.len() implies !shows::<K>(
        #[trigger] rows[i],
        k,
        u,
        later,
    ) by {
        let r = rows[i];
        if key_same::<K>(r.key, k) {
            if r.xmin == id || later.status(r.xmin) != TransactionStatus::Aborted {
                assert(later.status(r.xmax) == TransactionStatus::Committed);
                assert(u.snapshot.had_settled(r.xmax));
            }
        }
    }
    lemma_first_is::<K>(rows, k, u, later, 0, rows.len() as int);
}

/// A transaction that begins after another one committed counts it as committed.
proof fn lemma_read_later<K: Key, V: Value>(
    m1: Engine<K, V>,
    txn: Transaction,
    b: Engine<K, V>,
    u: Transaction,
    m2: Engine<K, V>,
)
    requires
        orderly(m1),
        open_in(txn, m1),
        m1.tm().next < u64::MAX,
        commit_outcome(m1, txn, Ok(()), b),
        begins(b, u, m2),
    ensures
        orderly(b),
        orderly(m2),
        open_in(u, m2),
        u.txn_id == m1.tm().next,
        m2.index.parts() == m1.index.parts(),
        m2.tm().status(txn.txn_id) == TransactionStatus::Committed,
        forall|id: u64| id != txn.txn_id ==> #[trigger] m2.tm().status(id) == m1.tm().status(id),
        u.snapshot.had_settled(txn.txn_id),
        forall|id: u64|
            id < m1.tm().next && m2.tm().status(id) == TransactionStatus::Committed
                ==> #[trigger] u.snapshot.had_settled(id),
{
    law_commit(m1, txn, Ok(()), b);
    lemma_settled_engine(m1, txn, TransactionStatus::Committed, b);
    lemma_begun_status(b.tm());
    law_begin_opens(b, u, m2);
    assert(!b.tm().active.contains(txn.txn_id)) by {
        assert(b.tm().status(txn.txn_id) == TransactionStatus::Committed);
    }
    assert(b.tm().next == m1.tm().next);
    assert forall|id: u64|
        id < m1.tm().next && m2.tm().status(id) == TransactionStatus::Committed implies #[trigger] u.snapshot.had_settled(
        id,
    ) by {
        assert(b.tm().status(id) == m2.tm().status(id));
        assert(!b.tm().active.contains(id));
    }
}

} // verus!
