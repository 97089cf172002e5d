//! What holds of reads after writes.

use crate::error::IndexError;
use crate::index::flat::{
    all_rows, leaf_of, lemma_around, lemma_one_leaf, lemma_row_at, lemma_row_of, lemma_splice_rows,
    lemma_two_leaves, lemma_visible_concat, lemma_with_row, row_count, slot_of,
};
use crate::index::ops::{delete_outcome, insert_outcome, marked, update_outcome};
use crate::index::range::{
    after_start, before_end, edge_typed, first_leaf, first_row, range_of, rows_behind, rows_from,
    scanned, KeyBound,
};
use crate::index::rows::{
    covers, first_conflict, first_visible, insert_conflict, left_of, lemma_halves, lemma_kept_rows,
    lemma_put_rows, lemma_split_point, placed, put, right_of, room, seen, shows, splice,
    split_and_put, split_point, vacuumed, wait_or_die, write_conflict,
};
use crate::index::run::{lemma_before_run, lemma_run_first};
use crate::index::smo::{early_stage, put_stage};
use crate::index::tree::{
    at_least, at_most, good_bounds, good_key, good_rows, lemma_bounds_ordered, lemma_le_chain,
    lemma_parts_wf, parts_wf, under, Part,
};
use crate::index::vacuum::swept;
use crate::index::{cover, lookup, BTreeIndex};
use crate::page::leaf::{kept_rows, row_need, search, Version};
use crate::transaction::{vacuumable, Transaction};
use crate::transaction_manager::{TmView, TransactionStatus};
use crate::types::{canonical, key_before, key_same, Key, Value};
use vstd::prelude::*;

verus! {

/// The first version of the key that the transaction sees is the first one that shows.
pub proof fn lemma_first_visible<K: Key>(
    rows: Seq<Version>,
    k: Seq<u8>,
    txn: Transaction,
    tm: TmView,
    i: int,
)
    requires
        0 <= i <= rows.len(),
    ensures
        match first_visible::<K>(rows, k, txn, tm, i) {
            Some(j) => {
                &&& i <= j < rows.len()
                &&& shows::<K>(rows[j], k, txn, tm)
                &&& forall|a: int| i <= a < j ==> !shows::<K>(#[trigger] rows[a], k, txn, tm)
            },
            None => forall|a: int|
                i <= a < rows.len() ==> !shows::<K>(#[trigger] rows[a], k, txn, tm),
        },
    decreases rows.len() - i,
{
    if i < rows.len() && !shows::<K>(rows[i], k, txn, tm) {
        lemma_first_visible::<K>(rows, k, txn, tm, i + 1);
    }
}

/// A row that shows, with none before it that does, is the first.
pub proof fn lemma_first_is<K: Key>(
    rows: Seq<Version>,
    k: Seq<u8>,
    txn: Transaction,
    tm: TmView,
    i: int,
    j: int,
)
    requires
        0 <= i <= j <= rows.len(),
        forall|a: int| i <= a < j ==> !shows::<K>(#[trigger] rows[a], k, txn, tm),
    ensures
        j < rows.len() && shows::<K>(rows[j], k, txn, tm) ==> first_visible::<K>(
            rows,
            k,
            txn,
            tm,
            i,
        ) == Some(j),
        j == rows.len() ==> first_visible::<K>(rows, k, txn, tm, i) is None,
    decreases j - i,
{
    if i < j {
        lemma_first_is::<K>(rows, k, txn, tm, i + 1, j);
    }
}

/// Rows that show in one sequence and in the same order in another give the same value.
/// `f` takes a row of `a` to its place in `b`.
pub proof fn lemma_seen_same<K: Key>(
    a: Seq<Version>,
    b: Seq<Version>,
    f: spec_fn(int) -> int,
    k: Seq<u8>,
    txn: Transaction,
    tm: TmView,
)
    requires
        forall|i: int|
            0 <= i < a.len() && shows::<K>(#[trigger] a[i], k, txn, tm) ==> 0 <= f(i) < b.len()
                && shows::<K>(b[f(i)], k, txn, tm) && b[f(i)].val == a[i].val,
        forall|j: int|
            0 <= j < b.len() && shows::<K>(#[trigger] b[j], k, txn, tm) ==> exists|i: int|
                0 <= i < a.len() && #[trigger] f(i) == j && shows::<K>(a[i], k, txn, tm),
        forall|i: int, j: int| 0 <= i < j < a.len() ==> #[trigger] f(i) < #[trigger] f(j),
    ensures
        seen::<K>(a, k, txn, tm) == seen::<K>(b, k, txn, tm),
{
    lemma_first_visible::<K>(a, k, txn, tm, 0);
    lemma_first_visible::<K>(b, k, txn, tm, 0);
    match first_visible::<K>(b, k, txn, tm, 0) {
        Some(j) => {
            let i = choose|i: int|
                0 <= i < a.len() && #[trigger] f(i) == j && shows::<K>(a[i], k, txn, tm);
            assert(first_visible::<K>(a, k, txn, tm, 0) is Some) by {
                assert(shows::<K>(a[i], k, txn, tm));
            }
            let m = first_visible::<K>(a, k, txn, tm, 0)->0;
            assert(shows::<K>(a[m], k, txn, tm));
            if m < i {
                assert(f(m) < f(i));
                assert(shows::<K>(b[f(m)], k, txn, tm));
            } else if i < m {
                assert(shows::<K>(a[i], k, txn, tm));
            }
        },
        None => {
            if let Some(m) = first_visible::<K>(a, k, txn, tm, 0) {
                assert(shows::<K>(a[m], k, txn, tm));
                assert(shows::<K>(b[f(m)], k, txn, tm));
            }
        },
    }
}

/// A row more that does not show changes nothing.
proof fn lemma_seen_insert<K: Key>(
    rows: Seq<Version>,
    at: int,
    r: Version,
    k: Seq<u8>,
    txn: Transaction,
    tm: TmView,
)
    requires
        0 <= at <= rows.len(),
        !shows::<K>(r, k, txn, tm),
    ensures
        seen::<K>(rows.insert(at, r), k, txn, tm) == seen::<K>(rows, k, txn, tm),
{
    let b = rows.insert(at, r);
    let f = |i: int|
        if i < at {
            i
        } else {
            i + 1
        };
    assert forall|j: int| 0 <= j < b.len() && shows::<K>(#[trigger] b[j], k, txn, tm) implies exists|
        i: int,
    |
        0 <= i < rows.len() && #[trigger] f(i) == j && shows::<K>(rows[i], k, txn, tm) by {
        let i = if j < at {
            j
        } else {
            j - 1
        };
        assert(j != at);
        assert(f(i) == j);
    }
    lemma_seen_same::<K>(rows, b, f, k, txn, tm);
}

/// The one row that shows gives the value.
pub proof fn lemma_seen_only<K: Key>(
    rows: Seq<Version>,
    at: int,
    k: Seq<u8>,
    txn: Transaction,
    tm: TmView,
)
    requires
        0 <= at < rows.len(),
        shows::<K>(rows[at], k, txn, tm),
        forall|a: int| 0 <= a < at ==> !shows::<K>(#[trigger] rows[a], k, txn, tm),
    ensures
        seen::<K>(rows, k, txn, tm) == Some(rows[at].val),
{
    lemma_first_is::<K>(rows, k, txn, tm, 0, at);
}

/// Where a row that shows is not among those that vacuum removes, vacuum changes nothing. What
/// vacuum goes by and what the reader goes by need not be the same.
pub proof fn lemma_seen_kept<K: Key>(
    rows: Seq<Version>,
    horizon: u64,
    vt: TmView,
    k: Seq<u8>,
    txn: Transaction,
    tm: TmView,
)
    requires
        forall|i: int|
            0 <= i < rows.len() && vacuumable((#[trigger] rows[i]).xmin, rows[i].xmax, horizon, vt)
                ==> !txn.sees(rows[i].xmin, rows[i].xmax, tm),
    ensures
        seen::<K>(kept_rows(rows, horizon, vt), k, txn, tm) == seen::<K>(rows, k, txn, tm),
    decreases rows.len(),
{
    if rows.len() > 0 {
        let init = rows.drop_last();
        let last = rows.last();
        assert forall|i: int|
            0 <= i < init.len() && vacuumable(
                (#[trigger] init[i]).xmin,
                init[i].xmax,
                horizon,
                vt,
            ) implies !txn.sees(init[i].xmin, init[i].xmax, tm) by {
            assert(init[i] == rows[i]);
        }
        lemma_seen_kept::<K>(init, horizon, vt, k, txn, tm);
        let rest = kept_rows(init, horizon, vt);
        lemma_seen_push::<K>(init, last, k, txn, tm);
        lemma_seen_push::<K>(rest, last, k, txn, tm);
        assert(init.push(last) =~= rows);
        assert(rows[rows.len() - 1] == last);
    } else {
        assert(kept_rows(rows, horizon, vt) =~= rows);
    }
}

/// A row at the end counts only where none before it shows.
proof fn lemma_seen_push<K: Key>(
    rows: Seq<Version>,
    r: Version,
    k: Seq<u8>,
    txn: Transaction,
    tm: TmView,
)
    ensures
        seen::<K>(rows.push(r), k, txn, tm) == (match seen::<K>(rows, k, txn, tm) {
            Some(v) => Some(v),
            None => if shows::<K>(r, k, txn, tm) {
                Some(r.val)
            } else {
                None
            },
        }),
{
    let b = rows.push(r);
    lemma_first_visible::<K>(rows, k, txn, tm, 0);
    match first_visible::<K>(rows, k, txn, tm, 0) {
        Some(j) => {
            assert forall|a: int| 0 <= a < j implies !shows::<K>(#[trigger] b[a], k, txn, tm) by {
                assert(b[a] == rows[a]);
            }
            lemma_first_is::<K>(b, k, txn, tm, 0, j);
        },
        None => {
            let n = rows.len() as int;
            assert forall|a: int| 0 <= a < n implies !shows::<K>(#[trigger] b[a], k, txn, tm) by {
                assert(b[a] == rows[a]);
            }
            lemma_first_is::<K>(b, k, txn, tm, 0, n);
            if !shows::<K>(r, k, txn, tm) {
                assert forall|a: int| 0 <= a < n + 1 implies !shows::<K>(
                    #[trigger] b[a],
                    k,
                    txn,
                    tm,
                ) by {}
                lemma_first_is::<K>(b, k, txn, tm, 0, n + 1);
            }
        },
    }
}

/// A key that is not before a leaf belongs to that leaf or to one further right.
proof fn lemma_covered_from<K: Key>(parts: Seq<Part>, k: Seq<u8>, i: int)
    requires
        parts_wf::<K>(parts),
        K::accepts(k),
        0 <= i < parts.len(),
        at_least::<K>(k, parts[i].low),
    ensures
        exists|j: int| covers::<K>(parts, k, j),
    decreases parts.len() - i,
{
    if under::<K>(k, parts[i].high) {
        assert(covers::<K>(parts, k, i));
    } else {
        assert(i < parts.len() - 1);
        assert(good_bounds::<K>(parts[i].low, parts[i].high));
        K::le_total(k, parts[i].high->0);
        lemma_covered_from::<K>(parts, k, i + 1);
    }
}

/// Every key belongs to a leaf.
pub proof fn lemma_covered<K: Key>(parts: Seq<Part>, k: Seq<u8>)
    requires
        parts_wf::<K>(parts),
        K::accepts(k),
    ensures
        covers::<K>(parts, k, cover::<K>(parts, k)),
{
    lemma_covered_from::<K>(parts, k, 0);
}

/// Nothing that the transaction sees is among the rows that vacuum may remove.
pub open spec fn needs_none(rows: Seq<Version>, horizon: u64, txn: Transaction, tm: TmView) -> bool {
    forall|i: int|
        0 <= i < rows.len() && vacuumable((#[trigger] rows[i]).xmin, rows[i].xmax, horizon, tm)
            ==> !txn.sees(rows[i].xmin, rows[i].xmax, tm)
}

/// A leaf that a version can be put into, and where it is among the leaves.
pub open spec fn can_put<K: Key, V: Value>(
    before: Seq<Part>,
    at: int,
    p: Part,
    k: Seq<u8>,
    v: Seq<u8>,
) -> bool {
    &&& parts_wf::<K>(before)
    &&& 0 <= at < before.len()
    &&& before[at].low == p.low
    &&& before[at].high == p.high
    &&& good_rows::<K, V>(p.rows, p.low, p.high)
    &&& 0 <= room(p)
    &&& crate::index::smo::belongs::<K, V>(p, k, v)
}

/// The halves of a leaf that is split to make room.
pub proof fn lemma_base<K: Key, V: Value>(
    before: Seq<Part>,
    at: int,
    p: Part,
    k: Seq<u8>,
    v: Seq<u8>,
    horizon: u64,
    tm: TmView,
)
    requires
        can_put::<K, V>(before, at, p, k, v),
    ensures
        ({
            let base = vacuumed(p, horizon, tm);
            let m = split_point::<K>(base.rows);
            &&& good_rows::<K, V>(base.rows, p.low, p.high)
            &&& 0 <= room(base)
            &&& forall|i: int| 0 <= i < base.rows.len() ==> p.rows.contains(#[trigger] base.rows[i])
            &&& row_need(k, v) > room(p) && !(base.rows.len() < p.rows.len() && row_need(k, v)
                <= room(base)) ==> 0 <= m < base.rows.len()
        }),
{
    let base = vacuumed(p, horizon, tm);
    lemma_kept_rows::<K, V>(p.rows, p.low, p.high, horizon, tm);
    crate::page::leaf::lemma_kept_bytes(p.rows, horizon, tm);
    assert(good_bounds::<K>(before[at].low, before[at].high));
    if base.rows.len() == 0 {
        crate::index::rows::lemma_empty_has_room::<K>(base, k, v);
        if p.rows.len() == 0 {
            assert(p.rows =~= base.rows);
        }
    } else {
        lemma_split_point::<K>(base.rows);
    }
}

/// A key of a leaf is not above its high key.
pub proof fn lemma_high_below<K: Key, V: Value>(
    before: Seq<Part>,
    at: int,
    p: Part,
    k: Seq<u8>,
    v: Seq<u8>,
)
    requires
        can_put::<K, V>(before, at, p, k, v),
    ensures
        at_most::<K>(k, p.high),
        p.high matches Some(h) ==> K::accepts(h),
{
    assert(good_bounds::<K>(before[at].low, before[at].high));
    if p.high is Some {
        K::le_total(k, p.high->0);
    }
}

/// A row more stands somewhere among the rows.
pub open spec fn inserted(rows: Seq<Version>, out: Seq<Version>, new: Version) -> bool {
    exists|at: int| 0 <= at <= rows.len() && out == #[trigger] rows.insert(at, new)
}

/// What the rows of a leaf become while a version is put into it: rows that vacuum may remove
/// go, or do not, and the version comes, or does not.
pub open spec fn stage_rows(
    rows: Seq<Version>,
    out: Seq<Version>,
    new: Version,
    horizon: u64,
    tm: TmView,
) -> bool {
    let kept = kept_rows(rows, horizon, tm);
    ||| out == rows
    ||| out == kept
    ||| inserted(rows, out, new)
    ||| inserted(kept, out, new)
}

/// A version put into a leaf is inserted among its rows.
proof fn lemma_put_inserted<K: Key, V: Value>(p: Part, k: Seq<u8>, v: Seq<u8>, txn_id: u64)
    requires
        good_rows::<K, V>(p.rows, p.low, p.high),
        good_key::<K>(k),
        canonical::<V>(v),
        at_least::<K>(k, p.low),
        at_most::<K>(k, p.high),
    ensures
        inserted(
            p.rows,
            all_rows(seq![put::<K>(p, k, v, txn_id)]),
            Version { key: k, val: v, xmin: txn_id, xmax: 0 },
        ),
{
    lemma_put_rows::<K, V>(p, k, v, txn_id);
    lemma_one_leaf(put::<K>(p, k, v, txn_id));
}

/// Where the version goes in the half that it belongs to.
proof fn lemma_half_slot<K: Key, V: Value>(p: Part, k: Seq<u8>, v: Seq<u8>, txn_id: u64)
    requires
        good_rows::<K, V>(p.rows, p.low, p.high),
        0 <= room(p),
        0 <= split_point::<K>(p.rows) < p.rows.len(),
        good_key::<K>(k),
        canonical::<V>(v),
        at_least::<K>(k, p.low),
        at_most::<K>(k, p.high),
    ensures
        ({
            let m = split_point::<K>(p.rows);
            let half = if key_before::<K>(k, p.rows[m].key) {
                left_of(p, m)
            } else {
                right_of(p, m)
            };
            0 <= search::<K>(half.rows, k, 0, half.rows.len() as int).0 <= half.rows.len()
        }),
{
    let m = split_point::<K>(p.rows);
    lemma_halves::<K, V>(p, m);
    K::le_total(k, p.rows[m].key);
    if key_before::<K>(k, p.rows[m].key) {
        lemma_put_rows::<K, V>(left_of(p, m), k, v, txn_id);
    } else {
        lemma_put_rows::<K, V>(right_of(p, m), k, v, txn_id);
    }
}

/// The halves hold the rows of the leaf, and with a version more in one of them that too.
proof fn lemma_halves_inserted<K: Key>(p: Part, m: int, k: Seq<u8>, v: Seq<u8>, txn_id: u64)
    requires
        0 <= m < p.rows.len(),
    ensures
        ({
            let l = left_of(p, m);
            let r = right_of(p, m);
            let new = Version { key: k, val: v, xmin: txn_id, xmax: 0 };
            &&& all_rows(seq![l, r]) == p.rows
            &&& 0 <= search::<K>(l.rows, k, 0, l.rows.len() as int).0 <= l.rows.len() ==> inserted(
                p.rows,
                all_rows(seq![put::<K>(l, k, v, txn_id), r]),
                new,
            )
            &&& 0 <= search::<K>(r.rows, k, 0, r.rows.len() as int).0 <= r.rows.len() ==> inserted(
                p.rows,
                all_rows(seq![l, put::<K>(r, k, v, txn_id)]),
                new,
            )
        }),
{
    let l = left_of(p, m);
    let r = right_of(p, m);
    let new = Version { key: k, val: v, xmin: txn_id, xmax: 0 };
    let x = search::<K>(l.rows, k, 0, l.rows.len() as int).0;
    let y = search::<K>(r.rows, k, 0, r.rows.len() as int).0;
    lemma_two_leaves(l, r);
    lemma_two_leaves(put::<K>(l, k, v, txn_id), r);
    lemma_two_leaves(l, put::<K>(r, k, v, txn_id));
    assert(l.rows + r.rows =~= p.rows);
    if 0 <= x <= l.rows.len() {
        assert(l.rows.insert(x, new) + r.rows =~= p.rows.insert(x, new));
    }
    if 0 <= y <= r.rows.len() {
        assert(l.rows + r.rows.insert(y, new) =~= p.rows.insert(m + y, new));
    }
}

/// So is one that a leaf is split for.
proof fn lemma_split_inserted<K: Key, V: Value>(p: Part, k: Seq<u8>, v: Seq<u8>, txn_id: u64)
    requires
        good_rows::<K, V>(p.rows, p.low, p.high),
        0 <= room(p),
        0 <= split_point::<K>(p.rows) < p.rows.len(),
        good_key::<K>(k),
        canonical::<V>(v),
        at_least::<K>(k, p.low),
        at_most::<K>(k, p.high),
    ensures
        ({
            let (out, full) = split_and_put::<K>(p, k, v, txn_id);
            let m = split_point::<K>(p.rows);
            &&& full is None ==> inserted(
                p.rows,
                all_rows(out),
                Version { key: k, val: v, xmin: txn_id, xmax: 0 },
            )
            &&& full is Some ==> all_rows(out) == p.rows
            &&& all_rows(seq![left_of(p, m), right_of(p, m)]) == p.rows
        }),
{
    let m = split_point::<K>(p.rows);
    lemma_half_slot::<K, V>(p, k, v, txn_id);
    lemma_halves_inserted::<K>(p, m, k, v, txn_id);
    lemma_one_leaf(p);
}

/// The rows in every state that is reached while a version is put into a leaf.
pub proof fn lemma_stage_rows<K: Key, V: Value>(
    before: Seq<Part>,
    at: int,
    p: Part,
    k: Seq<u8>,
    v: Seq<u8>,
    txn_id: u64,
    horizon: u64,
    tm: TmView,
    stage: Seq<Part>,
)
    requires
        can_put::<K, V>(before, at, p, k, v),
        put_stage::<K>(p, k, v, txn_id, horizon, tm, stage),
    ensures
        stage_rows(
            p.rows,
            all_rows(stage),
            Version { key: k, val: v, xmin: txn_id, xmax: 0 },
            horizon,
            tm,
        ),
        stage == placed::<K>(p, k, v, txn_id, horizon, tm).0 && placed::<K>(
            p,
            k,
            v,
            txn_id,
            horizon,
            tm,
        ).1 is None ==> ({
            let new = Version { key: k, val: v, xmin: txn_id, xmax: 0 };
            inserted(p.rows, all_rows(stage), new) || inserted(
                kept_rows(p.rows, horizon, tm),
                all_rows(stage),
                new,
            )
        }),
        early_stage::<K>(p, k, v, horizon, tm, stage) ==> all_rows(stage) == p.rows || all_rows(
            stage,
        ) == kept_rows(p.rows, horizon, tm),
{
    let base = vacuumed(p, horizon, tm);
    let out = placed::<K>(p, k, v, txn_id, horizon, tm).0;
    lemma_base::<K, V>(before, at, p, k, v, horizon, tm);
    lemma_high_below::<K, V>(before, at, p, k, v);
    lemma_one_leaf(p);
    lemma_one_leaf(base);
    lemma_put_inserted::<K, V>(p, k, v, txn_id);
    lemma_put_inserted::<K, V>(base, k, v, txn_id);
    if row_need(k, v) > room(p) && !(base.rows.len() < p.rows.len() && row_need(k, v) <= room(
        base,
    )) {
        lemma_split_inserted::<K, V>(base, k, v, txn_id);
    }
}

/// Whoever sees neither the rows that vacuum may remove nor the new version sees the same.
pub proof fn lemma_stage_seen<K: Key>(
    rows: Seq<Version>,
    out: Seq<Version>,
    new: Version,
    horizon: u64,
    vt: TmView,
    k: Seq<u8>,
    reader: Transaction,
    tm: TmView,
)
    requires
        stage_rows(rows, out, new, horizon, vt),
        forall|i: int|
            0 <= i < rows.len() && vacuumable((#[trigger] rows[i]).xmin, rows[i].xmax, horizon, vt)
                ==> !reader.sees(rows[i].xmin, rows[i].xmax, tm),
        !shows::<K>(new, k, reader, tm),
    ensures
        seen::<K>(out, k, reader, tm) == seen::<K>(rows, k, reader, tm),
{
    let kept = kept_rows(rows, horizon, vt);
    lemma_seen_kept::<K>(rows, horizon, vt, k, reader, tm);
    if inserted(rows, out, new) {
        let at = choose|at: int| 0 <= at <= rows.len() && out == #[trigger] rows.insert(at, new);
        lemma_seen_insert::<K>(rows, at, new, k, reader, tm);
    } else if inserted(kept, out, new) {
        let at = choose|at: int| 0 <= at <= kept.len() && out == #[trigger] kept.insert(at, new);
        lemma_seen_insert::<K>(kept, at, new, k, reader, tm);
    }
}

/// Where a leaf gives way to others in which a reader sees the same of a key, it reads the same.
pub proof fn lemma_lookup_splice<K: Key>(
    parts: Seq<Part>,
    i: int,
    out: Seq<Part>,
    k: Seq<u8>,
    reader: Transaction,
    tm: TmView,
)
    requires
        0 <= i < parts.len(),
        seen::<K>(all_rows(out), k, reader, tm) == seen::<K>(parts[i].rows, k, reader, tm),
    ensures
        lookup::<K>(splice(parts, i, out), k, reader, tm) == lookup::<K>(parts, k, reader, tm),
{
    let a = all_rows(parts.take(i));
    let c = all_rows(parts.skip(i + 1));
    lemma_splice_rows(parts, i, out);
    lemma_around(parts, i);
    lemma_visible_concat::<K>(a, all_rows(out), k, reader, tm);
    lemma_visible_concat::<K>(a + all_rows(out), c, k, reader, tm);
    lemma_visible_concat::<K>(a, parts[i].rows, k, reader, tm);
    lemma_visible_concat::<K>(a + parts[i].rows, c, k, reader, tm);
}

/// Leaves in each of which a reader sees the same of a key.
pub proof fn lemma_lookup_each<K: Key>(
    a: Seq<Part>,
    b: Seq<Part>,
    k: Seq<u8>,
    reader: Transaction,
    tm: TmView,
)
    requires
        a.len() == b.len(),
        forall|i: int|
            0 <= i < a.len() ==> seen::<K>((#[trigger] a[i]).rows, k, reader, tm) == seen::<K>(
                b[i].rows,
                k,
                reader,
                tm,
            ),
    ensures
        lookup::<K>(a, k, reader, tm) == lookup::<K>(b, k, reader, tm),
    decreases a.len(),
{
    if a.len() > 0 {
        let x = a.drop_last();
        let y = b.drop_last();
        assert forall|i: int| 0 <= i < x.len() implies seen::<K>(
            (#[trigger] x[i]).rows,
            k,
            reader,
            tm,
        ) == seen::<K>(y[i].rows, k, reader, tm) by {
            assert(x[i] == a[i] && y[i] == b[i]);
        }
        lemma_lookup_each::<K>(x, y, k, reader, tm);
        assert(a[a.len() - 1] == a.last() && b[a.len() - 1] == b.last());
        lemma_visible_concat::<K>(all_rows(x), a.last().rows, k, reader, tm);
        lemma_visible_concat::<K>(all_rows(y), b.last().rows, k, reader, tm);
    }
}

/// The transaction sees one version of the key at most.
pub open spec fn sole<K: Key>(rows: Seq<Version>, k: Seq<u8>, txn: Transaction, tm: TmView) -> bool {
    forall|i: int, j: int|
        0 <= i < rows.len() && 0 <= j < rows.len() && #[trigger] shows::<K>(rows[i], k, txn, tm)
            && #[trigger] shows::<K>(rows[j], k, txn, tm) ==> i == j
}

/// A row more among rows of which the reader sees none is the one that it sees.
proof fn lemma_only_new<K: Key>(
    a: Seq<Version>,
    q: Seq<Version>,
    c: Seq<Version>,
    y: int,
    new: Version,
    k: Seq<u8>,
    reader: Transaction,
    tm: TmView,
)
    requires
        0 <= y <= q.len(),
        shows::<K>(new, k, reader, tm),
        forall|i: int| 0 <= i < a.len() ==> !shows::<K>(#[trigger] a[i], k, reader, tm),
        forall|i: int| 0 <= i < q.len() ==> !shows::<K>(#[trigger] q[i], k, reader, tm),
        forall|i: int| 0 <= i < c.len() ==> !shows::<K>(#[trigger] c[i], k, reader, tm),
    ensures
        ({
            let out = a + q.insert(y, new) + c;
            &&& seen::<K>(out, k, reader, tm) == Some(new.val)
            &&& sole::<K>(out, k, reader, tm)
            &&& out.contains(new)
        }),
{
    let out = a + q.insert(y, new) + c;
    let n = a.len() + y;
    assert(out[n] == new);
    assert forall|i: int| 0 <= i < out.len() && i != n implies !shows::<K>(
        #[trigger] out[i],
        k,
        reader,
        tm,
    ) by {
        if i < a.len() {
            assert(out[i] == a[i]);
        } else if i < n {
            assert(out[i] == q[i - a.len()]);
        } else if i <= a.len() + q.len() {
            assert(out[i] == q[i - a.len() - 1]);
        } else {
            assert(out[i] == c[i - a.len() - q.len() - 1]);
        }
    }
    lemma_seen_only::<K>(out, n, k, reader, tm);
}

/// The same of rows of one leaf of several.
proof fn lemma_only_new_leaf<K: Key>(
    before: Seq<Part>,
    at: int,
    stage: Seq<Part>,
    q: Seq<Version>,
    new: Version,
    k: Seq<u8>,
    reader: Transaction,
    tm: TmView,
)
    requires
        0 <= at < before.len(),
        inserted(q, all_rows(stage), new),
        forall|i: int| 0 <= i < q.len() ==> before[at].rows.contains(#[trigger] q[i]),
        shows::<K>(new, k, reader, tm),
        forall|i: int|
            0 <= i < all_rows(before).len() ==> !shows::<K>(
                #[trigger] all_rows(before)[i],
                k,
                reader,
                tm,
            ),
    ensures
        ({
            let after = splice(before, at, stage);
            &&& lookup::<K>(after, k, reader, tm) == Some(new.val)
            &&& sole::<K>(all_rows(after), k, reader, tm)
            &&& all_rows(after).contains(new)
        }),
{
    let rows = before[at].rows;
    let all = all_rows(before);
    let a = all_rows(before.take(at));
    let c = all_rows(before.skip(at + 1));
    lemma_splice_rows(before, at, stage);
    lemma_around(before, at);
    let y = choose|y: int| 0 <= y <= q.len() && all_rows(stage) == #[trigger] q.insert(y, new);
    assert forall|i: int| 0 <= i < a.len() implies !shows::<K>(#[trigger] a[i], k, reader, tm) by {
        assert(all[i] == a[i]);
    }
    assert forall|i: int| 0 <= i < q.len() implies !shows::<K>(#[trigger] q[i], k, reader, tm) by {
        let j = choose|j: int| 0 <= j < rows.len() && rows[j] == q[i];
        assert(all[a.len() + j] == q[i]);
    }
    assert forall|i: int| 0 <= i < c.len() implies !shows::<K>(#[trigger] c[i], k, reader, tm) by {
        assert(all[a.len() + rows.len() + i] == c[i]);
    }
    lemma_only_new::<K>(a, q, c, y, new, k, reader, tm);
}

/// A version put where the reader sees no other is the one that it sees.
proof fn lemma_put_own<K: Key, V: Value>(
    before: Seq<Part>,
    at: int,
    k: Seq<u8>,
    v: Seq<u8>,
    txn_id: u64,
    horizon: u64,
    reader: Transaction,
    tm: TmView,
)
    requires
        can_put::<K, V>(before, at, before[at], k, v),
        placed::<K>(before[at], k, v, txn_id, horizon, tm).1 is None,
        reader.sees(txn_id, 0, tm),
        forall|i: int|
            0 <= i < all_rows(before).len() ==> !shows::<K>(
                #[trigger] all_rows(before)[i],
                k,
                reader,
                tm,
            ),
    ensures
        ({
            let after = splice(
                before,
                at,
                placed::<K>(before[at], k, v, txn_id, horizon, tm).0,
            );
            &&& lookup::<K>(after, k, reader, tm) == Some(v)
            &&& sole::<K>(all_rows(after), k, reader, tm)
            &&& all_rows(after).contains(Version { key: k, val: v, xmin: txn_id, xmax: 0 })
        }),
{
    let p = before[at];
    let new = Version { key: k, val: v, xmin: txn_id, xmax: 0 };
    let stage = placed::<K>(p, k, v, txn_id, horizon, tm).0;
    lemma_stage_rows::<K, V>(before, at, p, k, v, txn_id, horizon, tm, stage);
    lemma_base::<K, V>(before, at, p, k, v, horizon, tm);
    K::le_total(k, k);
    if inserted(p.rows, all_rows(stage), new) {
        assert forall|i: int| 0 <= i < p.rows.len() implies p.rows.contains(#[trigger] p.rows[i]) by {}
        lemma_only_new_leaf::<K>(before, at, stage, p.rows, new, k, reader, tm);
    } else {
        let kept = kept_rows(p.rows, horizon, tm);
        lemma_only_new_leaf::<K>(before, at, stage, kept, new, k, reader, tm);
    }
}

/// Where nothing forbids to insert the key, the transaction sees no version of it.
pub proof fn lemma_no_conflict<K: Key>(
    rows: Seq<Version>,
    k: Seq<u8>,
    txn: Transaction,
    tm: TmView,
    i: int,
)
    requires
        0 <= i <= rows.len(),
        first_conflict::<K>(rows, k, txn, tm, i) is None,
    ensures
        forall|a: int| i <= a < rows.len() ==> !shows::<K>(#[trigger] rows[a], k, txn, tm),
    decreases rows.len() - i,
{
    if i < rows.len() {
        lemma_no_conflict::<K>(rows, k, txn, tm, i + 1);
    }
}

/// A leaf of an index takes any version that belongs to it.
pub proof fn lemma_can_put<K: Key, V: Value>(a: BTreeIndex<K, V>, k: Seq<u8>, v: Seq<u8>)
    requires
        a.wf(),
        good_key::<K>(k),
        canonical::<V>(v),
        v.len() <= crate::constants::MAX_VALUE_SIZE,
    ensures
        ({
            let i = cover::<K>(a.parts(), k);
            can_put::<K, V>(a.parts(), i, a.parts()[i], k, v)
        }),
{
    lemma_parts_wf::<K, V>(a.pool, a.root, a.shape@);
    lemma_covered::<K>(a.parts(), k);
    let i = cover::<K>(a.parts(), k);
    assert(crate::index::tree::node_wf::<K, V>(a.pool, a.shape@, 0, i));
    crate::page::leaf::lemma_packed_room(a.pool.page(a.shape@.levels[0][i]));
}

/// A transaction that has not aborted reads what it inserted.
pub proof fn law_insert_is_read<K: Key, V: Value>(
    a: BTreeIndex<K, V>,
    k: Seq<u8>,
    v: Seq<u8>,
    txn: Transaction,
    tm: TmView,
    b: BTreeIndex<K, V>,
)
    requires
        !tm.is_aborted(txn.txn_id),
        a.wf(),
        b.wf(),
        canonical::<K>(k),
        canonical::<V>(v),
        insert_outcome(a, k, v, txn, tm, Ok(()), b),
    ensures
        lookup::<K>(b.parts(), k, txn, tm) == Some(v),
        sole::<K>(all_rows(b.parts()), k, txn, tm),
        all_rows(b.parts()).contains(Version { key: k, val: v, xmin: txn.txn_id, xmax: 0 }),
{
    let i = cover::<K>(a.parts(), k);
    lemma_can_put(a, k, v);
    lemma_no_conflict::<K>(all_rows(a.parts()), k, txn, tm, 0);
    lemma_put_own::<K, V>(a.parts(), i, k, v, txn.txn_id, tm.global_xmin(), txn, tm);
}

/// The reader has not aborted, and every transaction below the horizon that committed had
/// settled when the reader's snapshot was taken. So it is with a reader that begins
/// when the horizon is taken, or later.
pub open spec fn beyond_horizon(reader: Transaction, tm: TmView) -> bool {
    &&& tm.status(reader.txn_id) != TransactionStatus::Aborted
    &&& forall|id: u64|
        id < tm.global_xmin() && tm.status(id) == TransactionStatus::Committed
            ==> #[trigger] reader.snapshot.had_settled(id)
}

/// Such a reader sees nothing that vacuum may remove.
proof fn lemma_beyond_horizon(rows: Seq<Version>, reader: Transaction, tm: TmView)
    requires
        beyond_horizon(reader, tm),
    ensures
        needs_none(rows, tm.global_xmin(), reader, tm),
{
    assert forall|i: int|
        0 <= i < rows.len() && vacuumable(
            (#[trigger] rows[i]).xmin,
            rows[i].xmax,
            tm.global_xmin(),
            tm,
        ) implies !reader.sees(rows[i].xmin, rows[i].xmax, tm) by {
        if tm.status(rows[i].xmin) != TransactionStatus::Aborted {
            assert(reader.snapshot.had_settled(rows[i].xmax));
        }
    }
}

/// A version that the reader does not see changes nothing else that the reader sees.
proof fn lemma_placed_others<K: Key, V: Value>(
    before: Seq<Part>,
    at: int,
    k: Seq<u8>,
    v: Seq<u8>,
    txn_id: u64,
    horizon: u64,
    k2: Seq<u8>,
    reader: Transaction,
    tm: TmView,
)
    requires
        can_put::<K, V>(before, at, before[at], k, v),
        !(key_same::<K>(k, k2) && reader.sees(txn_id, 0, tm)),
        needs_none(before[at].rows, horizon, reader, tm),
    ensures
        lookup::<K>(
            splice(before, at, placed::<K>(before[at], k, v, txn_id, horizon, tm).0),
            k2,
            reader,
            tm,
        ) == lookup::<K>(before, k2, reader, tm),
{
    let p = before[at];
    let out = placed::<K>(p, k, v, txn_id, horizon, tm).0;
    let new = Version { key: k, val: v, xmin: txn_id, xmax: 0 };
    lemma_stage_rows::<K, V>(before, at, p, k, v, txn_id, horizon, tm, out);
    lemma_stage_seen::<K>(p.rows, all_rows(out), new, horizon, tm, k2, reader, tm);
    lemma_lookup_splice::<K>(before, at, out, k2, reader, tm);
}

/// An insertion leaves alone what anybody reads of other keys, and what those read of the
/// key who do not see the inserting transaction's changes.
pub proof fn law_insert_keeps_others<K: Key, V: Value>(
    a: BTreeIndex<K, V>,
    k: Seq<u8>,
    v: Seq<u8>,
    txn: Transaction,
    tm: TmView,
    b: BTreeIndex<K, V>,
    k2: Seq<u8>,
    reader: Transaction,
)
    requires
        a.wf(),
        b.wf(),
        canonical::<K>(k),
        canonical::<V>(v),
        insert_outcome(a, k, v, txn, tm, Ok(()), b),
        K::accepts(k2),
        !key_same::<K>(k, k2) || !reader.sees(txn.txn_id, 0, tm),
        beyond_horizon(reader, tm),
    ensures
        lookup::<K>(b.parts(), k2, reader, tm) == lookup::<K>(a.parts(), k2, reader, tm),
{
    let i = cover::<K>(a.parts(), k);
    lemma_can_put(a, k, v);
    lemma_beyond_horizon(a.parts()[i].rows, reader, tm);
    lemma_placed_others::<K, V>(
        a.parts(),
        i,
        k,
        v,
        txn.txn_id,
        tm.global_xmin(),
        k2,
        reader,
        tm,
    );
}

/// Marking a row as deleted takes it from the view of the one who deleted it.
pub proof fn lemma_deleted_own<K: Key>(
    rows: Seq<Version>,
    s: int,
    k: Seq<u8>,
    txn: Transaction,
    tm: TmView,
)
    requires
        !tm.is_aborted(txn.txn_id),
        0 <= s < rows.len(),
        txn.txn_id != 0,
        shows::<K>(rows[s], k, txn, tm),
        sole::<K>(rows, k, txn, tm),
    ensures
        ({
            let out = rows.update(s, Version { xmax: txn.txn_id, ..rows[s] });
            forall|i: int| 0 <= i < out.len() ==> !shows::<K>(#[trigger] out[i], k, txn, tm)
        }),
{
    let out = rows.update(s, Version { xmax: txn.txn_id, ..rows[s] });
    assert forall|i: int| 0 <= i < out.len() implies !shows::<K>(
        #[trigger] out[i],
        k,
        txn,
        tm,
    ) by {
        if i != s {
            assert(out[i] == rows[i]);
            if shows::<K>(rows[i], k, txn, tm) {
                assert(shows::<K>(rows[s], k, txn, tm));
            }
        }
    }
}

/// The reader does not count the transaction's changes.
pub open spec fn apart(reader: Transaction, txn: Transaction, tm: TmView) -> bool {
    &&& reader.txn_id != txn.txn_id
    &&& !reader.snapshot.committed(txn.txn_id, tm)
    &&& tm.status(reader.txn_id) != TransactionStatus::Aborted
}

/// Marking a row as deleted changes nothing for those who do not see the deleter, and
/// nothing of other keys.
proof fn lemma_deleted_others<K: Key>(
    rows: Seq<Version>,
    s: int,
    k: Seq<u8>,
    txn: Transaction,
    tm: TmView,
    k2: Seq<u8>,
    reader: Transaction,
)
    requires
        0 <= s < rows.len(),
        K::accepts(rows[s].key),
        K::accepts(k),
        K::accepts(k2),
        txn.txn_id != 0,
        shows::<K>(rows[s], k, txn, tm),
        write_conflict(rows[s].xmax, txn, tm) is None,
        !key_same::<K>(k, k2) || apart(reader, txn, tm),
    ensures
        seen::<K>(
            rows.update(s, Version { xmax: txn.txn_id, ..rows[s] }),
            k2,
            reader,
            tm,
        ) == seen::<K>(rows, k2, reader, tm),
{
    let out = rows.update(s, Version { xmax: txn.txn_id, ..rows[s] });
    let f = |i: int| i;
    if key_same::<K>(rows[s].key, k2) && !key_same::<K>(k, k2) {
        lemma_le_chain::<K>(k, rows[s].key, k2);
        lemma_le_chain::<K>(k2, rows[s].key, k);
    }
    assert(shows::<K>(out[s], k2, reader, tm) == shows::<K>(rows[s], k2, reader, tm));
    assert forall|i: int| 0 <= i < rows.len() implies #[trigger] shows::<K>(
        rows[i],
        k2,
        reader,
        tm,
    ) == shows::<K>(out[i], k2, reader, tm) && rows[i].val == out[i].val by {
        if i != s {
            assert(out[i] == rows[i]);
        }
    }
    assert forall|j: int| 0 <= j < out.len() && shows::<K>(#[trigger] out[j], k2, reader, tm) implies exists|
        i: int,
    |
        0 <= i < rows.len() && #[trigger] f(i) == j && shows::<K>(rows[i], k2, reader, tm) by {
        assert(f(j) == j);
        assert(shows::<K>(rows[j], k2, reader, tm));
    }
    lemma_seen_same::<K>(rows, out, f, k2, reader, tm);
}

/// The rows once one is marked.
pub proof fn lemma_marked(parts: Seq<Part>, x: int, txn_id: u64)
    requires
        0 <= x < all_rows(parts).len(),
    ensures
        all_rows(marked(parts, x, txn_id)) == all_rows(parts).update(
            x,
            Version { xmax: txn_id, ..all_rows(parts)[x] },
        ),
        marked(parts, x, txn_id).len() == parts.len(),
        forall|i: int|
            0 <= i < parts.len() ==> (#[trigger] marked(parts, x, txn_id)[i]).low == parts[i].low
                && marked(parts, x, txn_id)[i].high == parts[i].high,
{
    lemma_row_of(parts, x);
    lemma_with_row(parts, x, Version { xmax: txn_id, ..all_rows(parts)[x] });
}

/// A row of an index has a key that can be compared.
pub proof fn lemma_row_typed<K: Key, V: Value>(a: BTreeIndex<K, V>, x: int)
    requires
        a.wf(),
        0 <= x < all_rows(a.parts()).len(),
    ensures
        K::accepts(all_rows(a.parts())[x].key),
{
    lemma_parts_wf::<K, V>(a.pool, a.root, a.shape@);
    lemma_row_of(a.parts(), x);
    let i = leaf_of(a.parts(), x);
    assert(good_rows::<K, V>(a.parts()[i].rows, a.parts()[i].low, a.parts()[i].high));
}

/// A transaction no longer reads what it deleted.
pub proof fn law_delete_is_read<K: Key, V: Value>(
    a: BTreeIndex<K, V>,
    k: Seq<u8>,
    txn: Transaction,
    tm: TmView,
    b: BTreeIndex<K, V>,
)
    requires
        !tm.is_aborted(txn.txn_id),
        a.wf(),
        b.wf(),
        canonical::<K>(k),
        txn.txn_id != 0,
        sole::<K>(all_rows(a.parts()), k, txn, tm),
        delete_outcome(a, k, txn, tm, Ok(()), b),
    ensures
        lookup::<K>(b.parts(), k, txn, tm) is None,
        sole::<K>(all_rows(b.parts()), k, txn, tm),
{
    let rows = all_rows(a.parts());
    lemma_first_visible::<K>(rows, k, txn, tm, 0);
    let x = first_visible::<K>(rows, k, txn, tm, 0)->0;
    lemma_marked(a.parts(), x, txn.txn_id);
    lemma_deleted_own::<K>(rows, x, k, txn, tm);
    let out = all_rows(b.parts());
    lemma_first_is::<K>(out, k, txn, tm, 0, out.len() as int);
}

/// A deletion leaves alone what anybody reads of other keys, and what those read of the
/// key who do not see the deleting transaction's changes.
pub proof fn law_delete_keeps_others<K: Key, V: Value>(
    a: BTreeIndex<K, V>,
    k: Seq<u8>,
    txn: Transaction,
    tm: TmView,
    b: BTreeIndex<K, V>,
    k2: Seq<u8>,
    reader: Transaction,
)
    requires
        a.wf(),
        b.wf(),
        canonical::<K>(k),
        K::accepts(k2),
        txn.txn_id != 0,
        delete_outcome(a, k, txn, tm, Ok(()), b),
        !key_same::<K>(k, k2) || apart(reader, txn, tm),
    ensures
        lookup::<K>(b.parts(), k2, reader, tm) == lookup::<K>(a.parts(), k2, reader, tm),
{
    let rows = all_rows(a.parts());
    lemma_first_visible::<K>(rows, k, txn, tm, 0);
    let x = first_visible::<K>(rows, k, txn, tm, 0)->0;
    lemma_marked(a.parts(), x, txn.txn_id);
    lemma_row_typed(a, x);
    lemma_deleted_others::<K>(rows, x, k, txn, tm, k2, reader);
}

/// The leaf of a key, once the version that the transaction sees is marked as deleted.
pub proof fn lemma_can_replace<K: Key, V: Value>(
    a: BTreeIndex<K, V>,
    k: Seq<u8>,
    v: Seq<u8>,
    txn: Transaction,
    tm: TmView,
)
    requires
        a.wf(),
        good_key::<K>(k),
        canonical::<V>(v),
        v.len() <= crate::constants::MAX_VALUE_SIZE,
        first_visible::<K>(all_rows(a.parts()), k, txn, tm, 0) is Some,
    ensures
        ({
            let i = cover::<K>(a.parts(), k);
            let x = first_visible::<K>(all_rows(a.parts()), k, txn, tm, 0)->0;
            let q = marked(a.parts(), x, txn.txn_id);
            &&& 0 <= x < all_rows(a.parts()).len()
            &&& shows::<K>(all_rows(a.parts())[x], k, txn, tm)
            &&& parts_wf::<K>(q)
            &&& can_put::<K, V>(q, i, q[i], k, v)
        }),
{
    let parts = a.parts();
    let i = cover::<K>(parts, k);
    lemma_can_put(a, k, v);
    lemma_first_visible::<K>(all_rows(parts), k, txn, tm, 0);
    let x = first_visible::<K>(all_rows(parts), k, txn, tm, 0)->0;
    let q = marked(parts, x, txn.txn_id);
    let j = leaf_of(parts, x);
    lemma_marked(parts, x, txn.txn_id);
    lemma_row_of(parts, x);
    lemma_parts_wf::<K, V>(a.pool, a.root, a.shape@);
    assert(parts_wf::<K>(q)) by {
        assert forall|n: int| 0 <= n < q.len() implies good_bounds::<K>(
            (#[trigger] q[n]).low,
            q[n].high,
        ) by {
            assert(good_bounds::<K>(parts[n].low, parts[n].high));
        }
        assert forall|n: int|
            #![trigger q[n]]
            0 <= n < q.len() - 1 implies q[n].high is Some && q[n + 1].low == q[n].high by {
            assert(parts[n].high is Some && parts[n + 1].low == parts[n].high);
        }
    }
    if i == j {
        crate::index::ops::lemma_mark_rows::<K, V>(
            parts[j].rows,
            parts[j].low,
            parts[j].high,
            slot_of(parts, x),
            txn.txn_id,
        );
    }
}

/// A transaction that has not aborted reads what it updated.
pub proof fn law_update_is_read<K: Key, V: Value>(
    a: BTreeIndex<K, V>,
    k: Seq<u8>,
    v: Seq<u8>,
    txn: Transaction,
    tm: TmView,
    b: BTreeIndex<K, V>,
)
    requires
        !tm.is_aborted(txn.txn_id),
        a.wf(),
        b.wf(),
        canonical::<K>(k),
        canonical::<V>(v),
        txn.txn_id != 0,
        sole::<K>(all_rows(a.parts()), k, txn, tm),
        update_outcome(a, k, v, txn, tm, Ok(()), b),
    ensures
        lookup::<K>(b.parts(), k, txn, tm) == Some(v),
        sole::<K>(all_rows(b.parts()), k, txn, tm),
        all_rows(b.parts()).contains(Version { key: k, val: v, xmin: txn.txn_id, xmax: 0 }),
{
    let i = cover::<K>(a.parts(), k);
    let rows = all_rows(a.parts());
    lemma_can_replace(a, k, v, txn, tm);
    let x = first_visible::<K>(rows, k, txn, tm, 0)->0;
    let q = marked(a.parts(), x, txn.txn_id);
    lemma_marked(a.parts(), x, txn.txn_id);
    lemma_deleted_own::<K>(rows, x, k, txn, tm);
    lemma_put_own::<K, V>(q, i, k, v, txn.txn_id, tm.global_xmin(), txn, tm);
}

/// An update leaves alone what anybody reads of other keys, and what those read of the key
/// who do not see the updating transaction's changes.
pub proof fn law_update_keeps_others<K: Key, V: Value>(
    a: BTreeIndex<K, V>,
    k: Seq<u8>,
    v: Seq<u8>,
    txn: Transaction,
    tm: TmView,
    b: BTreeIndex<K, V>,
    k2: Seq<u8>,
    reader: Transaction,
)
    requires
        a.wf(),
        b.wf(),
        canonical::<K>(k),
        canonical::<V>(v),
        K::accepts(k2),
        txn.txn_id != 0,
        update_outcome(a, k, v, txn, tm, Ok(()), b),
        !key_same::<K>(k, k2) || apart(reader, txn, tm),
        beyond_horizon(reader, tm),
    ensures
        lookup::<K>(b.parts(), k2, reader, tm) == lookup::<K>(a.parts(), k2, reader, tm),
{
    let i = cover::<K>(a.parts(), k);
    let rows = all_rows(a.parts());
    lemma_can_replace(a, k, v, txn, tm);
    let x = first_visible::<K>(rows, k, txn, tm, 0)->0;
    let q = marked(a.parts(), x, txn.txn_id);
    lemma_marked(a.parts(), x, txn.txn_id);
    lemma_row_typed(a, x);
    lemma_deleted_others::<K>(rows, x, k, txn, tm, k2, reader);
    lemma_beyond_horizon(q[i].rows, reader, tm);
    lemma_placed_others::<K, V>(
        q,
        i,
        k,
        v,
        txn.txn_id,
        tm.global_xmin(),
        k2,
        reader,
        tm,
    );
}

/// Vacuum changes nothing of what a reader sees to whom every committed transaction below
/// the horizon had settled, however far the sweep came.
pub proof fn law_vacuum_keeps_reads<K: Key>(
    parts: Seq<Part>,
    n: int,
    k: Seq<u8>,
    reader: Transaction,
    tm: TmView,
)
    requires
        parts_wf::<K>(parts),
        K::accepts(k),
        beyond_horizon(reader, tm),
    ensures
        lookup::<K>(swept(parts, n, tm.global_xmin(), tm), k, reader, tm) == lookup::<K>(
            parts,
            k,
            reader,
            tm,
        ),
{
    let out = swept(parts, n, tm.global_xmin(), tm);
    assert forall|i: int| 0 <= i < out.len() implies seen::<K>(
        (#[trigger] out[i]).rows,
        k,
        reader,
        tm,
    ) == seen::<K>(parts[i].rows, k, reader, tm) by {
        lemma_beyond_horizon(parts[i].rows, reader, tm);
        lemma_seen_kept::<K>(parts[i].rows, tm.global_xmin(), tm, k, reader, tm);
    }
    lemma_lookup_each::<K>(out, parts, k, reader, tm);
}

/// The transaction waits for the other one.
pub open spec fn waits_for(txn_id: u64, blocker: u64) -> bool {
    txn_id != blocker && wait_or_die(IndexError::WaitFor(blocker), txn_id) == IndexError::WaitFor(
        blocker,
    )
}

/// Transactions that wait for each other in a row never form a circle: only an older one
/// waits for a younger one.
pub proof fn law_no_circle_of_waits(row: Seq<u64>)
    requires
        row.len() > 1,
        forall|i: int| 0 <= i < row.len() - 1 ==> waits_for(#[trigger] row[i], row[i + 1]),
    ensures
        row[0] < row.last(),
    decreases row.len(),
{
    let rest = row.drop_last();
    assert(waits_for(row[row.len() - 2], row[row.len() - 2 + 1]));
    if rest.len() > 1 {
        assert forall|i: int| 0 <= i < rest.len() - 1 implies waits_for(
            #[trigger] rest[i],
            rest[i + 1],
        ) by {
            assert(waits_for(row[i], row[i + 1]));
        }
        law_no_circle_of_waits(rest);
    }
}

/// A transaction is never told to wait for itself.
pub proof fn law_no_wait_for_oneself(r: Version, txn: Transaction, tm: TmView)
    ensures
        insert_conflict(r, txn, tm) != Some(IndexError::WaitFor(txn.txn_id)),
        write_conflict(r.xmax, txn, tm) != Some(IndexError::WaitFor(txn.txn_id)),
{
}

/// The leaves of an index, with rows in order.
pub open spec fn parts_sorted<K: Key, V: Value>(parts: Seq<Part>) -> bool {
    &&& parts_wf::<K>(parts)
    &&& forall|i: int|
        0 <= i < parts.len() ==> good_rows::<K, V>(
            (#[trigger] parts[i]).rows,
            parts[i].low,
            parts[i].high,
        )
}

/// Rows in order, from a bound on.
pub open spec fn ordered<K: Key>(rows: Seq<Version>, low: Option<Seq<u8>>) -> bool {
    &&& forall|a: int, b: int| 0 <= a < b < rows.len() ==> K::le(rows[a].key, rows[b].key)
    &&& forall|a: int|
        0 <= a < rows.len() ==> K::accepts((#[trigger] rows[a]).key) && at_least::<K>(
            rows[a].key,
            low,
        )
}

/// The rows of all leaves from one on are in order.
proof fn lemma_rows_from<K: Key, V: Value>(parts: Seq<Part>, i: int)
    requires
        parts_sorted::<K, V>(parts),
        0 <= i < parts.len(),
    ensures
        ordered::<K>(rows_from(parts, i), parts[i].low),
    decreases parts.len() - i,
{
    let here = parts[i].rows;
    let rest = rows_from(parts, i + 1);
    let all = rows_from(parts, i);
    assert(good_rows::<K, V>(here, parts[i].low, parts[i].high));
    assert(good_bounds::<K>(parts[i].low, parts[i].high));
    if i + 1 < parts.len() {
        lemma_rows_from::<K, V>(parts, i + 1);
        assert(parts[i].high is Some && parts[i + 1].low == parts[i].high);
        let h = parts[i].high->0;
        assert forall|a: int| 0 <= a < all.len() implies K::accepts((#[trigger] all[a]).key)
            && at_least::<K>(all[a].key, parts[i].low) by {
            if a < here.len() {
                assert(all[a] == here[a]);
            } else {
                let x = rest[a - here.len()];
                assert(all[a] == x);
                assert(K::le(h, x.key));
                if parts[i].low is Some {
                    lemma_le_chain::<K>(parts[i].low->0, h, x.key);
                }
            }
        }
        assert forall|a: int, b: int| 0 <= a < b < all.len() implies K::le(
            all[a].key,
            all[b].key,
        ) by {
            if b < here.len() {
                assert(K::le(here[a].key, here[b].key));
            } else if a >= here.len() {
                assert(K::le(rest[a - here.len()].key, rest[b - here.len()].key));
            } else {
                let x = rest[b - here.len()];
                assert(all[a] == here[a]);
                assert(K::le(h, x.key));
                lemma_le_chain::<K>(here[a].key, h, x.key);
            }
        }
    } else {
        assert(all =~= here);
    }
}

/// A scan of ordered rows gives exactly those that the transaction sees before the end.
proof fn lemma_scanned<K: Key>(
    rows: Seq<Version>,
    end: KeyBound<Seq<u8>>,
    txn: Transaction,
    tm: TmView,
)
    requires
        ordered::<K>(rows, None),
        edge_typed::<K>(end),
    ensures
        ({
            let out = scanned::<K>(rows, end, txn, tm);
            &&& forall|x: int|
                0 <= x < out.len() ==> from_rows::<K>(rows, #[trigger] out[x], end, txn, tm)
            &&& forall|a: int|
                0 <= a < rows.len() && txn.sees(
                    (#[trigger] rows[a]).xmin,
                    rows[a].xmax,
                    tm,
                ) && before_end::<K>(rows[a].key, end) ==> out.contains((rows[a].key, rows[a].val))
            &&& forall|x: int, y: int|
                0 <= x < y < out.len() ==> K::le((#[trigger] out[x]).0, (#[trigger] out[y]).0)
        }),
    decreases rows.len(),
{
    if rows.len() > 0 {
        let rest = rows.skip(1);
        assert(ordered::<K>(rest, None)) by {
            assert forall|a: int, b: int| 0 <= a < b < rest.len() implies K::le(
                rest[a].key,
                rest[b].key,
            ) by {
                assert(K::le(rows[a + 1].key, rows[b + 1].key));
            }
        }
        lemma_scanned::<K>(rest, end, txn, tm);
        let tail = scanned::<K>(rest, end, txn, tm);
        let out = scanned::<K>(rows, end, txn, tm);
        if !txn.sees(rows[0].xmin, rows[0].xmax, tm) {
            assert forall|x: int| 0 <= x < out.len() implies from_rows::<K>(
                rows,
                #[trigger] out[x],
                end,
                txn,
                tm,
            ) by {
                assert(from_rows::<K>(rest, tail[x], end, txn, tm));
                let a = choose|a: int|
                    0 <= a < rest.len() && #[trigger] given_by::<K>(rest[a], tail[x], end, txn, tm);
                assert(given_by::<K>(rows[a + 1], out[x], end, txn, tm));
            }
            assert forall|a: int|
                0 <= a < rows.len() && txn.sees(
                    (#[trigger] rows[a]).xmin,
                    rows[a].xmax,
                    tm,
                ) && before_end::<K>(rows[a].key, end) implies out.contains(
                (rows[a].key, rows[a].val),
            ) by {
                assert(rest[a - 1] == rows[a]);
            }
        } else if !before_end::<K>(rows[0].key, end) {
            assert forall|a: int|
                0 <= a < rows.len() && txn.sees(
                    (#[trigger] rows[a]).xmin,
                    rows[a].xmax,
                    tm,
                ) && before_end::<K>(rows[a].key, end) implies out.contains(
                (rows[a].key, rows[a].val),
            ) by {
                if a > 0 {
                    assert(K::le(rows[0].key, rows[a].key));
                    match end {
                        KeyBound::Included(e) => {
                            lemma_le_chain::<K>(rows[0].key, rows[a].key, e);
                        },
                        KeyBound::Excluded(e) => {
                            lemma_le_chain::<K>(rows[0].key, rows[a].key, e);
                        },
                        KeyBound::Unbounded => {},
                    }
                }
            }
        } else {
            let first = (rows[0].key, rows[0].val);
            assert(out[0] == first);
            assert forall|x: int| 0 <= x < out.len() implies from_rows::<K>(
                rows,
                #[trigger] out[x],
                end,
                txn,
                tm,
            ) by {
                if x == 0 {
                    assert(given_by::<K>(rows[0], out[0], end, txn, tm));
                } else {
                    assert(from_rows::<K>(rest, tail[x - 1], end, txn, tm));
                    let a = choose|a: int|
                        0 <= a < rest.len() && #[trigger] given_by::<K>(
                            rest[a],
                            tail[x - 1],
                            end,
                            txn,
                            tm,
                        );
                    assert(given_by::<K>(rows[a + 1], out[x], end, txn, tm));
                }
            }
            assert forall|a: int|
                0 <= a < rows.len() && txn.sees(
                    (#[trigger] rows[a]).xmin,
                    rows[a].xmax,
                    tm,
                ) && before_end::<K>(rows[a].key, end) implies out.contains(
                (rows[a].key, rows[a].val),
            ) by {
                if a > 0 {
                    assert(rest[a - 1] == rows[a]);
                    assert(tail.contains((rows[a].key, rows[a].val)));
                    let x = choose|x: int|
                        0 <= x < tail.len() && tail[x] == (rows[a].key, rows[a].val);
                    assert(out[x + 1] == tail[x]);
                }
            }
            assert forall|x: int, y: int| 0 <= x < y < out.len() implies K::le(
                (#[trigger] out[x]).0,
                (#[trigger] out[y]).0,
            ) by {
                assert(out[y] == tail[y - 1]);
                if x > 0 {
                    assert(out[x] == tail[x - 1]);
                } else {
                    assert(from_rows::<K>(rest, tail[y - 1], end, txn, tm));
                    let a = choose|a: int|
                        0 <= a < rest.len() && #[trigger] given_by::<K>(
                            rest[a],
                            tail[y - 1],
                            end,
                            txn,
                            tm,
                        );
                    assert(K::le(rows[0].key, rows[a + 1].key));
                }
            }
        }
    }
}

/// The pair is that of a row that the transaction sees, before the end of the range.
pub open spec fn given_by<K: Key>(
    r: Version,
    pair: (Seq<u8>, Seq<u8>),
    end: KeyBound<Seq<u8>>,
    txn: Transaction,
    tm: TmView,
) -> bool {
    &&& pair == (r.key, r.val)
    &&& txn.sees(r.xmin, r.xmax, tm)
    &&& before_end::<K>(r.key, end)
}

/// The pair is that of one of the rows.
pub open spec fn from_rows<K: Key>(
    rows: Seq<Version>,
    pair: (Seq<u8>, Seq<u8>),
    end: KeyBound<Seq<u8>>,
    txn: Transaction,
    tm: TmView,
) -> bool {
    exists|a: int| 0 <= a < rows.len() && #[trigger] given_by::<K>(rows[a], pair, end, txn, tm)
}

/// The first row of a leaf in a range, and those behind it.
pub proof fn lemma_first_row<K: Key, V: Value>(p: Part, start: KeyBound<Seq<u8>>, s: int)
    requires
        good_rows::<K, V>(p.rows, p.low, p.high),
        edge_typed::<K>(start),
        0 <= s <= p.rows.len(),
    ensures
        s <= first_row::<K>(p.rows, start, s) <= p.rows.len(),
        forall|a: int|
            s <= a < first_row::<K>(p.rows, start, s) ==> !after_start::<K>(
                (#[trigger] p.rows[a]).key,
                start,
            ),
        forall|a: int|
            first_row::<K>(p.rows, start, s) <= a < p.rows.len() ==> after_start::<K>(
                (#[trigger] p.rows[a]).key,
                start,
            ),
    decreases p.rows.len() - s,
{
    if s < p.rows.len() {
        if after_start::<K>(p.rows[s].key, start) {
            assert forall|a: int| s <= a < p.rows.len() implies after_start::<K>(
                (#[trigger] p.rows[a]).key,
                start,
            ) by {
                if a > s {
                    assert(K::le(p.rows[s].key, p.rows[a].key));
                    match start {
                        KeyBound::Included(k) => {
                            lemma_le_chain::<K>(k, p.rows[s].key, p.rows[a].key);
                        },
                        KeyBound::Excluded(k) => {
                            lemma_le_chain::<K>(k, p.rows[s].key, p.rows[a].key);
                        },
                        KeyBound::Unbounded => {},
                    }
                }
            }
        } else {
            lemma_first_row::<K, V>(p, start, s + 1);
        }
    }
}

/// The rows behind a leaf that reaches the start of a range are in the range.
proof fn lemma_behind_start<K: Key, V: Value>(parts: Seq<Part>, i: int, start: KeyBound<Seq<u8>>)
    requires
        parts_sorted::<K, V>(parts),
        edge_typed::<K>(start),
        0 <= i < parts.len() - 1,
        match start {
            KeyBound::Included(k) => at_most::<K>(k, parts[i].high),
            KeyBound::Excluded(k) => under::<K>(k, parts[i].high),
            KeyBound::Unbounded => true,
        },
    ensures
        ({
            let rest = rows_from(parts, i + 1);
            forall|a: int|
                0 <= a < rest.len() ==> after_start::<K>((#[trigger] rest[a]).key, start)
        }),
{
    let rest = rows_from(parts, i + 1);
    lemma_rows_from::<K, V>(parts, i + 1);
    assert(parts[i].high is Some && parts[i + 1].low == parts[i].high);
    assert(good_bounds::<K>(parts[i].low, parts[i].high));
    let h = parts[i].high->0;
    assert forall|a: int| 0 <= a < rest.len() implies after_start::<K>(
        (#[trigger] rest[a]).key,
        start,
    ) by {
        match start {
            KeyBound::Included(k) => {
                lemma_le_chain::<K>(k, h, rest[a].key);
            },
            KeyBound::Excluded(k) => {
                lemma_le_chain::<K>(k, h, rest[a].key);
            },
            KeyBound::Unbounded => {},
        }
    }
}

/// The leaf that a scan begins at reaches the start of the range.
pub proof fn lemma_first_leaf<K: Key, V: Value>(parts: Seq<Part>, start: KeyBound<Seq<u8>>)
    requires
        parts_sorted::<K, V>(parts),
        edge_typed::<K>(start),
    ensures
        ({
            let i = first_leaf::<K>(parts, start);
            &&& 0 <= i < parts.len()
            &&& match start {
                KeyBound::Included(k) => at_most::<K>(k, parts[i].high),
                KeyBound::Excluded(k) => under::<K>(k, parts[i].high),
                KeyBound::Unbounded => true,
            }
        }),
{
    match start {
        KeyBound::Included(k) => {
            let c = cover::<K>(parts, k);
            lemma_covered::<K>(parts, k);
            lemma_run_first::<K>(parts, k, c);
            if parts[c].high is Some {
                assert(good_bounds::<K>(parts[c].low, parts[c].high));
                K::le_total(k, parts[c].high->0);
            }
        },
        KeyBound::Excluded(k) => {
            lemma_covered::<K>(parts, k);
        },
        KeyBound::Unbounded => {},
    }
}

/// The rows that a scan goes over are in order, and none is before the start.
pub proof fn lemma_rows_of_scan<K: Key, V: Value>(parts: Seq<Part>, start: KeyBound<Seq<u8>>)
    requires
        parts_sorted::<K, V>(parts),
        edge_typed::<K>(start),
    ensures
        ({
            let i = first_leaf::<K>(parts, start);
            let rows = rows_behind(parts, i, first_row::<K>(parts[i].rows, start, 0));
            &&& 0 <= i < parts.len()
            &&& ordered::<K>(rows, None)
            &&& forall|a: int|
                0 <= a < rows.len() ==> after_start::<K>((#[trigger] rows[a]).key, start)
        }),
{
    let i = first_leaf::<K>(parts, start);
    lemma_first_leaf::<K, V>(parts, start);
    let here = parts[i].rows;
    let s = first_row::<K>(here, start, 0);
    let all = rows_from(parts, i);
    let rest = rows_from(parts, i + 1);
    let rows = rows_behind(parts, i, s);
    lemma_rows_from::<K, V>(parts, i);
    lemma_first_row::<K, V>(parts[i], start, 0);
    if i + 1 < parts.len() {
        lemma_behind_start::<K, V>(parts, i, start);
    }
    assert(rows =~= all.skip(s));
    assert forall|a: int, b: int| 0 <= a < b < rows.len() implies K::le(
        rows[a].key,
        rows[b].key,
    ) by {
        assert(K::le(all[s + a].key, all[s + b].key));
    }
    assert forall|a: int| 0 <= a < rows.len() implies after_start::<K>(
        (#[trigger] rows[a]).key,
        start,
    ) by {
        if s + a < here.len() {
            assert(rows[a] == here[s + a]);
        } else {
            assert(rows[a] == rest[s + a - here.len()]);
        }
    }
}

/// A row of a leaf is among the rows from an earlier leaf on.
proof fn lemma_among_rows(parts: Seq<Part>, i: int, j: int, r: int)
    requires
        0 <= i <= j < parts.len(),
        0 <= r < parts[j].rows.len(),
    ensures
        rows_from(parts, i).contains(parts[j].rows[r]),
    decreases j - i,
{
    let here = parts[i].rows;
    let rest = rows_from(parts, i + 1);
    let all = rows_from(parts, i);
    if i == j {
        assert(all[r] == here[r]);
    } else {
        lemma_among_rows(parts, i + 1, j, r);
        let x = choose|x: int| 0 <= x < rest.len() && rest[x] == parts[j].rows[r];
        assert(all[here.len() + x] == rest[x]);
    }
}

/// A range scan gives its rows in key order, and only rows of the range.
pub proof fn law_range_is_ordered<K: Key, V: Value>(
    a: BTreeIndex<K, V>,
    start: KeyBound<Seq<u8>>,
    end: KeyBound<Seq<u8>>,
    txn: Transaction,
    tm: TmView,
)
    requires
        a.wf(),
        edge_typed::<K>(start),
        edge_typed::<K>(end),
    ensures
        ({
            let out = range_of::<K>(a.parts(), start, end, txn, tm);
            &&& forall|x: int, y: int|
                0 <= x < y < out.len() ==> K::le((#[trigger] out[x]).0, (#[trigger] out[y]).0)
            &&& forall|x: int|
                0 <= x < out.len() ==> after_start::<K>((#[trigger] out[x]).0, start)
                    && before_end::<K>(out[x].0, end)
        }),
{
    let parts = a.parts();
    lemma_parts_wf::<K, V>(a.pool, a.root, a.shape@);
    lemma_rows_of_scan::<K, V>(parts, start);
    let i = first_leaf::<K>(parts, start);
    let rows = rows_behind(parts, i, first_row::<K>(parts[i].rows, start, 0));
    lemma_scanned::<K>(rows, end, txn, tm);
    let out = range_of::<K>(parts, start, end, txn, tm);
    assert forall|x: int| 0 <= x < out.len() implies after_start::<K>(
        (#[trigger] out[x]).0,
        start,
    ) && before_end::<K>(out[x].0, end) by {
        assert(from_rows::<K>(rows, out[x], end, txn, tm));
        let r = choose|r: int|
            0 <= r < rows.len() && #[trigger] given_by::<K>(rows[r], out[x], end, txn, tm);
        assert(after_start::<K>(rows[r].key, start));
    }
}

/// A range scan finds what a search finds: every key of the range that the transaction can
/// read is in it, with the value that the transaction reads.
pub proof fn law_range_finds_what_get_finds<K: Key, V: Value>(
    a: BTreeIndex<K, V>,
    start: KeyBound<Seq<u8>>,
    end: KeyBound<Seq<u8>>,
    txn: Transaction,
    tm: TmView,
    k: Seq<u8>,
) -> (key: Seq<u8>)
    requires
        a.wf(),
        edge_typed::<K>(start),
        edge_typed::<K>(end),
        K::accepts(k),
        after_start::<K>(k, start),
        before_end::<K>(k, end),
        lookup::<K>(a.parts(), k, txn, tm) is Some,
    ensures
        key_same::<K>(key, k),
        range_of::<K>(a.parts(), start, end, txn, tm).contains(
            (key, lookup::<K>(a.parts(), k, txn, tm)->0),
        ),
{
    let parts = a.parts();
    lemma_parts_wf::<K, V>(a.pool, a.root, a.shape@);
    lemma_rows_of_scan::<K, V>(parts, start);
    let i = first_leaf::<K>(parts, start);
    let all = all_rows(parts);
    lemma_first_visible::<K>(all, k, txn, tm, 0);
    let y = first_visible::<K>(all, k, txn, tm, 0)->0;
    lemma_row_of(parts, y);
    let c = leaf_of(parts, y);
    let r = slot_of(parts, y);
    let s = first_row::<K>(parts[i].rows, start, 0);
    let rows = rows_behind(parts, i, s);
    let row = parts[c].rows[r];
    assert(good_rows::<K, V>(parts[c].rows, parts[c].low, parts[c].high));
    assert(K::accepts(row.key));
    lemma_same_side::<K>(row.key, k, start, end);
    if c < i {
        match start {
            KeyBound::Included(x) => {
                lemma_covered::<K>(parts, x);
                lemma_before_run::<K, V>(parts, x, cover::<K>(parts, x));
                let some = parts.take(i);
                assert(some[c] == parts[c]);
                lemma_row_at(some, c, r);
                let z = row_count(some, c) + r;
                assert(all_rows(some)[z] == row);
            },
            KeyBound::Excluded(x) => {
                lemma_covered::<K>(parts, x);
                lemma_bounds_ordered::<K>(parts, c, i);
                assert(good_bounds::<K>(parts[c].low, parts[c].high));
                K::le_total(x, row.key);
                lemma_le_chain::<K>(parts[c].high->0, parts[i].low->0, x);
                lemma_le_chain::<K>(row.key, parts[c].high->0, x);
            },
            KeyBound::Unbounded => {},
        }
    }
    lemma_first_row::<K, V>(parts[i], start, 0);
    if c == i {
        assert(rows[r - s] == row);
    } else {
        lemma_among_rows(parts, i + 1, c, r);
        let rest = rows_from(parts, i + 1);
        let x = choose|x: int| 0 <= x < rest.len() && rest[x] == row;
        assert(rows[parts[i].rows.len() - s + x] == row);
    }
    lemma_scanned::<K>(rows, end, txn, tm);
    row.key
}

/// Equal keys are on the same side of every bound.
proof fn lemma_same_side<K: Key>(
    x: Seq<u8>,
    k: Seq<u8>,
    start: KeyBound<Seq<u8>>,
    end: KeyBound<Seq<u8>>,
)
    requires
        K::accepts(x),
        K::accepts(k),
        key_same::<K>(x, k),
        edge_typed::<K>(start),
        edge_typed::<K>(end),
        after_start::<K>(k, start),
        before_end::<K>(k, end),
    ensures
        after_start::<K>(x, start),
        before_end::<K>(x, end),
{
    match start {
        KeyBound::Included(b) => {
            lemma_le_chain::<K>(b, k, x);
        },
        KeyBound::Excluded(b) => {
            lemma_le_chain::<K>(b, k, x);
        },
        KeyBound::Unbounded => {},
    }
    match end {
        KeyBound::Included(b) => {
            lemma_le_chain::<K>(x, k, b);
        },
        KeyBound::Excluded(b) => {
            lemma_le_chain::<K>(x, k, b);
        },
        KeyBound::Unbounded => {},
    }
}

} // verus!
