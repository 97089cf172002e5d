//! What scans, sweeps and writes answer, told by the rows that there are.

use crate::constants::{MAX_KEY_SIZE, MAX_VALUE_SIZE};
use crate::error::{IndexError, PageError};
use crate::index::flat::{
    all_rows, leaf_of, lemma_around, lemma_row_of, slot_of,
};
use crate::index::laws::{
    can_put, lemma_base, lemma_can_put, lemma_covered, lemma_first_leaf, lemma_first_row,
    lemma_rows_of_scan, ordered, parts_sorted,
};
use crate::index::ops::{insert_outcome, update_outcome};
use crate::index::range::{
    edge_typed, first_leaf, first_row, range_of, rows_behind, rows_from, scanned, KeyBound,
};
use crate::index::rows::{
    first_conflict, insert_conflict, left_of, lemma_empty_has_room, lemma_halves, lemma_kept_rows,
    placed, right_of, room, split_point, vacuumed,
};
use crate::index::run::lemma_before_run;
use crate::index::smo::uneven;
use crate::index::tree::{
    good_bounds, good_key, good_rows, lemma_bounds_ordered, lemma_le_chain, lemma_parts_wf, Part,
};
use crate::index::vacuum::{removed, swept, vacuum_outcome};
use crate::index::{cover, BTreeIndex};
use crate::page::leaf::{
    kept_rows, law_compaction_keeps_the_rest, lemma_kept_bytes, lemma_rows_bytes_positive,
    packed_room, Version,
};
use crate::transaction::Transaction;
use crate::transaction_manager::{TmView, TransactionStatus};
use crate::types::{canonical, key_same, Key, Value};
use vstd::prelude::*;

verus! {

/// The rows of the leaves from leaf `i` on.
proof fn lemma_rows_from_are_all(parts: Seq<Part>, i: int)
    requires
        0 <= i <= parts.len(),
    ensures
        rows_from(parts, i) == all_rows(parts.skip(i)),
    decreases parts.len() - i,
{
    let rest = parts.skip(i);
    if i < parts.len() {
        lemma_rows_from_are_all(parts, i + 1);
        lemma_around(rest, 0);
        assert(rest.skip(1) =~= parts.skip(i + 1));
        assert(rest.take(0) =~= Seq::<Part>::empty());
        assert(all_rows(rest.take(0)) =~= Seq::<Version>::empty());
        assert(all_rows(rest) =~= rest[0].rows + all_rows(rest.skip(1)));
    } else {
        assert(rest =~= Seq::<Part>::empty());
        assert(all_rows(rest) =~= Seq::<Version>::empty());
    }
}

/// A row less at the front.
proof fn lemma_filter_front(rows: Seq<Version>, f: spec_fn(Version) -> bool)
    requires
        rows.len() > 0,
    ensures
        rows.filter(f) == (if f(rows[0]) {
            seq![rows[0]] + rows.skip(1).filter(f)
        } else {
            rows.skip(1).filter(f)
        }),
{
    let one = seq![rows[0]];
    assert(one + rows.skip(1) =~= rows);
    Seq::filter_distributes_over_add(one, rows.skip(1), f);
    reveal_with_fuel(Seq::filter, 2);
    assert(one.drop_last() =~= Seq::<Version>::empty());
    if f(rows[0]) {
        assert(one.filter(f) =~= one);
    } else {
        assert(one.filter(f) =~= Seq::<Version>::empty());
        assert(one.filter(f) + rows.skip(1).filter(f) =~= rows.skip(1).filter(f));
    }
}

/// Rows none of which qualifies.
proof fn lemma_filter_none(rows: Seq<Version>, f: spec_fn(Version) -> bool)
    requires
        forall|i: int| 0 <= i < rows.len() ==> !f(#[trigger] rows[i]),
    ensures
        rows.filter(f) == Seq::<Version>::empty(),
    decreases rows.len(),
{
    reveal(Seq::filter);
    if rows.len() > 0 {
        let init = rows.drop_last();
        assert forall|i: int| 0 <= i < init.len() implies !f(#[trigger] init[i]) by {
            assert(init[i] == rows[i]);
        }
        lemma_filter_none(init, f);
        assert(!f(rows[rows.len() - 1]));
    }
}

/// Two ways to choose that agree on every row.
proof fn lemma_filter_same(
    rows: Seq<Version>,
    f: spec_fn(Version) -> bool,
    g: spec_fn(Version) -> bool,
)
    requires
        forall|i: int| 0 <= i < rows.len() ==> f(#[trigger] rows[i]) == g(rows[i]),
    ensures
        rows.filter(f) == rows.filter(g),
    decreases rows.len(),
{
    reveal(Seq::filter);
    if rows.len() > 0 {
        let init = rows.drop_last();
        assert forall|i: int| 0 <= i < init.len() implies f(#[trigger] init[i]) == g(init[i]) by {
            assert(init[i] == rows[i]);
        }
        lemma_filter_same(init, f, g);
        assert(f(rows[rows.len() - 1]) == g(rows[rows.len() - 1]));
    }
}

/// A scan of ordered rows stops at the first that is behind the end, and so leaves out no row
/// that is not.
proof fn lemma_scan_is_filter<K: Key>(
    rows: Seq<Version>,
    end: KeyBound<Seq<u8>>,
    txn: Transaction,
    tm: TmView,
)
    requires
        ordered::<K>(rows, None),
        edge_typed::<K>(end),
    ensures
        scanned::<K>(rows, end, txn, tm) == rows.filter(
            |r: Version|
                txn.sees(r.xmin, r.xmax, tm) && (match end {
                    KeyBound::Included(e) => K::le(r.key, e),
                    KeyBound::Excluded(e) => !K::le(e, r.key),
                    KeyBound::Unbounded => true,
                }),
        ).map_values(|r: Version| (r.key, r.val)),
    decreases rows.len(),
{
    let f = |r: Version|
        txn.sees(r.xmin, r.xmax, tm) && (match end {
            KeyBound::Included(e) => K::le(r.key, e),
            KeyBound::Excluded(e) => !K::le(e, r.key),
            KeyBound::Unbounded => true,
        });
    let pair = |r: Version| (r.key, r.val);
    if rows.len() > 0 {
        let rest = rows.skip(1);
        assert(ordered::<K>(rest, None)) by {
            assert forall|a: int, b: int| 0 <= a < b < rest.len() implies K::le(
                rest[a].key,
                rest[b].key,
            ) by {
                assert(K::le(rows[a + 1].key, rows[b + 1].key));
            }
        }
        lemma_scan_is_filter::<K>(rest, end, txn, tm);
        lemma_filter_front(rows, f);
        if txn.sees(rows[0].xmin, rows[0].xmax, tm) && !f(rows[0]) {
            assert forall|a: int| 0 <= a < rows.len() implies !f(#[trigger] rows[a]) by {
                if a > 0 {
                    assert(K::le(rows[0].key, rows[a].key));
                    match end {
                        KeyBound::Included(e) => {
                            if K::le(rows[a].key, e) {
                                lemma_le_chain::<K>(rows[0].key, rows[a].key, e);
                            }
                        },
                        KeyBound::Excluded(e) => {
                            lemma_le_chain::<K>(e, rows[0].key, rows[a].key);
                        },
                        KeyBound::Unbounded => {},
                    }
                }
            }
            lemma_filter_none(rows, f);
            assert(rows.filter(f).map_values(pair) =~= Seq::empty());
        } else if f(rows[0]) {
            assert(rows.filter(f).map_values(pair) =~= seq![(rows[0].key, rows[0].val)]
                + rest.filter(f).map_values(pair));
        }
    } else {
        lemma_filter_none(rows, f);
        assert(rows.filter(f).map_values(pair) =~= Seq::empty());
    }
}

/// The rows before the place where a scan begins are before the start of the range.
proof fn lemma_skipped_by_scan<K: Key, V: Value>(
    parts: Seq<Part>,
    start: KeyBound<Seq<u8>>,
    x: int,
)
    requires
        parts_sorted::<K, V>(parts),
        edge_typed::<K>(start),
        0 <= x < all_rows(parts.take(first_leaf::<K>(parts, start))).len(),
    ensures
        ({
            let r = all_rows(parts.take(first_leaf::<K>(parts, start)))[x];
            match start {
                KeyBound::Included(s) => !K::le(s, r.key),
                KeyBound::Excluded(s) => K::le(r.key, s),
                KeyBound::Unbounded => false,
            }
        }),
{
    let i = first_leaf::<K>(parts, start);
    let some = parts.take(i);
    lemma_first_leaf::<K, V>(parts, start);
    match start {
        KeyBound::Included(s) => {
            lemma_covered::<K>(parts, s);
            lemma_before_run::<K, V>(parts, s, cover::<K>(parts, s));
        },
        KeyBound::Excluded(s) => {
            lemma_covered::<K>(parts, s);
            lemma_row_of(some, x);
            let c = leaf_of(some, x);
            let row = parts[c].rows[slot_of(some, x)];
            assert(some[c] == parts[c]);
            assert(good_rows::<K, V>(parts[c].rows, parts[c].low, parts[c].high));
            assert(good_bounds::<K>(parts[c].low, parts[c].high));
            assert(good_bounds::<K>(parts[i].low, parts[i].high));
            lemma_bounds_ordered::<K>(parts, c, i);
            lemma_le_chain::<K>(parts[c].high->0, parts[i].low->0, s);
            lemma_le_chain::<K>(row.key, parts[c].high->0, s);
        },
        KeyBound::Unbounded => {
            assert(some =~= Seq::<Part>::empty());
        },
    }
}

/// A range scan gives the rows of all leaves, in their order, that the transaction sees and whose
/// keys are in the range: not below an included start, above an excluded one, not above an
/// included end, and below an excluded one.
pub proof fn law_range_is_what_is_seen_of_it<K: Key, V: Value>(
    a: BTreeIndex<K, V>,
    start: KeyBound<Seq<u8>>,
    end: KeyBound<Seq<u8>>,
    txn: Transaction,
    tm: TmView,
)
    requires
        a.wf(),
        edge_typed::<K>(start),
        edge_typed::<K>(end),
    ensures
        range_of::<K>(a.parts(), start, end, txn, tm) == all_rows(a.parts()).filter(
            |r: Version|
                txn.sees(r.xmin, r.xmax, tm) && (match start {
                    KeyBound::Included(s) => K::le(s, r.key),
                    KeyBound::Excluded(s) => !K::le(r.key, s),
                    KeyBound::Unbounded => true,
                }) && (match end {
                    KeyBound::Included(e) => K::le(r.key, e),
                    KeyBound::Excluded(e) => !K::le(e, r.key),
                    KeyBound::Unbounded => true,
                }),
        ).map_values(|r: Version| (r.key, r.val)),
{
    let f = |r: Version|
        txn.sees(r.xmin, r.xmax, tm) && (match start {
            KeyBound::Included(s) => K::le(s, r.key),
            KeyBound::Excluded(s) => !K::le(r.key, s),
            KeyBound::Unbounded => true,
        }) && (match end {
            KeyBound::Included(e) => K::le(r.key, e),
            KeyBound::Excluded(e) => !K::le(e, r.key),
            KeyBound::Unbounded => true,
        });
    let g = |r: Version|
        txn.sees(r.xmin, r.xmax, tm) && (match end {
            KeyBound::Included(e) => K::le(r.key, e),
            KeyBound::Excluded(e) => !K::le(e, r.key),
            KeyBound::Unbounded => true,
        });
    let parts = a.parts();
    lemma_parts_wf::<K, V>(a.pool, a.root, a.shape@);
    lemma_rows_of_scan::<K, V>(parts, start);
    let i = first_leaf::<K>(parts, start);
    let here = parts[i].rows;
    let s = first_row::<K>(here, start, 0);
    let rows = rows_behind(parts, i, s);
    lemma_first_row::<K, V>(parts[i], start, 0);
    lemma_scan_is_filter::<K>(rows, end, txn, tm);
    lemma_around(parts, i);
    lemma_rows_from_are_all(parts, i + 1);
    let left = all_rows(parts.take(i));
    let mid = here.take(s);
    assert(here =~= mid + here.skip(s));
    assert(all_rows(parts) =~= left + mid + rows);
    assert forall|x: int| 0 <= x < left.len() implies !f(#[trigger] left[x]) by {
        lemma_skipped_by_scan::<K, V>(parts, start, x);
    }
    assert forall|x: int| 0 <= x < mid.len() implies !f(#[trigger] mid[x]) by {
        assert(mid[x] == here[x]);
    }
    lemma_filter_none(left, f);
    lemma_filter_none(mid, f);
    assert forall|x: int| 0 <= x < rows.len() implies f(#[trigger] rows[x]) == g(rows[x]) by {}
    lemma_filter_same(rows, f, g);
    Seq::filter_distributes_over_add(left + mid, rows, f);
    Seq::filter_distributes_over_add(left, mid, f);
    assert(all_rows(parts).filter(f) =~= rows.filter(g));
}

/// Every pair that a range scan gives has its key in the range.
pub proof fn law_range_keeps_its_bounds<K: Key, V: Value>(
    a: BTreeIndex<K, V>,
    start: KeyBound<Seq<u8>>,
    end: KeyBound<Seq<u8>>,
    txn: Transaction,
    tm: TmView,
    x: int,
)
    requires
        a.wf(),
        edge_typed::<K>(start),
        edge_typed::<K>(end),
        0 <= x < range_of::<K>(a.parts(), start, end, txn, tm).len(),
    ensures
        ({
            let (k, v) = range_of::<K>(a.parts(), start, end, txn, tm)[x];
            &&& start matches KeyBound::Included(s) ==> K::le(s, k)
            &&& start matches KeyBound::Excluded(s) ==> !K::le(k, s)
            &&& end matches KeyBound::Included(e) ==> K::le(k, e)
            &&& end matches KeyBound::Excluded(e) ==> !K::le(e, k)
        }),
{
    law_range_is_what_is_seen_of_it::<K, V>(a, start, end, txn, tm);
    let f = |r: Version|
        txn.sees(r.xmin, r.xmax, tm) && (match start {
            KeyBound::Included(s) => K::le(s, r.key),
            KeyBound::Excluded(s) => !K::le(r.key, s),
            KeyBound::Unbounded => true,
        }) && (match end {
            KeyBound::Included(e) => K::le(r.key, e),
            KeyBound::Excluded(e) => !K::le(e, r.key),
            KeyBound::Unbounded => true,
        });
    all_rows(a.parts()).lemma_filter_pred(f, x);
}

/// The rows that a leaf keeps.
proof fn lemma_kept_is_filter(rows: Seq<Version>, horizon: u64, tm: TmView)
    ensures
        kept_rows(rows, horizon, tm) == rows.filter(
            |r: Version| !crate::transaction::vacuumable(r.xmin, r.xmax, horizon, tm),
        ),
    decreases rows.len(),
{
    reveal(Seq::filter);
    if rows.len() > 0 {
        lemma_kept_is_filter(rows.drop_last(), horizon, tm);
    } else {
        assert(kept_rows(rows, horizon, tm) =~= rows);
    }
}

/// The rows of leaves that were swept, and how many there were more.
proof fn lemma_swept_is_filter(parts: Seq<Part>, horizon: u64, tm: TmView)
    ensures
        ({
            let out = swept(parts, parts.len() as int, horizon, tm);
            &&& all_rows(out) == all_rows(parts).filter(
                |r: Version| !crate::transaction::vacuumable(r.xmin, r.xmax, horizon, tm),
            )
            &&& removed(parts, parts.len() as int, horizon, tm) == all_rows(parts).len() - all_rows(
                out,
            ).len()
        }),
    decreases parts.len(),
{
    let f = |r: Version| !crate::transaction::vacuumable(r.xmin, r.xmax, horizon, tm);
    let n = parts.len() as int;
    let out = swept(parts, n, horizon, tm);
    if n > 0 {
        let init = parts.drop_last();
        lemma_swept_is_filter(init, horizon, tm);
        lemma_kept_is_filter(parts.last().rows, horizon, tm);
        assert(out.drop_last() =~= swept(init, n - 1, horizon, tm));
        Seq::filter_distributes_over_add(all_rows(init), parts.last().rows, f);
        lemma_removed_of_front(parts, n - 1, horizon, tm);
    } else {
        lemma_filter_none(all_rows(parts), f);
        assert(all_rows(out) =~= Seq::<Version>::empty());
    }
}

/// The last leaf makes no difference to those before it.
proof fn lemma_removed_of_front(parts: Seq<Part>, m: int, horizon: u64, tm: TmView)
    requires
        0 <= m < parts.len(),
    ensures
        removed(parts, m, horizon, tm) == removed(parts.drop_last(), m, horizon, tm),
    decreases m,
{
    if m > 0 {
        lemma_removed_of_front(parts, m - 1, horizon, tm);
        assert(parts.drop_last()[m - 1] == parts[m - 1]);
    }
}

/// A vacuum that succeeds tells how many rows there are less.
pub proof fn law_vacuum_counts_what_goes<K: Key, V: Value>(
    a: BTreeIndex<K, V>,
    tm: TmView,
    n: usize,
    b: BTreeIndex<K, V>,
    after: TmView,
)
    requires
        vacuum_outcome(a, tm, Ok(n), b, after),
    ensures
        ({
            let less = all_rows(a.parts()).len() - all_rows(b.parts()).len();
            &&& 0 <= less
            &&& less < usize::MAX ==> n == less
            &&& less >= usize::MAX ==> n == usize::MAX
        }),
{
    let f = |r: Version| !crate::transaction::vacuumable(r.xmin, r.xmax, tm.global_xmin(), tm);
    lemma_swept_is_filter(a.parts(), tm.global_xmin(), tm);
    all_rows(a.parts()).lemma_filter_len(f);
}

/// A vacuum that succeeds leaves, in their order, the rows whose creator has not aborted and
/// that were not deleted by a transaction that committed and is older than every active one. It
/// leaves the transactions as they were, and remembers how far it looked.
pub proof fn law_vacuum_leaves_the_living<K: Key, V: Value>(
    a: BTreeIndex<K, V>,
    tm: TmView,
    n: usize,
    b: BTreeIndex<K, V>,
    after: TmView,
)
    requires
        tm.wf(),
        vacuum_outcome(a, tm, Ok(n), b, after),
    ensures
        all_rows(b.parts()) == all_rows(a.parts()).filter(
            |r: Version|
                !(r.xmin != 0 && tm.clog.contains_key(r.xmin) && tm.clog[r.xmin]
                    == TransactionStatus::Aborted) && !(r.xmax != 0 && r.xmax < tm.next && (forall|
                    i: int,
                |
                    0 <= i < tm.active.len() ==> r.xmax < #[trigger] tm.active[i]) && (
                tm.clog.contains_key(r.xmax) ==> tm.clog[r.xmax] == TransactionStatus::Committed)),
        ),
        after.next == tm.next,
        after.active == tm.active,
        after.clog == tm.clog,
        after.swept >= tm.swept,
        forall|i: int| 0 <= i < tm.active.len() ==> after.swept <= #[trigger] tm.active[i]
            || after.swept == tm.swept,
        tm.active.len() > 0 ==> after.swept >= tm.active[0],
        tm.active.len() == 0 ==> after.swept >= tm.next,
{
    let rows = all_rows(a.parts());
    let f = |r: Version| !crate::transaction::vacuumable(r.xmin, r.xmax, tm.global_xmin(), tm);
    let g = |r: Version|
        !(r.xmin != 0 && tm.clog.contains_key(r.xmin) && tm.clog[r.xmin]
            == TransactionStatus::Aborted) && !(r.xmax != 0 && r.xmax < tm.next && (forall|i: int|
            0 <= i < tm.active.len() ==> r.xmax < #[trigger] tm.active[i]) && (
        tm.clog.contains_key(r.xmax) ==> tm.clog[r.xmax] == TransactionStatus::Committed));
    lemma_swept_is_filter(a.parts(), tm.global_xmin(), tm);
    crate::transaction_manager::law_global_xmin_is_oldest(tm);
    assert forall|x: int| 0 <= x < rows.len() implies f(#[trigger] rows[x]) == g(rows[x]) by {
        let r = rows[x];
        if r.xmin != 0 {
            crate::transaction::law_vacuumable_is_dead(r.xmin, r.xmax, tm);
        } else {
            crate::transaction_manager::law_system_has_committed(tm);
        }
    }
    lemma_filter_same(rows, f, g);
}

/// What forbids to insert a key is one of its versions, and where nothing does, none of them
/// would.
pub proof fn lemma_first_conflict<K: Key>(
    rows: Seq<Version>,
    k: Seq<u8>,
    txn: Transaction,
    tm: TmView,
    i: int,
)
    requires
        0 <= i <= rows.len(),
    ensures
        match first_conflict::<K>(rows, k, txn, tm, i) {
            Some(c) => (c is WaitFor || c is DuplicateKey) && exists|x: int|
                i <= x < rows.len() && key_same::<K>((#[trigger] rows[x]).key, k)
                    && insert_conflict(rows[x], txn, tm) == Some(c),
            None => forall|x: int|
                i <= x < rows.len() && key_same::<K>((#[trigger] rows[x]).key, k)
                    ==> insert_conflict(rows[x], txn, tm) is None,
        },
    decreases rows.len() - i,
{
    if i < rows.len() {
        lemma_first_conflict::<K>(rows, k, txn, tm, i + 1);
        if key_same::<K>(rows[i].key, k) && insert_conflict(rows[i], txn, tm) is Some {
            assert(insert_conflict(rows[i], txn, tm) == first_conflict::<K>(rows, k, txn, tm, i));
        }
    }
}

/// An insertion is refused for the length of its key exactly where the key is longer than the
/// error says that keys may be, and for the length of its value likewise; and then nothing
/// changes.
pub proof fn law_insert_keeps_to_the_limits<K: Key, V: Value>(
    a: BTreeIndex<K, V>,
    k: Seq<u8>,
    v: Seq<u8>,
    txn: Transaction,
    tm: TmView,
    r: Result<(), IndexError>,
    b: BTreeIndex<K, V>,
)
    requires
        insert_outcome(a, k, v, txn, tm, r, b),
        k.len() <= usize::MAX,
        v.len() <= usize::MAX,
    ensures
        r matches Err(IndexError::KeyTooLarge { size, max }) ==> size == k.len() && size > max
            && max == MAX_KEY_SIZE && b == a,
        r matches Err(IndexError::ValueTooLarge { size, max }) ==> size == v.len() && size > max
            && max == MAX_VALUE_SIZE && b == a,
        k.len() > MAX_KEY_SIZE ==> r is Err && r->Err_0 is KeyTooLarge,
        k.len() <= MAX_KEY_SIZE && v.len() > MAX_VALUE_SIZE ==> r is Err
            && r->Err_0 is ValueTooLarge,
        r is Err && r->Err_0 is KeyTooLarge <==> k.len() > 512,
        r is Err && r->Err_0 is ValueTooLarge <==> k.len() <= 512 && v.len() > 1024,
{
    lemma_first_conflict::<K>(all_rows(a.parts()), k, txn, tm, 0);
}

/// The same of an update.
pub proof fn law_update_keeps_to_the_limits<K: Key, V: Value>(
    a: BTreeIndex<K, V>,
    k: Seq<u8>,
    v: Seq<u8>,
    txn: Transaction,
    tm: TmView,
    r: Result<(), IndexError>,
    b: BTreeIndex<K, V>,
)
    requires
        update_outcome(a, k, v, txn, tm, r, b),
        k.len() <= usize::MAX,
        v.len() <= usize::MAX,
    ensures
        r matches Err(IndexError::KeyTooLarge { size, max }) ==> size == k.len() && size > max
            && max == MAX_KEY_SIZE && b == a,
        r matches Err(IndexError::ValueTooLarge { size, max }) ==> size == v.len() && size > max
            && max == MAX_VALUE_SIZE && b == a,
        k.len() > MAX_KEY_SIZE ==> r is Err && r->Err_0 is KeyTooLarge,
        k.len() <= MAX_KEY_SIZE && v.len() > MAX_VALUE_SIZE ==> r is Err
            && r->Err_0 is ValueTooLarge,
        r is Err && r->Err_0 is KeyTooLarge <==> k.len() > 512,
        r is Err && r->Err_0 is ValueTooLarge <==> k.len() <= 512 && v.len() > 1024,
{
}

/// The room of a leaf is at most a page.
proof fn lemma_room_fits(p: Part)
    requires
        0 <= room(p),
    ensures
        room(p) <= usize::MAX,
        (room(p) as usize) == room(p),
{
    lemma_rows_bytes_positive(p.rows);
}

/// The row has no room on the leaf without the rows that vacuum may remove, nor on the half of it
/// that the row's key belongs to: the rows before the split where the key is before the key there,
/// else the others. A leaf is not split at the empty key.
pub open spec fn half_is_full<K: Key>(
    p: Part,
    k: Seq<u8>,
    need: int,
    horizon: u64,
    tm: TmView,
) -> bool {
    let kept = p.rows.filter(
        |r: Version| !crate::transaction::vacuumable(r.xmin, r.xmax, horizon, tm),
    );
    let m = split_point::<K>(kept);
    let sep = kept[m].key;
    &&& kept.len() > 0
    &&& packed_room(p.high, kept) < need
    &&& {
        ||| sep.len() == 0
        ||| !K::le(sep, k) && packed_room(Some(sep), kept.take(m)) < need
        ||| K::le(sep, k) && packed_room(p.high, kept.skip(m)) < need
    }
}

/// Why a leaf cannot take a row, not even when it is split.
proof fn lemma_no_room<K: Key, V: Value>(
    parts: Seq<Part>,
    i: int,
    k: Seq<u8>,
    v: Seq<u8>,
    txn_id: u64,
    horizon: u64,
    tm: TmView,
    e: PageError,
)
    requires
        can_put::<K, V>(parts, i, parts[i], k, v),
        placed::<K>(parts[i], k, v, txn_id, horizon, tm).1 == Some(e),
    ensures
        ({
            let p = parts[i];
            let need = 28 + k.len() + k.len() % 2 + v.len() + v.len() % 2;
            &&& e matches PageError::InsufficientSpace { needed, available } && needed == need
                && available < need
            &&& p.rows.len() > 0
            &&& packed_room(p.high, p.rows) < need
            &&& half_is_full::<K>(p, k, need as int, horizon, tm)
        }),
{
    let p = parts[i];
    law_compaction_keeps_the_rest(p.rows, horizon, tm);
    let base = vacuumed(p, horizon, tm);
    let m = split_point::<K>(base.rows);
    assert(good_bounds::<K>(p.low, p.high));
    lemma_base::<K, V>(parts, i, p, k, v, horizon, tm);
    if p.rows.len() == 0 {
        lemma_empty_has_room::<K>(p, k, v);
    }
    lemma_kept_bytes(p.rows, horizon, tm);
    if base.rows.len() == p.rows.len() {
        lemma_kept_rows::<K, V>(p.rows, p.low, p.high, horizon, tm);
    }
    lemma_halves::<K, V>(base, m);
    lemma_room_fits(base);
    lemma_room_fits(left_of(base, m));
    lemma_room_fits(right_of(base, m));
}

/// A page that cannot take a row says how many bytes the row needs and how many it has: fewer.
/// The leaf of the key held rows before, and had no room for one more, not even once the rows were
/// gone that may be removed and it was split.
pub proof fn law_insert_fails_for_want_of_room<K: Key, V: Value>(
    a: BTreeIndex<K, V>,
    k: Seq<u8>,
    v: Seq<u8>,
    txn: Transaction,
    tm: TmView,
    e: PageError,
    b: BTreeIndex<K, V>,
)
    requires
        a.wf(),
        good_key::<K>(k),
        canonical::<V>(v),
        v.len() <= MAX_VALUE_SIZE,
        insert_outcome(a, k, v, txn, tm, Err(IndexError::Page(e)), b),
        !uneven::<K>(b.pool, b.shape@),
    ensures
        ({
            let p = a.parts()[cover::<K>(a.parts(), k)];
            let need = 28 + k.len() + k.len() % 2 + v.len() + v.len() % 2;
            &&& e matches PageError::InsufficientSpace { needed, available } && needed == need
                && available < need
            &&& p.rows.len() > 0
            &&& packed_room(p.high, p.rows) < need
            &&& half_is_full::<K>(p, k, need as int, tm.global_xmin(), tm)
        }),
{
    let i = cover::<K>(a.parts(), k);
    lemma_first_conflict::<K>(all_rows(a.parts()), k, txn, tm, 0);
    lemma_can_put(a, k, v);
    lemma_no_room::<K, V>(a.parts(), i, k, v, txn.txn_id, tm.global_xmin(), tm, e);
}

} // verus!
