//! What an operation does to the rows of a leaf.

use crate::constants::{MAX_KEY_SIZE, MAX_VALUE_SIZE};
use crate::error::{IndexError, PageError};
use crate::index::tree::{at_least, at_most, good_key, good_rows, lemma_le_chain, under, Part};
use crate::page::leaf::{
    kept_rows, lemma_kept_bytes, lemma_rows_bytes_concat, lemma_rows_bytes_edit,
    lemma_rows_bytes_one, lemma_rows_bytes_positive, lemma_search, packed_room, row_need, search,
    Version,
};
use crate::transaction::Transaction;
use crate::transaction_manager::{TmView, TransactionStatus};
use crate::types::{canonical, key_before, key_same, Key, Value};
use vstd::prelude::*;

verus! {

/// The row is a version of the key, and the transaction sees it.
pub open spec fn shows<K: Key>(r: Version, k: Seq<u8>, txn: Transaction, tm: TmView) -> bool {
    key_same::<K>(r.key, k) && txn.sees(r.xmin, r.xmax, tm)
}

/// The first version of the key from row `i` on that the transaction sees.
pub open spec fn first_visible<K: Key>(
    rows: Seq<Version>,
    k: Seq<u8>,
    txn: Transaction,
    tm: TmView,
    i: int,
) -> Option<int>
    decreases rows.len() - i,
{
    if i < 0 || i >= rows.len() {
        None
    } else if shows::<K>(rows[i], k, txn, tm) {
        Some(i)
    } else {
        first_visible::<K>(rows, k, txn, tm, i + 1)
    }
}

/// The value of the version of the key that the transaction sees.
pub open spec fn seen<K: Key>(rows: Seq<Version>, k: Seq<u8>, txn: Transaction, tm: TmView) -> Option<
    Seq<u8>,
> {
    match first_visible::<K>(rows, k, txn, tm, 0) {
        Some(i) => Some(rows[i].val),
        None => None,
    }
}

/// The version was created and not deleted, as far as is known by now, whenever the
/// transaction began.
pub open spec fn live_now(r: Version, txn: Transaction, tm: TmView) -> bool {
    &&& tm.status(r.xmin) == TransactionStatus::Committed
    &&& !(r.xmax != 0 && (r.xmax == txn.txn_id || tm.status(r.xmax)
        == TransactionStatus::Committed))
}

/// Why a version of the key forbids to insert the key.
pub open spec fn insert_conflict(r: Version, txn: Transaction, tm: TmView) -> Option<IndexError> {
    if r.xmin != txn.txn_id && txn.snapshot.in_progress(r.xmin, tm) {
        Some(IndexError::WaitFor(r.xmin))
    } else if txn.sees(r.xmin, r.xmax, tm) || live_now(r, txn, tm) {
        Some(IndexError::DuplicateKey)
    } else if r.xmax != 0 && r.xmax != txn.txn_id && txn.snapshot.in_progress(r.xmax, tm) {
        Some(IndexError::WaitFor(r.xmax))
    } else {
        None
    }
}

/// Why the versions of the key from row `i` on forbid to insert it.
pub open spec fn first_conflict<K: Key>(
    rows: Seq<Version>,
    k: Seq<u8>,
    txn: Transaction,
    tm: TmView,
    i: int,
) -> Option<IndexError>
    decreases rows.len() - i,
{
    if i < 0 || i >= rows.len() {
        None
    } else if key_same::<K>(rows[i].key, k) && insert_conflict(rows[i], txn, tm) is Some {
        insert_conflict(rows[i], txn, tm)
    } else {
        first_conflict::<K>(rows, k, txn, tm, i + 1)
    }
}

/// What forbids to insert is not the storage.
pub proof fn lemma_conflict_kind<K: Key>(
    rows: Seq<Version>,
    k: Seq<u8>,
    txn: Transaction,
    tm: TmView,
    i: int,
)
    ensures
        first_conflict::<K>(rows, k, txn, tm, i) matches Some(c) ==> !(c is BufferPool) && !(
        c is Wal),
    decreases rows.len() - i,
{
    if 0 <= i < rows.len() {
        lemma_conflict_kind::<K>(rows, k, txn, tm, i + 1);
    }
}

/// Why the transaction may not delete a version that it sees: another one has deleted it
/// and not aborted.
pub open spec fn write_conflict(xmax: u64, txn: Transaction, tm: TmView) -> Option<IndexError> {
    if xmax == 0 || xmax == txn.txn_id {
        None
    } else if txn.snapshot.in_progress(xmax, tm) {
        Some(IndexError::WaitFor(xmax))
    } else if tm.status(xmax) == TransactionStatus::Committed {
        Some(IndexError::WriteConflict)
    } else {
        None
    }
}

/// What the caller is told: a transaction waits for an older one never, so that no two
/// wait for each other.
pub open spec fn wait_or_die(e: IndexError, txn_id: u64) -> IndexError {
    match e {
        IndexError::WaitFor(blocker) => if txn_id > blocker {
            IndexError::WriteConflict
        } else {
            e
        },
        _ => e,
    }
}

/// The first row from `i` on whose key differs from `key`, or the number of rows.
pub open spec fn run_end<K: Key>(rows: Seq<Version>, key: Seq<u8>, i: int) -> int
    decreases rows.len() - i,
{
    if i >= rows.len() {
        rows.len() as int
    } else if key_same::<K>(rows[i].key, key) {
        run_end::<K>(rows, key, i + 1)
    } else {
        i
    }
}

/// The first of the rows just before `i` whose keys equal `key`.
pub open spec fn run_start<K: Key>(rows: Seq<Version>, key: Seq<u8>, i: int) -> int
    decreases i,
{
    if i <= 0 {
        0
    } else if key_same::<K>(rows[i - 1].key, key) {
        run_start::<K>(rows, key, i - 1)
    } else {
        i
    }
}

/// The row where a full leaf is split: near the middle, where the key changes, so that all
/// versions of a key stay together. Where all rows have one key, the middle.
pub open spec fn split_point<K: Key>(rows: Seq<Version>) -> int {
    let middle = rows.len() as int / 2;
    let key = rows[middle].key;
    let end = run_end::<K>(rows, key, middle);
    let at = if end >= rows.len() {
        run_start::<K>(rows, key, middle)
    } else {
        end
    };
    if at == 0 {
        middle
    } else {
        at
    }
}

/// The free bytes of a packed leaf.
pub open spec fn room(p: Part) -> int {
    packed_room(p.high, p.rows)
}

/// The leaf with a new version in the place that a search finds.
pub open spec fn put<K: Key>(p: Part, k: Seq<u8>, v: Seq<u8>, txn_id: u64) -> Part {
    Part {
        rows: p.rows.insert(
            search::<K>(p.rows, k, 0, p.rows.len() as int).0,
            Version { key: k, val: v, xmin: txn_id, xmax: 0 },
        ),
        ..p
    }
}

/// The leaf without the rows that vacuum may remove.
pub open spec fn vacuumed(p: Part, horizon: u64, tm: TmView) -> Part {
    Part { rows: kept_rows(p.rows, horizon, tm), ..p }
}

/// The rows before row `m`.
pub open spec fn left_of(p: Part, m: int) -> Part {
    Part { high: Some(p.rows[m].key), rows: p.rows.take(m), ..p }
}

/// The rows from row `m` on.
pub open spec fn right_of(p: Part, m: int) -> Part {
    Part { low: Some(p.rows[m].key), rows: p.rows.skip(m), ..p }
}

/// Where the bytes of a new version do not fit.
pub open spec fn no_space(k: Seq<u8>, v: Seq<u8>, p: Part) -> PageError {
    PageError::InsufficientSpace {
        needed: row_need(k, v) as usize,
        available: room(p) as usize,
    }
}

/// The two halves of a full leaf with the new version in the one that it belongs to.
pub open spec fn split_and_put<K: Key>(p: Part, k: Seq<u8>, v: Seq<u8>, txn_id: u64) -> (
    Seq<Part>,
    Option<PageError>,
) {
    let m = split_point::<K>(p.rows);
    let l = left_of(p, m);
    let r = right_of(p, m);
    if p.rows[m].key.len() == 0 {
        (seq![p], Some(no_space(k, v, p)))
    } else if key_before::<K>(k, p.rows[m].key) {
        if row_need(k, v) <= room(l) {
            (seq![put::<K>(l, k, v, txn_id), r], None)
        } else {
            (seq![l, r], Some(no_space(k, v, l)))
        }
    } else {
        if row_need(k, v) <= room(r) {
            (seq![l, put::<K>(r, k, v, txn_id)], None)
        } else {
            (seq![l, r], Some(no_space(k, v, r)))
        }
    }
}

/// What becomes of a leaf when a version is inserted. Where there is no room, rows that
/// vacuum may remove make room; where that is not enough, the leaf is split.
pub open spec fn placed<K: Key>(
    p: Part,
    k: Seq<u8>,
    v: Seq<u8>,
    txn_id: u64,
    horizon: u64,
    tm: TmView,
) -> (Seq<Part>, Option<PageError>) {
    let base = vacuumed(p, horizon, tm);
    if row_need(k, v) <= room(p) {
        (seq![put::<K>(p, k, v, txn_id)], None)
    } else if base.rows.len() < p.rows.len() && row_need(k, v) <= room(base) {
        (seq![put::<K>(base, k, v, txn_id)], None)
    } else {
        split_and_put::<K>(base, k, v, txn_id)
    }
}

/// The leaves with one of them replaced.
pub open spec fn splice(parts: Seq<Part>, i: int, with: Seq<Part>) -> Seq<Part> {
    parts.take(i) + with + parts.skip(i + 1)
}

/// The leaf that the key belongs to.
pub open spec fn covers<K: Key>(parts: Seq<Part>, k: Seq<u8>, i: int) -> bool {
    &&& 0 <= i < parts.len()
    &&& at_least::<K>(k, parts[i].low)
    &&& under::<K>(k, parts[i].high)
}

/// A run of equal keys ends behind its start, within the rows.
pub proof fn lemma_run_end<K: Key>(rows: Seq<Version>, key: Seq<u8>, i: int)
    requires
        0 <= i <= rows.len(),
    ensures
        i <= run_end::<K>(rows, key, i) <= rows.len(),
    decreases rows.len() - i,
{
    if i < rows.len() && key_same::<K>(rows[i].key, key) {
        lemma_run_end::<K>(rows, key, i + 1);
    }
}

/// A run of equal keys starts before its end.
pub proof fn lemma_run_start<K: Key>(rows: Seq<Version>, key: Seq<u8>, i: int)
    requires
        0 <= i <= rows.len(),
    ensures
        0 <= run_start::<K>(rows, key, i) <= i,
    decreases i,
{
    if i > 0 && key_same::<K>(rows[i - 1].key, key) {
        lemma_run_start::<K>(rows, key, i - 1);
    }
}

/// A leaf is split at one of its rows.
pub proof fn lemma_split_point<K: Key>(rows: Seq<Version>)
    requires
        rows.len() > 0,
    ensures
        0 <= split_point::<K>(rows) < rows.len(),
        rows.len() > 1 ==> 0 < split_point::<K>(rows),
{
    let middle = rows.len() as int / 2;
    lemma_run_end::<K>(rows, rows[middle].key, middle);
    lemma_run_start::<K>(rows, rows[middle].key, middle);
}

/// Rows of other keys do not count.
pub proof fn lemma_skip_rows<K: Key>(
    rows: Seq<Version>,
    k: Seq<u8>,
    txn: Transaction,
    tm: TmView,
    lo: int,
    hi: int,
)
    requires
        0 <= lo <= hi <= rows.len(),
        forall|a: int| lo <= a < hi ==> !key_same::<K>(#[trigger] rows[a].key, k),
    ensures
        first_visible::<K>(rows, k, txn, tm, lo) == first_visible::<K>(rows, k, txn, tm, hi),
        first_conflict::<K>(rows, k, txn, tm, lo) == first_conflict::<K>(rows, k, txn, tm, hi),
    decreases hi - lo,
{
    if lo < hi {
        lemma_skip_rows::<K>(rows, k, txn, tm, lo + 1, hi);
    }
}

/// In sorted rows, no version of a key stands before a smaller key or behind a greater
/// one.
pub proof fn lemma_versions_together<K: Key>(rows: Seq<Version>, k: Seq<u8>, at: int)
    requires
        0 <= at < rows.len(),
        forall|a: int, b: int| 0 <= a < b < rows.len() ==> K::le(rows[a].key, rows[b].key),
        forall|a: int| 0 <= a < rows.len() ==> K::accepts(#[trigger] rows[a].key),
        K::accepts(k),
    ensures
        key_before::<K>(rows[at].key, k) ==> forall|a: int|
            0 <= a <= at ==> !key_same::<K>(#[trigger] rows[a].key, k),
        key_before::<K>(k, rows[at].key) ==> forall|a: int|
            at <= a < rows.len() ==> !key_same::<K>(#[trigger] rows[a].key, k),
{
    if key_before::<K>(rows[at].key, k) {
        assert forall|a: int| 0 <= a <= at implies !key_same::<K>(#[trigger] rows[a].key, k) by {
            if a < at {
                lemma_le_chain::<K>(rows[a].key, rows[at].key, k);
            }
        }
    }
    if key_before::<K>(k, rows[at].key) {
        assert forall|a: int| at <= a < rows.len() implies !key_same::<K>(
            #[trigger] rows[a].key,
            k,
        ) by {
            if a > at {
                lemma_le_chain::<K>(k, rows[at].key, rows[a].key);
            }
        }
    }
}

/// A version in the place that a search finds keeps the rows in order.
pub proof fn lemma_put_rows<K: Key, V: Value>(p: Part, k: Seq<u8>, v: Seq<u8>, txn_id: u64)
    requires
        good_rows::<K, V>(p.rows, p.low, p.high),
        good_key::<K>(k),
        canonical::<V>(v),
        at_least::<K>(k, p.low),
        at_most::<K>(k, p.high),
    ensures
        good_rows::<K, V>(put::<K>(p, k, v, txn_id).rows, p.low, p.high),
        room(put::<K>(p, k, v, txn_id)) == room(p) - row_need(k, v),
        ({
            let at = search::<K>(p.rows, k, 0, p.rows.len() as int).0;
            0 <= at <= p.rows.len()
        }),
{
    let rows = p.rows;
    let n = rows.len() as int;
    lemma_search::<K>(rows, k, 0, n);
    let (at, found) = search::<K>(rows, k, 0, n);
    let r = Version { key: k, val: v, xmin: txn_id, xmax: 0 };
    let out = rows.insert(at, r);
    lemma_rows_bytes_edit(rows, at, r);
    assert forall|i: int, j: int| 0 <= i < j < out.len() implies K::le(out[i].key, out[j].key) by {
        if i == at {
            let x = rows[j - 1].key;
            K::le_total(x, k);
            if found {
                if j - 1 > at {
                    assert(K::le(rows[at].key, x));
                    lemma_le_chain::<K>(k, rows[at].key, x);
                }
            }
        } else if j == at {
            let x = rows[i].key;
            K::le_total(x, k);
            if found {
                assert(K::le(x, rows[at].key));
                lemma_le_chain::<K>(x, rows[at].key, k);
            }
        } else {
            let i0 = if i < at {
                i
            } else {
                i - 1
            };
            let j0 = if j < at {
                j
            } else {
                j - 1
            };
            assert(K::le(rows[i0].key, rows[j0].key));
        }
    }
    assert forall|i: int| 0 <= i < out.len() implies {
        &&& (#[trigger] out[i]).key.len() <= MAX_KEY_SIZE
        &&& at_least::<K>(out[i].key, p.low)
        &&& at_most::<K>(out[i].key, p.high)
        &&& canonical::<K>(out[i].key)
        &&& canonical::<V>(out[i].val)
    } by {
        if i < at {
            assert(out[i] == rows[i]);
        } else if i > at {
            assert(out[i] == rows[i - 1]);
        }
    }
}

/// The rows that vacuum keeps are in order.
pub proof fn lemma_kept_rows<K: Key, V: Value>(
    rows: Seq<Version>,
    low: Option<Seq<u8>>,
    high: Option<Seq<u8>>,
    horizon: u64,
    tm: TmView,
)
    requires
        good_rows::<K, V>(rows, low, high),
    ensures
        good_rows::<K, V>(kept_rows(rows, horizon, tm), low, high),
        kept_rows(rows, horizon, tm).len() == rows.len() ==> kept_rows(rows, horizon, tm) == rows,
    decreases rows.len(),
{
    if rows.len() > 0 {
        let init = rows.drop_last();
        lemma_kept_rows::<K, V>(init, low, high, horizon, tm);
        lemma_kept_bytes(init, horizon, tm);
        let rest = kept_rows(init, horizon, tm);
        let out = kept_rows(rows, horizon, tm);
        assert forall|i: int, j: int| 0 <= i < j < out.len() implies K::le(
            out[i].key,
            out[j].key,
        ) by {
            if j >= rest.len() {
                assert(init.contains(rest[i]));
                let a = choose|a: int| 0 <= a < init.len() && init[a] == rest[i];
                assert(K::le(rows[a].key, rows[rows.len() - 1].key));
            } else {
                assert(K::le(rest[i].key, rest[j].key));
            }
        }
        assert forall|i: int| 0 <= i < out.len() implies {
            &&& (#[trigger] out[i]).key.len() <= MAX_KEY_SIZE
            &&& at_least::<K>(out[i].key, low)
            &&& at_most::<K>(out[i].key, high)
            &&& canonical::<K>(out[i].key)
            &&& canonical::<V>(out[i].val)
        } by {
            if i < rest.len() {
                assert(out[i] == rest[i]);
            } else {
                assert(out[i] == rows[rows.len() - 1]);
            }
        }
        if out.len() == rows.len() {
            assert(rest =~= init);
            assert(out =~= rows);
        }
    } else {
        assert(kept_rows(rows, horizon, tm) =~= rows);
    }
}

/// Both halves of a split leaf are in order and fit on a page.
pub proof fn lemma_halves<K: Key, V: Value>(p: Part, m: int)
    requires
        good_rows::<K, V>(p.rows, p.low, p.high),
        0 <= m < p.rows.len(),
        0 <= room(p),
    ensures
        good_rows::<K, V>(left_of(p, m).rows, p.low, Some(p.rows[m].key)),
        good_rows::<K, V>(right_of(p, m).rows, Some(p.rows[m].key), p.high),
        0 <= room(left_of(p, m)),
        0 <= room(right_of(p, m)),
        good_key::<K>(p.rows[m].key),
        at_least::<K>(p.rows[m].key, p.low),
        at_most::<K>(p.rows[m].key, p.high),
{
    let rows = p.rows;
    let l = rows.take(m);
    let r = rows.skip(m);
    let sep = rows[m].key;
    assert forall|i: int| 0 <= i < l.len() implies {
        &&& (#[trigger] l[i]).key.len() <= MAX_KEY_SIZE
        &&& at_least::<K>(l[i].key, p.low)
        &&& at_most::<K>(l[i].key, Some(sep))
        &&& canonical::<K>(l[i].key)
        &&& canonical::<V>(l[i].val)
    } by {
        assert(l[i] == rows[i]);
        assert(K::le(rows[i].key, rows[m].key));
    }
    assert forall|i: int| 0 <= i < r.len() implies {
        &&& (#[trigger] r[i]).key.len() <= MAX_KEY_SIZE
        &&& at_least::<K>(r[i].key, Some(sep))
        &&& at_most::<K>(r[i].key, p.high)
        &&& canonical::<K>(r[i].key)
        &&& canonical::<V>(r[i].val)
    } by {
        assert(r[i] == rows[m + i]);
        if i == 0 {
            K::le_total(sep, sep);
        } else {
            assert(K::le(rows[m].key, rows[m + i].key));
        }
    }
    assert(l + r =~= rows);
    lemma_rows_bytes_concat(l, r);
    lemma_rows_bytes_positive(l);
    lemma_rows_bytes_positive(r);
    let rest = rows.skip(m + 1);
    assert(r =~= seq![rows[m]] + rest);
    lemma_rows_bytes_concat(seq![rows[m]], rest);
    lemma_rows_bytes_one(rows[m]);
    lemma_rows_bytes_positive(rest);
}

/// A leaf without rows has room for any row that the index takes.
pub proof fn lemma_empty_has_room<K: Key>(p: Part, k: Seq<u8>, v: Seq<u8>)
    requires
        p.rows.len() == 0,
        p.high matches Some(h) ==> h.len() <= MAX_KEY_SIZE,
        k.len() <= MAX_KEY_SIZE,
        v.len() <= MAX_VALUE_SIZE,
    ensures
        row_need(k, v) <= room(p),
{
}

} // verus!
