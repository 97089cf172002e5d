//! Where rows go: the leaf of a key, the place of a new version in it, and where a full leaf is
//! split; and what a sweep leaves behind.

use crate::buffer_pool::manager::BufferPoolManager;
use crate::constants::MAX_KEY_SIZE;
use crate::error::{IndexError, PageError};
use crate::index::ops::{delete_outcome, insert_outcome, update_outcome};
use crate::index::range::{edge, encoded, KeyBound};
use crate::index::rows::{
    covers, left_of, lemma_put_rows, lemma_run_end, lemma_run_start, no_space, placed, put,
    right_of, room, run_end, run_start, split_point,
};
use crate::index::smo::{cannot_take, halves_fit, uneven};
use crate::index::tree::{good_key, good_rows, Part, Shape};
use crate::index::vacuum::vacuum_outcome;
use crate::index::{fit, BTreeIndex};
use crate::page::internal::{int_used, int_view, key_total, InternalView};
use crate::page::leaf::{
    lemma_rows_bytes_positive, packed_room, record_size, row_need, rows_sorted, Version,
};
use crate::page::{intact, PAGE_SIZE};
use crate::transaction::{vacuumable, Transaction};
use crate::transaction_manager::TmView;
use crate::types::{canonical, Key, Value};
use crate::wal::WalView;
use vstd::prelude::*;

verus! {

proof fn lemma_run_ends<K: Key>(rows: Seq<Version>, key: Seq<u8>, i: int)
    requires
        0 <= i <= rows.len(),
    ensures
        ({
            let e = run_end::<K>(rows, key, i);
            &&& i <= e <= rows.len()
            &&& forall|j: int|
                i <= j < e ==> K::le((#[trigger] rows[j]).key, key) && K::le(key, rows[j].key)
            &&& e < rows.len() ==> !(K::le(rows[e].key, key) && K::le(key, rows[e].key))
        }),
    decreases rows.len() - i,
{
    lemma_run_end::<K>(rows, key, i);
    if i < rows.len() && K::le(rows[i].key, key) && K::le(key, rows[i].key) {
        lemma_run_ends::<K>(rows, key, i + 1);
    }
}

proof fn lemma_run_starts<K: Key>(rows: Seq<Version>, key: Seq<u8>, i: int)
    requires
        0 <= i <= rows.len(),
    ensures
        ({
            let e = run_start::<K>(rows, key, i);
            &&& 0 <= e <= i
            &&& forall|j: int|
                e <= j < i ==> K::le((#[trigger] rows[j]).key, key) && K::le(key, rows[j].key)
            &&& e > 0 ==> !(K::le(rows[e - 1].key, key) && K::le(key, rows[e - 1].key))
        }),
    decreases i,
{
    lemma_run_start::<K>(rows, key, i);
    if i > 0 && K::le(rows[i - 1].key, key) && K::le(key, rows[i - 1].key) {
        lemma_run_starts::<K>(rows, key, i - 1);
    }
}

/// A full leaf of rows in order is split inside, where the key changes, so that the versions of a
/// key stay together; only where all rows have one key it is split in the middle. No key but that
/// of the middle row stands between the middle and the split.
pub proof fn law_split_keeps_versions_together<K: Key>(rows: Seq<Version>, i: int)
    requires
        rows.len() > 1,
        rows_sorted::<K>(rows),
        forall|j: int| 0 <= j < rows.len() ==> K::accepts((#[trigger] rows[j]).key),
        0 <= i < rows.len(),
    ensures
        ({
            let m = split_point::<K>(rows);
            let middle = rows.len() as int / 2;
            let key = rows[middle].key;
            let one = K::le(rows[0].key, rows.last().key) && K::le(rows.last().key, rows[0].key);
            &&& 0 < m < rows.len()
            &&& one ==> m == middle
            &&& !one ==> !K::le(rows[m].key, rows[m - 1].key)
            &&& (m <= i < middle || middle <= i < m) ==> K::le(rows[i].key, key) && K::le(
                key,
                rows[i].key,
            )
        }),
{
    let n = rows.len() as int;
    let m = split_point::<K>(rows);
    let middle = n / 2;
    let key = rows[middle].key;
    lemma_run_ends::<K>(rows, key, middle);
    lemma_run_starts::<K>(rows, key, middle);
    let end = run_end::<K>(rows, key, middle);
    let start = run_start::<K>(rows, key, middle);
    K::le_total(key, key);
    assert(end > middle);
    if end >= n {
        if start == 0 {
            K::le_transitive(rows.last().key, key, rows[0].key);
            K::le_transitive(rows[0].key, key, rows.last().key);
        } else {
            assert(K::le(rows[start - 1].key, rows[start].key));
            if K::le(rows[start].key, rows[start - 1].key) {
                if start < middle {
                    K::le_transitive(key, rows[start].key, rows[start - 1].key);
                    K::le_transitive(rows[start - 1].key, rows[start].key, key);
                }
            }
            if K::le(rows.last().key, rows[0].key) {
                lemma_squeezed::<K>(rows, start - 1, start);
                if start < middle {
                    K::le_transitive(key, rows[start].key, rows[start - 1].key);
                }
                assert(K::le(rows[start - 1].key, rows[middle].key));
            }
        }
    } else {
        assert(K::le(rows[end - 1].key, rows[end].key));
        if K::le(rows[end].key, rows[end - 1].key) {
            K::le_transitive(rows[end].key, rows[end - 1].key, key);
            K::le_transitive(key, rows[end - 1].key, rows[end].key);
        }
        if K::le(rows.last().key, rows[0].key) {
            lemma_squeezed::<K>(rows, middle, end);
            assert(K::le(rows[middle].key, rows[end].key));
        }
    }
}

/// Where the last key is not above the first, all keys are equal.
proof fn lemma_squeezed<K: Key>(rows: Seq<Version>, i: int, j: int)
    requires
        0 <= i < j < rows.len(),
        rows_sorted::<K>(rows),
        forall|x: int| 0 <= x < rows.len() ==> K::accepts((#[trigger] rows[x]).key),
        K::le(rows.last().key, rows[0].key),
    ensures
        K::le(rows[j].key, rows[i].key),
{
    let n = rows.len() - 1;
    let first = rows[0].key;
    let last = rows[n].key;
    K::le_total(first, first);
    K::le_total(last, last);
    assert(K::le(rows[j].key, last));
    assert(K::le(first, rows[i].key));
    K::le_transitive(rows[j].key, last, first);
    K::le_transitive(rows[j].key, first, rows[i].key);
}

/// The halves of a leaf are its rows, in their order, and meet at the first key of the upper one.
pub proof fn law_halves(p: Part, m: int)
    requires
        0 <= m < p.rows.len(),
    ensures
        left_of(p, m).rows + right_of(p, m).rows == p.rows,
        left_of(p, m).rows.len() == m,
        left_of(p, m).low == p.low,
        right_of(p, m).high == p.high,
        left_of(p, m).high == Some(p.rows[m].key),
        right_of(p, m).low == Some(p.rows[m].key),
{
    assert(left_of(p, m).rows + right_of(p, m).rows =~= p.rows);
}

/// A new version stands among the rows of its leaf, which stay in order and are otherwise what they
/// were.
pub proof fn law_version_is_put<K: Key, V: Value>(p: Part, k: Seq<u8>, v: Seq<u8>, txn_id: u64)
    requires
        good_rows::<K, V>(p.rows, p.low, p.high),
        good_key::<K>(k),
        canonical::<V>(v),
        crate::index::tree::at_least::<K>(k, p.low),
        crate::index::tree::at_most::<K>(k, p.high),
    ensures
        ({
            let q = put::<K>(p, k, v, txn_id);
            &&& rows_sorted::<K>(q.rows)
            &&& q.low == p.low
            &&& q.high == p.high
            &&& exists|at: int|
                0 <= at <= p.rows.len() && q.rows == #[trigger] p.rows.insert(
                    at,
                    Version { key: k, val: v, xmin: txn_id, xmax: 0 },
                )
        }),
{
    lemma_put_rows::<K, V>(p, k, v, txn_id);
    let at = crate::page::leaf::search::<K>(p.rows, k, 0, p.rows.len() as int).0;
    assert(put::<K>(p, k, v, txn_id).rows == p.rows.insert(
        at,
        Version { key: k, val: v, xmin: txn_id, xmax: 0 },
    ));
}

/// A row that fits costs no other row and no split; rows are removed only to make room, and a leaf
/// is split only where removing all that may be removed does not make enough.
pub proof fn law_room_is_made_last<K: Key>(
    p: Part,
    k: Seq<u8>,
    v: Seq<u8>,
    txn_id: u64,
    horizon: u64,
    tm: TmView,
)
    ensures
        ({
            let need = 4 + record_size(k.len() as int, v.len() as int);
            let (after, e) = placed::<K>(p, k, v, txn_id, horizon, tm);
            let kept = p.rows.filter(|r: Version| !vacuumable(r.xmin, r.xmax, horizon, tm));
            &&& need <= packed_room(p.high, p.rows) ==> e is None && after.len() == 1
                && after[0].rows.len() == put::<K>(p, k, v, txn_id).rows.len() && after[0] == put::<
                K,
            >(p, k, v, txn_id)
            &&& need > packed_room(p.high, p.rows) && kept.len() < p.rows.len() && need
                <= packed_room(p.high, kept) ==> e is None && after == seq![
                put::<K>(Part { rows: kept, ..p }, k, v, txn_id),
            ]
            &&& after.len() > 1 ==> need > packed_room(p.high, p.rows) && (kept.len() == p.rows.len()
                || need > packed_room(p.high, kept))
        }),
{
    crate::page::leaf::law_compaction_keeps_the_rest(p.rows, horizon, tm);
}

/// What is said to be missing is what the row takes, and what is left of the leaf.
pub proof fn law_missing_room(k: Seq<u8>, v: Seq<u8>, p: Part)
    requires
        k.len() <= 0xffff,
        v.len() <= 0xffff,
        0 <= packed_room(p.high, p.rows),
    ensures
        no_space(k, v, p) matches PageError::InsufficientSpace { needed, available } && needed == 4
            + record_size(k.len() as int, v.len() as int) && available == packed_room(
            p.high,
            p.rows,
        ),
        room(p) == packed_room(p.high, p.rows),
        row_need(k, v) == 4 + record_size(k.len() as int, v.len() as int),
{
    lemma_rows_bytes_positive(p.rows);
}

/// The keys of a part of the separators take no more than so much each.
proof fn lemma_total_bound(keys: Seq<Seq<u8>>, n: int, max: int)
    requires
        0 <= n <= keys.len(),
        0 <= max,
        forall|i: int| 0 <= i < keys.len() ==> (#[trigger] keys[i]).len() <= max,
    ensures
        0 <= key_total(keys, n) <= n * max,
    decreases n,
{
    if n > 0 {
        lemma_total_bound(keys, n - 1, max);
        assert(n * max == (n - 1) * max + max) by (nonlinear_arith);
    }
}

/// The separators before a place and those from it on take together what all take.
proof fn lemma_total_parts(keys: Seq<Seq<u8>>, m: int, n: int)
    requires
        0 <= m <= n <= keys.len(),
    ensures
        key_total(keys.take(m), m) == key_total(keys, m),
        key_total(keys.skip(m), n - m) == key_total(keys, n) - key_total(keys, m),
    decreases n,
{
    if m < n {
        lemma_total_parts(keys, m, n - 1);
        assert(keys.skip(m)[n - 1 - m] == keys[n - 1]);
    } else if m > 0 {
        lemma_total_parts(keys, m - 1, n - 1);
        lemma_total_takes(keys, m, m - 1);
        assert(keys.take(m)[m - 1] == keys[m - 1]);
    }
}

proof fn lemma_total_takes(keys: Seq<Seq<u8>>, m: int, n: int)
    requires
        0 <= n <= m <= keys.len(),
    ensures
        key_total(keys.take(m), n) == key_total(keys, n),
    decreases n,
{
    if n > 0 {
        lemma_total_takes(keys, m, n - 1);
        assert(keys.take(m)[n - 1] == keys[n - 1]);
    }
}

/// An internal page whose separators are short can always take another short one, by a split if not
/// otherwise.
pub proof fn law_short_separators_are_taken(
    keys: Seq<Seq<u8>>,
    high: Option<Seq<u8>>,
    at: int,
    key: Seq<u8>,
)
    requires
        0 <= at <= keys.len(),
        key.len() <= 192,
        forall|i: int| 0 <= i < keys.len() ==> (#[trigger] keys[i]).len() <= 192,
        high matches Some(h) ==> h.len() <= MAX_KEY_SIZE,
        int_used(keys) + (match high {
            Some(h) => h.len(),
            None => 0,
        }) <= PAGE_SIZE,
    ensures
        halves_fit(keys.insert(at, key), high),
{
    let all = keys.insert(at, key);
    let n = keys.len() as int;
    let mid = all.len() as int / 2;
    crate::page::answers::law_int_used(keys, at, key);
    assert forall|i: int| 0 <= i < all.len() implies (#[trigger] all[i]).len() <= 192 by {
        if i < at {
            assert(all[i] == keys[i]);
        } else if i > at {
            assert(all[i] == keys[i - 1]);
        }
    }
    let low = all.take(mid);
    let up = all.skip(mid + 1);
    lemma_total_parts(all, mid, all.len() as int);
    lemma_total_parts(all, mid + 1, all.len() as int);
    assert(key_total(all, mid + 1) == key_total(all, mid) + all[mid].len());
    lemma_total_bound(all, mid + 1, 192);
    lemma_total_bound(up, up.len() as int, 192);
    assert(up.len() == n - mid);
    lemma_total_bound(low, mid, 192);
}

/// A page that cannot take a separator would have a half that is longer than a page.
pub proof fn law_separator_is_refused<K: Key>(v: InternalView, at: int, key: Seq<u8>)
    requires
        cannot_take::<K>(v, at, key),
    ensures
        ({
            let all = v.keys.insert(at, key);
            let mid = all.len() as int / 2;
            &&& key.len() <= MAX_KEY_SIZE
            &&& int_used(all.take(mid)) + all[mid].len() > PAGE_SIZE || int_used(all.skip(mid + 1))
                + (match v.high {
                Some(h) => h.len(),
                None => 0,
            }) > PAGE_SIZE
        }),
{
}

/// An index is uneven only where there is a page above the leaves that cannot take a separator.
pub proof fn law_uneven_index<K: Key>(p: BufferPoolManager, sh: Shape)
    requires
        uneven::<K>(p, sh),
    ensures
        exists|l: int, i: int, at: int, key: Seq<u8>|
            0 < l < sh.levels.len() && 0 <= i < sh.levels[l].len() && #[trigger] cannot_take::<K>(
                int_view(p.page(sh.levels[l][i])),
                at,
                key,
            ),
{
}

/// The storage cannot be used: the data file or the log has failed, no page id is left, or there is a
/// page that the data file does not hold and no frame either.
pub open spec fn storage_gone(p: BufferPoolManager) -> bool {
    ||| p.disk@.broken is Some
    ||| p.wal@.error is Some
    ||| p.next_page_id == u64::MAX
    ||| exists|id: u64|
        #![trigger p.disk@.content(id)]
        {
            &&& id < p.next_page_id
            &&& !p.shards@[id as int % 8].inner.page_table@.dom().contains(id)
            &&& id >= p.disk@.count || !intact(p.disk@.content(id))
        }
}

/// The log takes no record of the index: it has failed, has no number left, or less room than four
/// pages take.
pub open spec fn log_gone(w: WalView) -> bool {
    ||| w.error is Some
    ||| w.next == u64::MAX
    ||| w.free < 4 * PAGE_SIZE
    ||| w.capacity < 4 * PAGE_SIZE
    ||| w.segment_size < 4 * PAGE_SIZE
}

proof fn lemma_storage_gone(p: BufferPoolManager)
    requires
        p.faulty(),
    ensures
        storage_gone(p),
{
    if !(p.disk@.broken is Some || p.wal@.error is Some || p.next_page_id == u64::MAX) {
        let id = choose|id: u64| id < p.next_page_id && #[trigger] p.lost(id);
        assert(!intact(p.disk@.content(id)) || id >= p.disk@.count);
    }
}

/// A write of the index is stopped by the storage only where the storage or the log is unusable.
pub proof fn law_writes_are_stopped_by_the_storage<K: Key, V: Value>(
    a: BTreeIndex<K, V>,
    k: Seq<u8>,
    v: Seq<u8>,
    txn: Transaction,
    tm: TmView,
    r: Result<(), IndexError>,
    b: BTreeIndex<K, V>,
)
    requires
        r is Err,
        insert_outcome(a, k, v, txn, tm, r, b) || update_outcome(a, k, v, txn, tm, r, b)
            || delete_outcome(a, k, txn, tm, r, b),
    ensures
        r->Err_0 is BufferPool ==> storage_gone(b.pool),
        r->Err_0 is Wal ==> log_gone(b.pool.wal@),
{
    crate::index::answers::lemma_first_conflict::<K>(
        crate::index::flat::all_rows(a.parts()),
        k,
        txn,
        tm,
        0,
    );
    if b.pool.faulty() {
        lemma_storage_gone(b.pool);
    }
}

/// Storage that nothing has happened to is fit for an operation of `n` records where there are page
/// ids and record numbers for them, and four pages of room in the log for each and one more.
pub proof fn law_sound_storage_is_fit(p: BufferPoolManager, n: int)
    requires
        p.able(),
        0 <= n,
        p.next_page_id + n < u64::MAX,
        p.wal@.next + n < u64::MAX,
        p.wal@.free >= 4 * PAGE_SIZE * (n + 1),
        p.wal@.segment_size >= 4 * PAGE_SIZE,
    ensures
        fit(p, n),
{
}

/// A sweep is stopped by the storage only.
pub proof fn law_sweep_is_stopped_by_the_storage<K: Key, V: Value>(
    a: BTreeIndex<K, V>,
    tm: TmView,
    e: IndexError,
    b: BTreeIndex<K, V>,
    after: TmView,
)
    requires
        vacuum_outcome(a, tm, Err(e), b, after),
    ensures
        e is BufferPool && storage_gone(b.pool) || e is Wal && log_gone(b.pool.wal@),
{
    if b.pool.faulty() {
        lemma_storage_gone(b.pool);
    }
}

/// The leaf of a key is the one whose bounds the key is between: not below the lower, and below the
/// upper.
pub proof fn law_leaf_of_a_key<K: Key>(parts: Seq<Part>, k: Seq<u8>, i: int)
    requires
        covers::<K>(parts, k, i),
    ensures
        0 <= i < parts.len(),
        parts[i].low matches Some(l) ==> K::le(l, k),
        parts[i].high matches Some(h) ==> !K::le(h, k),
{
}

/// A bound is encoded as the bound that it is.
pub proof fn law_bounds_are_encoded<'a, K: Key>(k: K::SelfType<'a>, b: Vec<u8>)
    ensures
        encoded::<K>(KeyBound::Included(k)) == KeyBound::Included(K::encode(K::model(k))),
        encoded::<K>(KeyBound::Excluded(k)) == KeyBound::Excluded(K::encode(K::model(k))),
        encoded::<K>(KeyBound::<K::SelfType<'a>>::Unbounded) is Unbounded,
        edge(KeyBound::Included(b)) == KeyBound::Included(b@),
        edge(KeyBound::Excluded(b)) == KeyBound::Excluded(b@),
        edge(KeyBound::Unbounded) is Unbounded,
{
}

/// A sweep over all leaves publishes how far it looked: the oldest active transaction, or the next
/// one where none is active; unless an earlier sweep looked further. One that fails publishes
/// nothing. Neither touches a transaction.
pub proof fn law_vacuum_publishes<K: Key, V: Value>(
    a: BTreeIndex<K, V>,
    tm: TmView,
    r: Result<usize, IndexError>,
    b: BTreeIndex<K, V>,
    after: TmView,
)
    requires
        tm.wf(),
        vacuum_outcome(a, tm, r, b, after),
    ensures
        r is Err ==> after == tm,
        r is Ok && tm.active.len() > 0 ==> after.swept == (if tm.active[0] > tm.swept {
            tm.active[0]
        } else {
            tm.swept
        }),
        r is Ok && tm.active.len() == 0 ==> after.swept == (if tm.next > tm.swept {
            tm.next
        } else {
            tm.swept
        }),
        after.clog == tm.clog,
        after.active == tm.active,
        after.next == tm.next,
{
}

} // verus!
