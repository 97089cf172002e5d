//! The rows of all leaves, one behind the other. A split leaves them as they are, so that it
//! does not matter to a reader where it cuts.

use crate::index::laws::{lemma_first_is, lemma_first_visible};
use crate::index::rows::{first_conflict, first_visible, seen, shows, splice};
use crate::index::tree::Part;
use crate::page::leaf::Version;
use crate::transaction::Transaction;
use crate::transaction_manager::TmView;
use crate::types::Key;
use vstd::prelude::*;

verus! {

/// The rows of the leaves, from left to right.
pub open spec fn all_rows(parts: Seq<Part>) -> Seq<Version>
    decreases parts.len(),
{
    if parts.len() == 0 {
        Seq::empty()
    } else {
        all_rows(parts.drop_last()) + parts.last().rows
    }
}

/// The number of rows before leaf `i`.
pub open spec fn row_count(parts: Seq<Part>, i: int) -> int {
    all_rows(parts.take(i)).len() as int
}

/// The leaf that row `x` of all rows is in.
pub open spec fn leaf_of(parts: Seq<Part>, x: int) -> int {
    choose|i: int| holds_row(parts, x, i)
}

/// Row `x` of all rows is in leaf `i`.
pub open spec fn holds_row(parts: Seq<Part>, x: int, i: int) -> bool {
    &&& 0 <= i < parts.len()
    &&& row_count(parts, i) <= x < row_count(parts, i) + parts[i].rows.len()
}

/// The place of row `x` of all rows in its leaf.
pub open spec fn slot_of(parts: Seq<Part>, x: int) -> int {
    x - row_count(parts, leaf_of(parts, x))
}

/// The rows of leaves and of leaves behind them.
pub proof fn lemma_concat(a: Seq<Part>, b: Seq<Part>)
    ensures
        all_rows(a + b) == all_rows(a) + all_rows(b),
    decreases b.len(),
{
    if b.len() == 0 {
        assert(a + b =~= a);
        assert(all_rows(a) + all_rows(b) =~= all_rows(a));
    } else {
        lemma_concat(a, b.drop_last());
        assert((a + b).drop_last() =~= a + b.drop_last());
        assert((a + b).last() == b.last());
        assert(all_rows(a + b) =~= all_rows(a) + all_rows(b));
    }
}

/// The rows of one leaf.
pub proof fn lemma_one_leaf(p: Part)
    ensures
        all_rows(seq![p]) == p.rows,
{
    assert(seq![p].drop_last() =~= Seq::<Part>::empty());
    assert(all_rows(seq![p].drop_last()) =~= Seq::<Version>::empty());
    assert(all_rows(seq![p]) =~= p.rows);
}

/// The rows of two leaves.
pub proof fn lemma_two_leaves(p: Part, q: Part)
    ensures
        all_rows(seq![p, q]) == p.rows + q.rows,
{
    lemma_one_leaf(p);
    assert(seq![p, q].drop_last() =~= seq![p]);
}

/// The rows before a leaf, its own, and those behind it.
pub proof fn lemma_around(parts: Seq<Part>, i: int)
    requires
        0 <= i < parts.len(),
    ensures
        all_rows(parts) == all_rows(parts.take(i)) + parts[i].rows + all_rows(parts.skip(i + 1)),
{
    lemma_splice_rows(parts, i, seq![parts[i]]);
    lemma_one_leaf(parts[i]);
    assert(splice(parts, i, seq![parts[i]]) =~= parts);
}

/// The rows where one leaf was replaced by others.
pub proof fn lemma_splice_rows(parts: Seq<Part>, i: int, out: Seq<Part>)
    requires
        0 <= i < parts.len(),
    ensures
        all_rows(splice(parts, i, out)) == all_rows(parts.take(i)) + all_rows(out) + all_rows(
            parts.skip(i + 1),
        ),
{
    lemma_concat(parts.take(i) + out, parts.skip(i + 1));
    lemma_concat(parts.take(i), out);
}

/// The rows where one leaf has other rows.
pub proof fn lemma_update_rows(parts: Seq<Part>, i: int, q: Part)
    requires
        0 <= i < parts.len(),
    ensures
        parts.update(i, q) == splice(parts, i, seq![q]),
        all_rows(parts.update(i, q)) == all_rows(parts.take(i)) + q.rows + all_rows(
            parts.skip(i + 1),
        ),
{
    assert(parts.update(i, q) =~= splice(parts, i, seq![q]));
    lemma_splice_rows(parts, i, seq![q]);
    lemma_one_leaf(q);
}

/// There are more rows before a leaf further right.
pub proof fn lemma_row_count(parts: Seq<Part>, i: int)
    requires
        0 <= i < parts.len(),
    ensures
        row_count(parts, i + 1) == row_count(parts, i) + parts[i].rows.len(),
        row_count(parts, 0) == 0,
        row_count(parts, parts.len() as int) == all_rows(parts).len(),
{
    assert(parts.take(i + 1).drop_last() =~= parts.take(i));
    assert(parts.take(i + 1).last() == parts[i]);
    assert(parts.take(0) =~= Seq::<Part>::empty());
    assert(parts.take(parts.len() as int) =~= parts);
}

proof fn lemma_row_count_mono(parts: Seq<Part>, i: int, j: int)
    requires
        0 <= i <= j <= parts.len(),
    ensures
        row_count(parts, i) <= row_count(parts, j),
    decreases j - i,
{
    if i < j {
        lemma_row_count(parts, i);
        lemma_row_count_mono(parts, i + 1, j);
    }
}

/// A row in a leaf is in that leaf only.
pub proof fn lemma_row_at(parts: Seq<Part>, i: int, s: int)
    requires
        0 <= i < parts.len(),
        0 <= s < parts[i].rows.len(),
    ensures
        ({
            let x = row_count(parts, i) + s;
            &&& 0 <= x < all_rows(parts).len()
            &&& all_rows(parts)[x] == parts[i].rows[s]
            &&& leaf_of(parts, x) == i
            &&& slot_of(parts, x) == s
        }),
{
    let x = row_count(parts, i) + s;
    lemma_around(parts, i);
    assert(holds_row(parts, x, i));
    let j = leaf_of(parts, x);
    assert(holds_row(parts, x, j));
    if i < j {
        lemma_row_count(parts, i);
        lemma_row_count_mono(parts, i + 1, j);
    } else if j < i {
        lemma_row_count(parts, j);
        lemma_row_count_mono(parts, j + 1, i);
    }
}

proof fn lemma_row_found(parts: Seq<Part>, x: int, n: int) -> (i: int)
    requires
        0 <= n <= parts.len(),
        0 <= x < row_count(parts, n),
    ensures
        holds_row(parts, x, i),
    decreases n,
{
    if n == 0 {
        assert(parts.take(0) =~= Seq::<Part>::empty());
        0
    } else {
        lemma_row_count(parts, n - 1);
        if x >= row_count(parts, n - 1) {
            n - 1
        } else {
            lemma_row_found(parts, x, n - 1)
        }
    }
}

/// Every row is in a leaf.
pub proof fn lemma_row_of(parts: Seq<Part>, x: int)
    requires
        0 <= x < all_rows(parts).len(),
    ensures
        ({
            let i = leaf_of(parts, x);
            let s = slot_of(parts, x);
            &&& 0 <= i < parts.len()
            &&& 0 <= s < parts[i].rows.len()
            &&& all_rows(parts)[x] == parts[i].rows[s]
        }),
{
    assert(parts.take(parts.len() as int) =~= parts);
    let i = lemma_row_found(parts, x, parts.len() as int);
    lemma_row_at(parts, i, x - row_count(parts, i));
}

/// The leaves with row `x` of all rows replaced.
pub open spec fn with_row(parts: Seq<Part>, x: int, r: Version) -> Seq<Part> {
    let i = leaf_of(parts, x);
    parts.update(i, Part { rows: parts[i].rows.update(slot_of(parts, x), r), ..parts[i] })
}

/// That replaces it among all rows.
pub proof fn lemma_with_row(parts: Seq<Part>, x: int, r: Version)
    requires
        0 <= x < all_rows(parts).len(),
    ensures
        all_rows(with_row(parts, x, r)) == all_rows(parts).update(x, r),
{
    let i = leaf_of(parts, x);
    let s = slot_of(parts, x);
    lemma_row_of(parts, x);
    lemma_around(parts, i);
    lemma_update_rows(
        parts,
        i,
        Part { rows: parts[i].rows.update(s, r), ..parts[i] },
    );
    assert(all_rows(with_row(parts, x, r)) =~= all_rows(parts).update(x, r));
}

/// The first version that shows is among the first rows, or else among those behind them.
pub proof fn lemma_visible_concat<K: Key>(
    a: Seq<Version>,
    b: Seq<Version>,
    k: Seq<u8>,
    txn: Transaction,
    tm: TmView,
)
    ensures
        first_visible::<K>(a + b, k, txn, tm, 0) == (match first_visible::<K>(a, k, txn, tm, 0) {
            Some(i) => Some(i),
            None => match first_visible::<K>(b, k, txn, tm, 0) {
                Some(j) => Some(a.len() + j),
                None => None,
            },
        }),
        seen::<K>(a + b, k, txn, tm) == (match seen::<K>(a, k, txn, tm) {
            Some(v) => Some(v),
            None => seen::<K>(b, k, txn, tm),
        }),
{
    let c = a + b;
    let n = a.len() as int;
    lemma_first_visible::<K>(a, k, txn, tm, 0);
    lemma_first_visible::<K>(b, k, txn, tm, 0);
    assert forall|i: int| 0 <= i < n implies #[trigger] c[i] == a[i] by {}
    assert forall|i: int| n <= i < c.len() implies #[trigger] c[i] == b[i - n] by {}
    match first_visible::<K>(a, k, txn, tm, 0) {
        Some(i) => {
            lemma_first_is::<K>(c, k, txn, tm, 0, i);
        },
        None => match first_visible::<K>(b, k, txn, tm, 0) {
            Some(j) => {
                assert(c[n + j] == b[j]);
                lemma_first_is::<K>(c, k, txn, tm, 0, n + j);
            },
            None => {
                assert forall|i: int| 0 <= i < c.len() implies !shows::<K>(
                    #[trigger] c[i],
                    k,
                    txn,
                    tm,
                ) by {}
                lemma_first_is::<K>(c, k, txn, tm, 0, c.len() as int);
            },
        },
    }
}

proof fn lemma_conflict_from<K: Key>(
    a: Seq<Version>,
    b: Seq<Version>,
    k: Seq<u8>,
    txn: Transaction,
    tm: TmView,
    i: int,
)
    requires
        0 <= i <= a.len() + b.len(),
    ensures
        first_conflict::<K>(a + b, k, txn, tm, i) == (if i >= a.len() {
            first_conflict::<K>(b, k, txn, tm, i - a.len())
        } else {
            match first_conflict::<K>(a, k, txn, tm, i) {
                Some(c) => Some(c),
                None => first_conflict::<K>(b, k, txn, tm, 0),
            }
        }),
    decreases a.len() + b.len() - i,
{
    let c = a + b;
    if i < c.len() {
        lemma_conflict_from::<K>(a, b, k, txn, tm, i + 1);
        if i < a.len() {
            assert(c[i] == a[i]);
        } else {
            assert(c[i] == b[i - a.len()]);
        }
    }
}

/// So with the first conflict.
pub proof fn lemma_conflict_concat<K: Key>(
    a: Seq<Version>,
    b: Seq<Version>,
    k: Seq<u8>,
    txn: Transaction,
    tm: TmView,
)
    ensures
        first_conflict::<K>(a + b, k, txn, tm, 0) == (match first_conflict::<K>(
            a,
            k,
            txn,
            tm,
            0,
        ) {
            Some(c) => Some(c),
            None => first_conflict::<K>(b, k, txn, tm, 0),
        }),
{
    lemma_conflict_from::<K>(a, b, k, txn, tm, 0);
    if a.len() == 0 {
        assert(a + b =~= b);
    }
}

} // verus!
