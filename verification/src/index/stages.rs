//! What is read of the states that an operation passes through.

use crate::error::IndexError;
use crate::index::flat::all_rows;
use crate::index::laws::{
    can_put, lemma_lookup_splice, lemma_seen_same, lemma_stage_rows, lemma_stage_seen,
};
use crate::index::rows::{placed, seen, shows, splice};
use crate::index::smo::{put_outcome, put_stage};
use crate::index::tree::Part;
use crate::index::{lookup, BTreeIndex};
use crate::page::leaf::Version;
use crate::transaction::{vacuumable, Transaction};
use crate::transaction_manager::TmView;
use crate::types::{Key, Value};
use vstd::prelude::*;

verus! {

/// Nothing that the reader sees is among the rows that vacuum may remove. What vacuum goes by
/// and what the reader goes by need not be the same.
pub open spec fn spares(
    rows: Seq<Version>,
    horizon: u64,
    vt: TmView,
    reader: Transaction,
    tm: TmView,
) -> bool {
    forall|i: int|
        0 <= i < rows.len() && vacuumable((#[trigger] rows[i]).xmin, rows[i].xmax, horizon, vt)
            ==> !reader.sees(rows[i].xmin, rows[i].xmax, tm)
}

/// The leaves are as they were, or putting the version into one of them can stop so.
pub open spec fn reached<K: Key>(
    before: Seq<Part>,
    at: int,
    p: Part,
    k: Seq<u8>,
    v: Seq<u8>,
    txn_id: u64,
    vt: TmView,
    after: Seq<Part>,
) -> bool {
    ||| after == before
    ||| exists|stage: Seq<Part>|
        put_stage::<K>(p, k, v, txn_id, vt.global_xmin(), vt, stage) && after == #[trigger] splice(
            before,
            at,
            stage,
        )
}

/// Whatever putting a version came to is reached so.
pub proof fn lemma_reached<K: Key, V: Value>(
    before: Seq<Part>,
    at: int,
    p: Part,
    k: Seq<u8>,
    v: Seq<u8>,
    txn_id: u64,
    vt: TmView,
    r: Result<(), IndexError>,
    t: BTreeIndex<K, V>,
)
    requires
        put_outcome(before, at, p, k, v, txn_id, vt, r, t),
    ensures
        reached::<K>(before, at, p, k, v, txn_id, vt, t.parts()),
{
    let out = placed::<K>(p, k, v, txn_id, vt.global_xmin(), vt).0;
    assert(put_stage::<K>(p, k, v, txn_id, vt.global_xmin(), vt, out));
    if t.parts() == splice(before, at, out) {
        assert(reached::<K>(before, at, p, k, v, txn_id, vt, t.parts()));
    }
}

/// In every state that is reached while a version is put into a leaf, a reader that does not
/// see the version reads of every key what it read before.
pub proof fn lemma_stage_reads<K: Key, V: Value>(
    before: Seq<Part>,
    at: int,
    k: Seq<u8>,
    v: Seq<u8>,
    txn_id: u64,
    vt: TmView,
    stage: Seq<Part>,
    k2: Seq<u8>,
    reader: Transaction,
    tm: TmView,
)
    requires
        can_put::<K, V>(before, at, before[at], k, v),
        put_stage::<K>(before[at], k, v, txn_id, vt.global_xmin(), vt, stage),
        !reader.sees(txn_id, 0, tm),
        spares(before[at].rows, vt.global_xmin(), vt, reader, tm),
    ensures
        lookup::<K>(splice(before, at, stage), k2, reader, tm) == lookup::<K>(
            before,
            k2,
            reader,
            tm,
        ),
{
    let h = vt.global_xmin();
    let p = before[at];
    let new = Version { key: k, val: v, xmin: txn_id, xmax: 0 };
    lemma_stage_rows::<K, V>(before, at, p, k, v, txn_id, h, vt, stage);
    lemma_stage_seen::<K>(p.rows, all_rows(stage), new, h, vt, k2, reader, tm);
    lemma_lookup_splice::<K>(before, at, stage, k2, reader, tm);
}

/// A row that is marked shows as it did to a reader to whom the mark makes no difference.
pub proof fn lemma_marked_reads<K: Key>(
    rows: Seq<Version>,
    s: int,
    txn_id: u64,
    k2: Seq<u8>,
    reader: Transaction,
    tm: TmView,
)
    requires
        0 <= s < rows.len(),
        reader.sees(rows[s].xmin, txn_id, tm) == reader.sees(rows[s].xmin, rows[s].xmax, tm),
    ensures
        seen::<K>(rows.update(s, Version { xmax: txn_id, ..rows[s] }), k2, reader, tm)
            == seen::<K>(rows, k2, reader, tm),
{
    let out = rows.update(s, Version { xmax: txn_id, ..rows[s] });
    let f = |i: int| i;
    assert forall|i: int| 0 <= i < rows.len() implies #[trigger] shows::<K>(
        rows[i],
        k2,
        reader,
        tm,
    ) == shows::<K>(out[i], k2, reader, tm) && rows[i].val == out[i].val by {
        if i != s {
            assert(out[i] == rows[i]);
        }
    }
    assert forall|j: int| 0 <= j < out.len() && shows::<K>(#[trigger] out[j], k2, reader, tm) implies exists|
        i: int,
    |
        0 <= i < rows.len() && #[trigger] f(i) == j && shows::<K>(rows[i], k2, reader, tm) by {
        assert(f(j) == j);
        assert(shows::<K>(rows[j], k2, reader, tm));
    }
    lemma_seen_same::<K>(rows, out, f, k2, reader, tm);
}

} // verus!
