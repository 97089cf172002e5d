//! What pages answer: where a search ends, how much rows and separators take, and what is left.

use crate::bytes::{u16_at, u32_at, u64_at};
use crate::page::internal::{
    child_index, int_underfull, int_used, int_view, int_wf, key_total, keys_sorted,
};
use crate::page::leaf::{
    blank_leaf, compacted, even_up, kept_rows, law_compaction_keeps_the_rest, leaf_hkl,
    leaf_underfull, leaf_view, leaf_wf, lemma_kept_bytes, lemma_rows_bytes_edit,
    lemma_rows_bytes_positive, lemma_search, link, live_bytes, packed_room, record_size, row_bytes,
    row_need, rows_bytes, rows_sorted, search, LeafView, Version,
};
use crate::page::{
    checksum_at, half_dead, split_incomplete, with_flags, INTERNAL, LEAF, META, PAGE_SIZE,
};
use crate::transaction::vacuumable;
use crate::transaction_manager::TmView;
use crate::types::Key;
use vstd::prelude::*;

verus! {

/// A search in rows that are in order meets an equal key where there is one. Else it ends where
/// the key would have to be inserted: all rows before have a smaller key, all behind a greater.
pub proof fn law_search<K: Key>(rows: Seq<Version>, query: Seq<u8>, x: int)
    requires
        rows_sorted::<K>(rows),
        forall|i: int| 0 <= i < rows.len() ==> K::accepts(#[trigger] rows[i].key),
        K::accepts(query),
        0 <= x < rows.len(),
    ensures
        ({
            let (at, found) = search::<K>(rows, query, 0, rows.len() as int);
            &&& 0 <= at <= rows.len()
            &&& found ==> at < rows.len() && K::le(rows[at].key, query) && K::le(
                query,
                rows[at].key,
            )
            &&& K::le(rows[x].key, query) && K::le(query, rows[x].key) ==> found
            &&& !found && x < at ==> !K::le(query, rows[x].key)
            &&& !found && x >= at ==> !K::le(rows[x].key, query)
        }),
{
    lemma_search::<K>(rows, query, 0, rows.len() as int);
}

/// The rows of a page are in order where no row's key is greater than that of the next.
pub proof fn law_rows_in_order<K: Key>(rows: Seq<Version>, i: int)
    requires
        rows_sorted::<K>(rows),
        0 <= i < rows.len() - 1,
    ensures
        K::le(rows[i].key, rows[i + 1].key),
{
}

/// Among separators in order there is one child for a key, and only one: the separators before it
/// are not greater than the key, and those behind it are.
pub proof fn law_child_index<K: Key>(keys: Seq<Seq<u8>>, query: Seq<u8>, a: int, b: int, x: int)
    requires
        keys_sorted::<K>(keys),
        child_index::<K>(keys, query, a),
        child_index::<K>(keys, query, b),
        0 <= x < keys.len(),
    ensures
        a == b,
        0 <= a <= keys.len(),
        x < a <==> K::le(keys[x], query),
{
    if a < b {
        assert(K::le(keys[a], query));
    } else if b < a {
        assert(K::le(keys[b], query));
    }
}

/// A record takes its header, its key and its value, each of the two with at most one byte more,
/// so that what follows begins at an even offset.
pub proof fn law_record_size(klen: int, vlen: int)
    requires
        0 <= klen,
        0 <= vlen,
    ensures
        24 + klen + vlen <= record_size(klen, vlen) <= 26 + klen + vlen,
        record_size(klen, vlen) % 2 == 0,
        klen <= even_up(klen) <= klen + 1,
        even_up(klen) % 2 == 0,
        klen % 2 == 0 && vlen % 2 == 0 ==> record_size(klen, vlen) == 24 + klen + vlen,
{
}

/// A row takes from a packed page what its record and its slot take, wherever it is inserted; what
/// is left of a page without rows is all behind the header and the high key.
pub proof fn law_packed_room(high: Option<Seq<u8>>, rows: Seq<Version>, at: int, r: Version)
    requires
        0 <= at <= rows.len(),
    ensures
        packed_room(high, rows.insert(at, r)) == packed_room(high, rows) - 4 - record_size(
            r.key.len() as int,
            r.val.len() as int,
        ),
        row_need(r.key, r.val) == 4 + record_size(r.key.len() as int, r.val.len() as int),
        packed_room(None, Seq::empty()) == PAGE_SIZE - 48,
        high matches Some(h) ==> {
            let left = packed_room(high, Seq::empty());
            left == PAGE_SIZE - 48 - h.len() - (if h.len() % 2 == 0 {
                0int
            } else {
                1
            })
        },
{
    lemma_rows_bytes_edit(rows, at, r);
}

/// A new leaf has no rows, no neighbours and no bound, and all behind its header is free.
pub proof fn law_blank_leaf(id: u64)
    ensures
        blank_leaf(id).id == id,
        blank_leaf(id).rows.len() == 0,
        blank_leaf(id).prev is None,
        blank_leaf(id).right is None,
        blank_leaf(id).high is None,
        blank_leaf(id).flags == 0,
        blank_leaf(id).lsn == 0,
        blank_leaf(id).free == packed_room(None, Seq::empty()),
{
}

/// Of the rows of a leaf those count as live that no transaction has deleted, each with its record
/// and its slot.
pub proof fn law_live_bytes(rows: Seq<Version>)
    ensures
        ({
            let live = rows.filter(|r: Version| r.xmax == 0);
            live_bytes(rows) == rows_bytes(live) + 4 * live.len()
        }),
        0 <= live_bytes(rows),
    decreases rows.len(),
{
    reveal(Seq::filter);
    lemma_rows_bytes_positive(rows.filter(|r: Version| r.xmax == 0));
    if rows.len() > 0 {
        let init = rows.drop_last();
        law_live_bytes(init);
        let f = |r: Version| r.xmax == 0;
        let live = init.filter(f);
        assert(live.push(rows.last()).drop_last() =~= live);
    }
}

/// A leaf without rows is underfull. Another is underfull exactly where less is taken by its live
/// rows than is left of what is behind its header and its high key.
pub proof fn law_leaf_underfull(s: Seq<u8>)
    ensures
        ({
            let v = leaf_view(s);
            let live = v.rows.filter(|r: Version| r.xmax == 0);
            let taken = rows_bytes(live) + 4 * live.len();
            let space = packed_room(v.high, Seq::empty());
            &&& v.rows.len() == 0 ==> leaf_underfull(s)
            &&& v.rows.len() > 0 && s.len() == PAGE_SIZE && leaf_hkl(s) <= PAGE_SIZE - 48 ==> (
            leaf_underfull(s) <==> taken < space - taken)
        }),
{
    law_live_bytes(leaf_view(s).rows);
}

/// An internal page is underfull exactly where more of it is free than is taken.
pub proof fn law_int_underfull(s: Seq<u8>)
    requires
        int_wf(s),
    ensures
        ({
            let v = int_view(s);
            let taken = int_used(v.keys) + (match v.high {
                Some(h) => h.len() as int,
                None => 0,
            });
            int_underfull(s) <==> PAGE_SIZE - taken > taken
        }),
{
    crate::page::internal::lemma_int_used(s);
}

/// The fields of a leaf stand where its format puts them.
pub proof fn law_leaf_layout(s: Seq<u8>, i: int)
    requires
        leaf_wf(s),
        0 <= i < u16_at(s, 2),
    ensures
        ({
            let v = leaf_view(s);
            let hkl = u16_at(s, 40) as int;
            let slot = 48 + hkl + hkl % 2 + 4 * i;
            let at = u16_at(s, slot) as int;
            let klen = u16_at(s, at) as int;
            let vlen = u16_at(s, at + 2) as int;
            let val = at + 24 + klen + klen % 2;
            &&& v.id == u64_at(s, 8)
            &&& v.lsn == u64_at(s, 16)
            &&& v.flags == s[1]
            &&& v.prev is None <==> u64_at(s, 24) == 0
            &&& v.prev matches Some(p) ==> p == u64_at(s, 24)
            &&& v.right is None <==> u64_at(s, 32) == 0
            &&& v.right matches Some(p) ==> p == u64_at(s, 32)
            &&& v.high is None <==> hkl == 0
            &&& v.high matches Some(h) ==> h == s.subrange(48, 48 + hkl)
            &&& v.rows.len() == u16_at(s, 2)
            &&& v.rows[i].key == s.subrange(at + 24, at + 24 + klen)
            &&& v.rows[i].val == s.subrange(val, val + vlen)
            &&& v.rows[i].xmin == u64_at(s, at + 8)
            &&& v.rows[i].xmax == u64_at(s, at + 16)
            &&& v.free == u16_at(s, 6) - u16_at(s, 4)
        }),
{
}

/// The fields of an internal page stand where its format puts them.
pub proof fn law_int_layout(s: Seq<u8>, i: int)
    requires
        int_wf(s),
        0 <= i < u16_at(s, 2),
    ensures
        ({
            let v = int_view(s);
            let n = u16_at(s, 2) as int;
            let hkl = u16_at(s, 4) as int;
            let start = if i == 0 {
                0
            } else {
                u32_at(s, 48 + 8 * n + 4 * (i - 1)) as int
            };
            let end = u32_at(s, 48 + 8 * n + 4 * i) as int;
            let base = 48 + 12 * n;
            &&& v.id == u64_at(s, 8)
            &&& v.lsn == u64_at(s, 16)
            &&& v.flags == s[1]
            &&& v.right is None <==> u64_at(s, 24) == 0
            &&& v.right matches Some(p) ==> p == u64_at(s, 24)
            &&& v.high is None <==> hkl == 0
            &&& v.high matches Some(h) ==> h == s.subrange(PAGE_SIZE - hkl, PAGE_SIZE as int)
            &&& v.keys.len() == n
            &&& v.children.len() == n + 1
            &&& v.children[0] == u64_at(s, 40)
            &&& v.children[i + 1] == u64_at(s, 48 + 8 * i)
            &&& v.keys[i] == s.subrange(base + start, base + end)
        }),
{
}

/// Rows take what their records take, one by one.
pub proof fn law_rows_bytes(rows: Seq<Version>, at: int, r: Version)
    requires
        0 <= at <= rows.len(),
    ensures
        rows_bytes(Seq::empty()) == 0,
        rows_bytes(rows.insert(at, r)) == rows_bytes(rows) + record_size(
            r.key.len() as int,
            r.val.len() as int,
        ),
        row_bytes(r) == record_size(r.key.len() as int, r.val.len() as int),
{
    lemma_rows_bytes_edit(rows, at, r);
}

/// A compacted leaf is the leaf without the rows that vacuum may remove, and has their bytes free;
/// its neighbours, bound and log sequence number stay.
pub proof fn law_compacted(leaf: LeafView, horizon: u64, tm: TmView)
    ensures
        ({
            let after = compacted(leaf, leaf.id, horizon, tm);
            &&& after.rows == leaf.rows.filter(
                |r: Version| !vacuumable(r.xmin, r.xmax, horizon, tm),
            )
            &&& after.id == leaf.id
            &&& after.lsn == leaf.lsn
            &&& after.prev == leaf.prev
            &&& after.right == leaf.right
            &&& after.high == leaf.high
            &&& after.free == packed_room(leaf.high, after.rows)
            &&& after.free >= packed_room(leaf.high, leaf.rows)
        }),
{
    law_compaction_keeps_the_rest(leaf.rows, horizon, tm);
    lemma_kept_bytes(leaf.rows, horizon, tm);
    assert(kept_rows(leaf.rows, horizon, tm).len() <= leaf.rows.len());
}

/// Page 0 is no neighbour; every other number is that of one.
pub proof fn law_link(v: u64)
    ensures
        link(v) is None <==> v == 0,
        link(v) matches Some(p) ==> p == v,
{
}

/// A separator takes its bytes, the offset of its end and the child behind it, wherever it is
/// inserted; a page without separators takes its header and its first child.
pub proof fn law_int_used(keys: Seq<Seq<u8>>, at: int, key: Seq<u8>)
    requires
        0 <= at <= keys.len(),
    ensures
        int_used(keys.insert(at, key)) == int_used(keys) + 12 + key.len(),
        int_used(Seq::empty()) == 48,
{
    lemma_total_insert(keys, at, key, keys.len() as int);
}

proof fn lemma_total_insert(keys: Seq<Seq<u8>>, at: int, key: Seq<u8>, n: int)
    requires
        0 <= at <= n <= keys.len(),
    ensures
        key_total(keys.insert(at, key), n + 1) == key_total(keys, n) + key.len(),
    decreases n - at,
{
    let more = keys.insert(at, key);
    if n > at {
        lemma_total_insert(keys, at, key, n - 1);
        assert(more[n] == keys[n - 1]);
    } else {
        lemma_total_same(keys, more, n);
    }
}

proof fn lemma_total_same(a: Seq<Seq<u8>>, b: Seq<Seq<u8>>, n: int)
    requires
        0 <= n <= a.len(),
        n <= b.len(),
        forall|i: int| 0 <= i < n ==> a[i] == b[i],
    ensures
        key_total(a, n) == key_total(b, n),
    decreases n,
{
    if n > 0 {
        lemma_total_same(a, b, n - 1);
    }
}

/// Leaves, internal pages and the metadata page carry a checksum, each in its header, and no other
/// page does.
pub proof fn law_pages_with_checksum(t: u8)
    ensures
        checksum_at(t) is Some <==> t == LEAF || t == INTERNAL || t == META,
        checksum_at(t) matches Some(off) ==> 24 <= off && off + 4 <= 64,
        checksum_at(LEAF)->0 + 4 <= 48,
        checksum_at(INTERNAL)->0 + 4 <= 40,
{
}

/// Each flag of a page is read from its own bit, and writing the flags changes nothing else.
pub proof fn law_flag_bits(page: Seq<u8>, f: u8, i: int)
    requires
        page.len() == PAGE_SIZE,
        0 <= i < PAGE_SIZE,
    ensures
        split_incomplete(with_flags(page, f)) == (f % 2 == 1),
        half_dead(with_flags(page, f)) == (f / 2 % 2 == 1),
        i != 1 ==> with_flags(page, f)[i] == page[i],
{
    assert((f & 1 != 0) == (f % 2 == 1) && (f & 2 != 0) == (f / 2 % 2 == 1)) by (bit_vector);
}

} // verus!
