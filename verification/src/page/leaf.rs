//! Leaf pages: the record versions of the index, in key order.
//!
//! A page starts with a header of 48 bytes: page type at 0, flags at 1, slot count
//! at 2, end of the slot directory at 4, start of the record area at 6, page id at 8,
//! log sequence number at 16, previous leaf at 24, right sibling at 32, length of the
//! high key at 40 and checksum at 44. The high key follows, then, on an even offset,
//! the slot directory, which grows upwards: four bytes a slot, offset and size of a
//! record. The record area grows downwards from the end of the page. A record holds
//! the lengths of key and value, a reserved word, `xmin`, `xmax`, the key, padding to
//! an even offset, and the value.

use crate::bytes::{
    copy_range, lemma_moved_u16, lemma_put_u16, lemma_put_u64, lemma_same_u16, lemma_same_u64, put,
    read_u16, read_u64, same, u16_at, u16_bytes, u64_at, u64_bytes, write_bytes, write_u16,
    write_u32, write_u64, write_u8, zero_bytes,
};
use crate::error::PageError;
use crate::page::{with_lsn, Lsn, PageId, LEAF, OFF_LSN, OFF_PAGE_ID, OFF_PAGE_TYPE, PAGE_SIZE};
use crate::transaction::vacuumable;
use crate::transaction_manager::{TmView, TransactionManager};
use crate::types::{canonical, key_before, key_order, key_same, Key, Value};
use std::marker::PhantomData;
use vstd::prelude::*;
use vstd::slice::slice_subrange;

verus! {

broadcast use crate::bytes::group_int_bytes;

pub const OFF_LEAF_SLOT_COUNT: usize = 2;

pub const OFF_LEAF_FREE_START: usize = 4;

pub const OFF_LEAF_FREE_END: usize = 6;

pub const OFF_LEAF_PREV: usize = 24;

pub const OFF_LEAF_RIGHTLINK: usize = 32;

pub const OFF_LEAF_HIGH_KEY_LEN: usize = 40;

pub const LEAF_HEADER_SIZE: usize = 48;

pub const SLOT_SIZE: usize = 4;

pub const REC_OFF_KEY_LEN: usize = 0;

pub const REC_OFF_VAL_LEN: usize = 2;

pub const REC_OFF_XMIN: usize = 8;

pub const REC_OFF_XMAX: usize = 16;

pub const REC_HEADER_SIZE: usize = 24;

/// One version of a key: its bytes, its value, and the transactions that created and
/// deleted it (0 while no transaction has).
#[verifier::ext_equal]
pub ghost struct Version {
    pub key: Seq<u8>,
    pub val: Seq<u8>,
    pub xmin: u64,
    pub xmax: u64,
}

/// What a leaf page holds.
#[verifier::ext_equal]
pub ghost struct LeafView {
    pub id: PageId,
    pub lsn: Lsn,
    pub flags: u8,
    pub prev: Option<PageId>,
    pub right: Option<PageId>,
    /// The exclusive upper bound of the keys, or `None` for the rightmost leaf.
    pub high: Option<Seq<u8>>,
    pub rows: Seq<Version>,
    /// Bytes between the slot directory and the record area.
    pub free: int,
}

/// The next even number.
pub open spec fn even_up(n: int) -> int {
    n + n % 2
}

/// Offset of the slot directory.
pub open spec fn slot_base_of(hkl: int) -> int {
    48 + even_up(hkl)
}

/// Offset of the slot `i`.
pub open spec fn slot_at(hkl: int, i: int) -> int {
    slot_base_of(hkl) + 4 * i
}

/// Bytes that a record takes.
pub open spec fn record_size(klen: int, vlen: int) -> int {
    24 + even_up(klen) + even_up(vlen)
}

/// Bytes that a record and its slot take.
pub open spec fn row_need(key: Seq<u8>, val: Seq<u8>) -> int {
    4 + record_size(key.len() as int, val.len() as int)
}

/// A row with a key and a value of these lengths fits into the free space as it is.
pub open spec fn leaf_fits(s: Seq<u8>, klen: int, vlen: int) -> bool {
    leaf_view(s).free >= 4 + record_size(klen, vlen)
}

/// Where a row fits, one that is no longer fits too; and each row takes its slot, its header
/// and its key and value, both rounded up to an even length.
pub proof fn law_leaf_fits(s: Seq<u8>, key: Seq<u8>, val: Seq<u8>, klen: int, vlen: int)
    requires
        key.len() <= klen,
        val.len() <= vlen,
    ensures
        leaf_fits(s, klen, vlen) ==> leaf_fits(s, key.len() as int, val.len() as int),
        row_need(key, val) == 28 + even_up(key.len() as int) + even_up(val.len() as int),
        leaf_fits(s, key.len() as int, val.len() as int) == (leaf_view(s).free >= row_need(
            key,
            val,
        )),
{
}

pub open spec fn leaf_count(s: Seq<u8>) -> int {
    u16_at(s, 2) as int
}

pub open spec fn leaf_free_start(s: Seq<u8>) -> int {
    u16_at(s, 4) as int
}

pub open spec fn leaf_free_end(s: Seq<u8>) -> int {
    u16_at(s, 6) as int
}

pub open spec fn leaf_hkl(s: Seq<u8>) -> int {
    u16_at(s, 40) as int
}

/// Offset of the record of slot `i`.
pub open spec fn rec_off(s: Seq<u8>, i: int) -> int {
    u16_at(s, slot_at(leaf_hkl(s), i)) as int
}

/// Size of the record of slot `i`.
pub open spec fn rec_len(s: Seq<u8>, i: int) -> int {
    u16_at(s, slot_at(leaf_hkl(s), i) + 2) as int
}

pub open spec fn rec_klen(s: Seq<u8>, off: int) -> int {
    u16_at(s, off) as int
}

pub open spec fn rec_vlen(s: Seq<u8>, off: int) -> int {
    u16_at(s, off + 2) as int
}

/// The record at `off`.
pub open spec fn record_at(s: Seq<u8>, off: int) -> Version {
    let k = rec_klen(s, off);
    let v = rec_vlen(s, off);
    let voff = off + 24 + even_up(k);
    Version {
        key: s.subrange(off + 24, off + 24 + k),
        val: s.subrange(voff, voff + v),
        xmin: u64_at(s, off + 8),
        xmax: u64_at(s, off + 16),
    }
}

/// A page number in which 0 stands for none.
pub open spec fn link(v: u64) -> Option<PageId> {
    if v == 0 {
        None
    } else {
        Some(v)
    }
}

/// The record of slot `i` lies in the record area and is as long as its slot says.
pub open spec fn slot_ok(s: Seq<u8>, i: int) -> bool {
    &&& leaf_free_end(s) <= rec_off(s, i)
    &&& rec_off(s, i) + rec_len(s, i) <= PAGE_SIZE
    &&& rec_len(s, i) == record_size(rec_klen(s, rec_off(s, i)), rec_vlen(s, rec_off(s, i)))
}

/// The records of the slots `i` and `j` do not overlap.
pub open spec fn slots_apart(s: Seq<u8>, i: int, j: int) -> bool {
    rec_off(s, i) + rec_len(s, i) <= rec_off(s, j) || rec_off(s, j) + rec_len(s, j) <= rec_off(s, i)
}

/// Bytes that the record of a row takes.
pub open spec fn row_bytes(r: Version) -> int {
    record_size(r.key.len() as int, r.val.len() as int)
}

/// Bytes that the records of the rows take.
pub open spec fn rows_bytes(rows: Seq<Version>) -> int
    decreases rows.len(),
{
    if rows.len() == 0 {
        0
    } else {
        rows_bytes(rows.drop_last()) + row_bytes(rows.last())
    }
}

pub proof fn lemma_rows_bytes_concat(a: Seq<Version>, b: Seq<Version>)
    ensures
        rows_bytes(a + b) == rows_bytes(a) + rows_bytes(b),
        0 <= rows_bytes(a),
        0 <= rows_bytes(b),
    decreases b.len(),
{
    lemma_rows_bytes_positive(a);
    lemma_rows_bytes_positive(b);
    if b.len() == 0 {
        assert(a + b =~= a);
    } else {
        lemma_rows_bytes_concat(a, b.drop_last());
        assert((a + b).drop_last() =~= a + b.drop_last());
    }
}

pub proof fn lemma_rows_bytes_positive(a: Seq<Version>)
    ensures
        24 * a.len() <= rows_bytes(a),
    decreases a.len(),
{
    if a.len() > 0 {
        lemma_rows_bytes_positive(a.drop_last());
    }
}

pub proof fn lemma_rows_bytes_one(r: Version)
    ensures
        rows_bytes(seq![r]) == row_bytes(r),
{
    reveal_with_fuel(rows_bytes, 2);
    assert(seq![r].drop_last() =~= Seq::<Version>::empty());
}

/// Inserting, removing and restamping a row change the total by that row alone.
pub proof fn lemma_rows_bytes_edit(rows: Seq<Version>, pos: int, r: Version)
    requires
        0 <= pos <= rows.len(),
    ensures
        rows_bytes(rows.insert(pos, r)) == rows_bytes(rows) + row_bytes(r),
        pos < rows.len() ==> rows_bytes(rows.remove(pos)) == rows_bytes(rows) - row_bytes(
            rows[pos],
        ),
        pos < rows.len() ==> rows_bytes(rows.update(pos, r)) == rows_bytes(rows) - row_bytes(
            rows[pos],
        ) + row_bytes(r),
{
    let one = seq![r];
    lemma_rows_bytes_one(r);
    let a = rows.take(pos);
    let b = rows.skip(pos);
    lemma_rows_bytes_concat(a, b);
    assert(a + b =~= rows);
    lemma_rows_bytes_concat(a, one);
    lemma_rows_bytes_concat(a + one, b);
    assert(a + one + b =~= rows.insert(pos, r));
    if pos < rows.len() {
        let c = rows.skip(pos + 1);
        let x = seq![rows[pos]];
        lemma_rows_bytes_one(rows[pos]);
        lemma_rows_bytes_concat(x, c);
        assert(x + c =~= b);
        lemma_rows_bytes_concat(a, c);
        assert(a + c =~= rows.remove(pos));
        lemma_rows_bytes_concat(a + one, c);
        assert(a + one + c =~= rows.update(pos, r));
    }
}

/// The page is a leaf whose slot directory and records are laid out as described.
pub open spec fn leaf_wf(s: Seq<u8>) -> bool {
    &&& s.len() == PAGE_SIZE
    &&& s[0] == LEAF
    &&& leaf_free_start(s) == slot_at(leaf_hkl(s), leaf_count(s))
    &&& leaf_free_start(s) <= leaf_free_end(s) <= PAGE_SIZE
    &&& forall|i: int| 0 <= i < leaf_count(s) ==> #[trigger] slot_ok(s, i)
    &&& forall|i: int, j: int|
        0 <= i < j < leaf_count(s) ==> #[trigger] slots_apart(s, i, j)
    &&& rows_bytes(leaf_rows(s)) <= PAGE_SIZE - leaf_free_end(s)
}

/// The rows of a leaf page.
pub open spec fn leaf_rows(s: Seq<u8>) -> Seq<Version> {
    Seq::new(leaf_count(s) as nat, |i: int| record_at(s, rec_off(s, i)))
}

/// The high key of a leaf page.
pub open spec fn leaf_high(s: Seq<u8>) -> Option<Seq<u8>> {
    if leaf_hkl(s) == 0 {
        None
    } else {
        Some(s.subrange(48, 48 + leaf_hkl(s)))
    }
}

/// What a leaf page holds.
pub open spec fn leaf_view(s: Seq<u8>) -> LeafView {
    LeafView {
        id: u64_at(s, 8),
        lsn: u64_at(s, 16),
        flags: s[1],
        prev: link(u64_at(s, 24)),
        right: link(u64_at(s, 32)),
        high: leaf_high(s),
        rows: leaf_rows(s),
        free: leaf_free_end(s) - leaf_free_start(s),
    }
}

/// Records with equal bytes hold the same version.
proof fn lemma_record_same(s: Seq<u8>, t: Seq<u8>, off: int)
    requires
        0 <= off,
        s.len() == t.len(),
        off + record_size(rec_klen(s, off), rec_vlen(s, off)) <= s.len(),
        same(s, t, off, off + record_size(rec_klen(s, off), rec_vlen(s, off))),
    ensures
        record_at(t, off) == record_at(s, off),
        rec_klen(t, off) == rec_klen(s, off),
        rec_vlen(t, off) == rec_vlen(s, off),
{
    lemma_same_u16(s, t, off);
    lemma_same_u16(s, t, off + 2);
    lemma_same_u64(s, t, off + 8);
    lemma_same_u64(s, t, off + 16);
    assert(record_at(t, off).key =~= record_at(s, off).key);
    assert(record_at(t, off).val =~= record_at(s, off).val);
}

/// Header fields outside `lo..hi` are the same where the bytes are.
proof fn lemma_header_same(s: Seq<u8>, t: Seq<u8>)
    requires
        same(s, t, 8, 48),
        s.len() == PAGE_SIZE,
        t.len() == PAGE_SIZE,
    ensures
        u64_at(s, 8) == u64_at(t, 8),
        u64_at(s, 16) == u64_at(t, 16),
        u64_at(s, 24) == u64_at(t, 24),
        u64_at(s, 32) == u64_at(t, 32),
        leaf_hkl(s) == leaf_hkl(t),
{
    lemma_same_u64(s, t, 8);
    lemma_same_u64(s, t, 16);
    lemma_same_u64(s, t, 24);
    lemma_same_u64(s, t, 32);
    lemma_same_u16(s, t, 40);
}

/// Replacing a header field of eight bytes leaves slots and records as they are.
proof fn lemma_header_u64(s: Seq<u8>, off: int, v: u64)
    requires
        leaf_wf(s),
        off == 16 || off == 24 || off == 32,
    ensures
        leaf_wf(put(s, off, u64_bytes(v))),
        off == 16 ==> leaf_view(put(s, off, u64_bytes(v))) == (LeafView { lsn: v, ..leaf_view(s) }),
        off == 24 ==> leaf_view(put(s, off, u64_bytes(v))) == (LeafView {
            prev: link(v),
            ..leaf_view(s)
        }),
        off == 32 ==> leaf_view(put(s, off, u64_bytes(v))) == (LeafView {
            right: link(v),
            ..leaf_view(s)
        }),
{
    let t = put(s, off, u64_bytes(v));
    lemma_put_u64(s, off, v);
    lemma_same_u16(s, t, 2);
    lemma_same_u16(s, t, 4);
    lemma_same_u16(s, t, 6);
    lemma_same_u16(s, t, 40);
    lemma_same_u64(s, t, 8);
    if off != 16 {
        lemma_same_u64(s, t, 16);
    }
    if off != 24 {
        lemma_same_u64(s, t, 24);
    }
    if off != 32 {
        lemma_same_u64(s, t, 32);
    }
    lemma_body_same(s, t);
}

/// Pages with equal counters and equal bytes from the high key on hold the same rows.
proof fn lemma_body_same(s: Seq<u8>, t: Seq<u8>)
    requires
        leaf_wf(s),
        t.len() == PAGE_SIZE,
        t[0] == LEAF,
        leaf_count(t) == leaf_count(s),
        leaf_free_start(t) == leaf_free_start(s),
        leaf_free_end(t) == leaf_free_end(s),
        leaf_hkl(t) == leaf_hkl(s),
        same(s, t, 48, PAGE_SIZE as int),
    ensures
        leaf_wf(t),
        leaf_rows(t) == leaf_rows(s),
        leaf_high(t) == leaf_high(s),
{
    assert forall|i: int| 0 <= i < leaf_count(s) implies rec_off(t, i) == rec_off(s, i) && rec_len(
        t,
        i,
    ) == rec_len(s, i) && #[trigger] slot_ok(t, i) && record_at(t, rec_off(t, i)) == record_at(
        s,
        rec_off(s, i),
    ) by {
        assert(slot_ok(s, i));
        lemma_same_u16(s, t, slot_at(leaf_hkl(s), i));
        lemma_same_u16(s, t, slot_at(leaf_hkl(s), i) + 2);
        lemma_record_same(s, t, rec_off(s, i));
    }
    assert forall|i: int, j: int| 0 <= i < j < leaf_count(t) implies #[trigger] slots_apart(
        t,
        i,
        j,
    ) by {
        assert(slots_apart(s, i, j));
        assert(slot_ok(t, i));
        assert(slot_ok(t, j));
    }
    assert(leaf_rows(t) =~= leaf_rows(s)) by {
        assert forall|i: int| 0 <= i < leaf_count(s) implies leaf_rows(t)[i] == leaf_rows(s)[i] by {
            assert(slot_ok(t, i));
        }
    }
    if leaf_hkl(s) != 0 {
        assert(t.subrange(48, 48 + leaf_hkl(s)) =~= s.subrange(48, 48 + leaf_hkl(s)));
    }
}

/// Replacing the flags byte changes nothing else.
pub proof fn lemma_leaf_flags(s: Seq<u8>, f: u8)
    requires
        leaf_wf(s),
    ensures
        leaf_wf(crate::page::with_flags(s, f)),
        leaf_view(crate::page::with_flags(s, f)) == (LeafView { flags: f, ..leaf_view(s) }),
{
    let t = crate::page::with_flags(s, f);
    lemma_same_u16(s, t, 2);
    lemma_same_u16(s, t, 4);
    lemma_same_u16(s, t, 6);
    lemma_header_same(s, t);
    lemma_body_same(s, t);
}

/// Replacing the log sequence number changes nothing else.
pub proof fn lemma_leaf_lsn(s: Seq<u8>, lsn: u64)
    requires
        leaf_wf(s),
    ensures
        leaf_wf(with_lsn(s, lsn)),
        leaf_view(with_lsn(s, lsn)) == (LeafView { lsn, ..leaf_view(s) }),
{
    lemma_header_u64(s, 16, lsn);
}

/// Replacing the checksum changes nothing else.
pub proof fn lemma_leaf_stamp(s: Seq<u8>, crc: u32)
    requires
        leaf_wf(s),
    ensures
        leaf_wf(crate::page::stamped(s, crc)),
        leaf_view(crate::page::stamped(s, crc)) == leaf_view(s),
{
    let t = crate::page::stamped(s, crc);
    lemma_same_u16(s, t, 2);
    lemma_same_u16(s, t, 4);
    lemma_same_u16(s, t, 6);
    lemma_same_u64(s, t, 8);
    lemma_same_u64(s, t, 16);
    lemma_same_u64(s, t, 24);
    lemma_same_u64(s, t, 32);
    lemma_same_u16(s, t, 40);
    lemma_body_same(s, t);
}

/// Adding a row: the bytes `t` hold the record of a new row at `base`, a slot for it at
/// `pos`, the other slots in their old order, and the counters that belong to it.
proof fn lemma_row_added(
    s: Seq<u8>,
    t: Seq<u8>,
    pos: int,
    row: Version,
    base: int,
    size: int,
)
    requires
        leaf_wf(s),
        0 <= pos <= leaf_count(s),
        size == record_size(row.key.len() as int, row.val.len() as int),
        base == leaf_free_end(s) - size,
        leaf_free_start(s) + 4 <= base,
        t.len() == PAGE_SIZE,
        t[0] == s[0],
        t[1] == s[1],
        same(s, t, 8, slot_at(leaf_hkl(s), pos)),
        same(s, t, leaf_free_end(s), PAGE_SIZE as int),
        leaf_count(t) == leaf_count(s) + 1,
        leaf_free_start(t) == leaf_free_start(s) + 4,
        leaf_free_end(t) == base,
        u16_at(t, slot_at(leaf_hkl(s), pos)) == base,
        u16_at(t, slot_at(leaf_hkl(s), pos) + 2) == size,
        forall|i: int|
            slot_at(leaf_hkl(s), pos) <= i < leaf_free_start(s) ==> #[trigger] s[i] == t[i + 4],
        record_at(t, base) == row,
        rec_klen(t, base) == row.key.len(),
        rec_vlen(t, base) == row.val.len(),
    ensures
        leaf_wf(t),
        leaf_view(t) == (LeafView {
            rows: leaf_rows(s).insert(pos, row),
            free: leaf_view(s).free - 4 - size,
            ..leaf_view(s)
        }),
{
    let h = leaf_hkl(s);
    let n = leaf_count(s);
    assert(same(s, t, 8, 48));
    lemma_header_same(s, t);
    assert forall|i: int| 0 <= i < pos implies rec_off(t, i) == rec_off(s, i) && rec_len(t, i)
        == rec_len(s, i) && #[trigger] slot_ok(t, i) && record_at(t, rec_off(t, i)) == record_at(
        s,
        rec_off(s, i),
    ) by {
        assert(slot_ok(s, i));
        lemma_same_u16(s, t, slot_at(h, i));
        lemma_same_u16(s, t, slot_at(h, i) + 2);
        lemma_record_same(s, t, rec_off(s, i));
    }
    assert forall|i: int| pos < i <= n implies rec_off(t, i) == rec_off(s, i - 1) && rec_len(t, i)
        == rec_len(s, i - 1) && #[trigger] slot_ok(t, i) && record_at(t, rec_off(t, i))
        == record_at(s, rec_off(s, i - 1)) by {
        assert(slot_ok(s, i - 1));
        let o = slot_at(h, i - 1);
        assert(s[o] == t[o + 4]);
        assert(s[o + 1] == t[o + 1 + 4]);
        assert(s[o + 2] == t[o + 2 + 4]);
        assert(s[o + 3] == t[o + 3 + 4]);
        lemma_moved_u16(s, o, t, o + 4);
        lemma_moved_u16(s, o + 2, t, o + 6);
        lemma_record_same(s, t, rec_off(s, i - 1));
    }
    assert(slot_ok(t, pos));
    assert forall|i: int, j: int| 0 <= i < j < n + 1 implies #[trigger] slots_apart(t, i, j) by {
        assert(slot_ok(t, i));
        assert(slot_ok(t, j));
        let a = if i < pos { i } else { i - 1 };
        let b = if j < pos { j } else { j - 1 };
        if i != pos {
            assert(slot_ok(s, a));
        }
        if j != pos {
            assert(slot_ok(s, b));
        }
        if i != pos && j != pos {
            assert(slots_apart(s, a, b));
        }
    }
    let rows = leaf_rows(s).insert(pos, row);
    lemma_rows_bytes_edit(leaf_rows(s), pos, row);
    assert(leaf_rows(t) =~= rows) by {
        assert forall|i: int| 0 <= i < n + 1 implies leaf_rows(t)[i] == rows[i] by {
            assert(slot_ok(t, i));
        }
    }
    if h != 0 {
        assert(t.subrange(48, 48 + h) =~= s.subrange(48, 48 + h));
    }
}

fn slot_base(high_key_len: usize) -> (off: usize)
    requires
        high_key_len <= PAGE_SIZE,
    ensures
        off == slot_base_of(high_key_len as int),
{
    LEAF_HEADER_SIZE + high_key_len + high_key_len % 2
}

fn slot_offset_at(high_key_len: usize, i: usize) -> (off: usize)
    requires
        high_key_len <= PAGE_SIZE,
        i <= 0x1_0000,
    ensures
        off == slot_at(high_key_len as int, i as int),
{
    slot_base(high_key_len) + i * SLOT_SIZE
}

fn rec_val_offset(rec_base: usize, key_len: usize) -> (off: usize)
    requires
        rec_base <= PAGE_SIZE,
        key_len <= 0x1_0000,
    ensures
        off == rec_base + 24 + even_up(key_len as int),
{
    rec_base + REC_HEADER_SIZE + key_len + key_len % 2
}

fn rec_total_size(key_len: usize, val_len: usize) -> (size: usize)
    requires
        key_len + val_len + 32 <= usize::MAX,
    ensures
        size == record_size(key_len as int, val_len as int),
{
    REC_HEADER_SIZE + (key_len + key_len % 2) + (val_len + val_len % 2)
}

/// Writes a record at `base`.
fn write_record(data: &mut [u8], base: usize, key: &[u8], val: &[u8], xmin: u64, xmax: u64)
    requires
        old(data).len() == PAGE_SIZE,
        base + record_size(key@.len() as int, val@.len() as int) <= PAGE_SIZE,
    ensures
        final(data)@.len() == PAGE_SIZE,
        same(old(data)@, final(data)@, 0, base as int),
        same(
            old(data)@,
            final(data)@,
            base + record_size(key@.len() as int, val@.len() as int),
            PAGE_SIZE as int,
        ),
        record_at(final(data)@, base as int) == (Version { key: key@, val: val@, xmin, xmax }),
        rec_klen(final(data)@, base as int) == key@.len(),
        rec_vlen(final(data)@, base as int) == val@.len(),
{
    let klen: usize = key.len();
    let vlen: usize = val.len();
    let voff: usize = rec_val_offset(base, klen);
    let ghost s0 = data@;
    write_u16(data, base + REC_OFF_KEY_LEN, klen as u16);
    let ghost s1 = data@;
    write_u16(data, base + REC_OFF_VAL_LEN, vlen as u16);
    let ghost s2 = data@;
    write_u32(data, base + 4, 0);
    let ghost s3 = data@;
    write_u64(data, base + REC_OFF_XMIN, xmin);
    let ghost s4 = data@;
    write_u64(data, base + REC_OFF_XMAX, xmax);
    let ghost s5 = data@;
    write_bytes(data, base + REC_HEADER_SIZE, key);
    let ghost s6 = data@;
    write_bytes(data, voff, val);
    proof {
        let t = data@;
        let b = base as int;
        lemma_put_u16(s0, b, klen as u16);
        lemma_put_u16(s1, b + 2, vlen as u16);
        lemma_put_u64(s3, b + 8, xmin);
        lemma_put_u64(s4, b + 16, xmax);
        assert(same(s1, t, b, b + 2));
        lemma_same_u16(s1, t, b);
        assert(same(s2, t, b + 2, b + 4));
        lemma_same_u16(s2, t, b + 2);
        assert(same(s4, t, b + 8, b + 16));
        lemma_same_u64(s4, t, b + 8);
        assert(same(s5, t, b + 16, b + 24));
        lemma_same_u64(s5, t, b + 16);
        assert(record_at(t, b).key =~= key@);
        assert(record_at(t, b).val =~= val@);
    }
}

/// Adds a row at slot `pos`, where the page has room for it.
fn add_row(data: &mut [u8], pos: usize, key: &[u8], val: &[u8], xmin: u64, xmax: u64)
    requires
        leaf_wf(old(data)@),
        pos <= leaf_count(old(data)@),
        row_need(key@, val@) <= leaf_view(old(data)@).free,
    ensures
        leaf_wf(final(data)@),
        leaf_view(final(data)@) == (LeafView {
            rows: leaf_rows(old(data)@).insert(
                pos as int,
                Version { key: key@, val: val@, xmin, xmax },
            ),
            free: leaf_view(old(data)@).free - row_need(key@, val@),
            ..leaf_view(old(data)@)
        }),
{
    let ghost s0 = data@;
    let n: usize = read_u16(data, OFF_LEAF_SLOT_COUNT) as usize;
    let hkl: usize = read_u16(data, OFF_LEAF_HIGH_KEY_LEN) as usize;
    let free_start: usize = read_u16(data, OFF_LEAF_FREE_START) as usize;
    let free_end: usize = read_u16(data, OFF_LEAF_FREE_END) as usize;
    let size: usize = rec_total_size(key.len(), val.len());
    let base: usize = free_end - size;
    write_record(data, base, key, val, xmin, xmax);
    let ghost s1 = data@;
    let slot: usize = slot_offset_at(hkl, pos);
    let tail: Vec<u8> = copy_range(data, slot, free_start);
    write_bytes(data, slot + SLOT_SIZE, tail.as_slice());
    let ghost s2 = data@;
    write_u16(data, slot, base as u16);
    let ghost s3 = data@;
    write_u16(data, slot + 2, size as u16);
    let ghost s4 = data@;
    write_u16(data, OFF_LEAF_SLOT_COUNT, (n + 1) as u16);
    let ghost s5 = data@;
    write_u16(data, OFF_LEAF_FREE_START, (free_start + SLOT_SIZE) as u16);
    let ghost s6 = data@;
    write_u16(data, OFF_LEAF_FREE_END, base as u16);
    proof {
        let t = data@;
        let o = slot as int;
        let b = base as int;
        lemma_put_u16(s2, o, base as u16);
        lemma_put_u16(s3, o + 2, size as u16);
        lemma_put_u16(s4, 2, (n + 1) as u16);
        lemma_put_u16(s5, 4, (free_start + SLOT_SIZE) as u16);
        lemma_put_u16(s6, 6, base as u16);
        lemma_same_u16(s3, t, o);
        lemma_same_u16(s4, t, o + 2);
        lemma_same_u16(s5, t, 2);
        lemma_same_u16(s6, t, 4);
        assert(same(s1, t, b, PAGE_SIZE as int));
        lemma_record_same(s1, t, b);
        assert forall|i: int| o <= i < free_start implies #[trigger] s0[i] == t[i + 4] by {
            assert(s1[i] == s0[i]);
            assert(tail@[i - o] == s1[i]);
            assert(s2[i + 4] == tail@[i - o]);
        }
        lemma_row_added(s0, t, pos as int, Version { key: key@, val: val@, xmin, xmax }, b, size as int);
    }
}

/// Bytes that are free on a page with this high key and these rows, once it is packed.
pub open spec fn packed_room(high: Option<Seq<u8>>, rows: Seq<Version>) -> int {
    let hkl = match high {
        Some(h) => h.len() as int,
        None => 0,
    };
    PAGE_SIZE - slot_base_of(hkl) - 4 * rows.len() - rows_bytes(rows)
}

/// The rows of a page would fit on a packed page with the same high key.
pub proof fn lemma_packed_room(s: Seq<u8>)
    requires
        leaf_wf(s),
    ensures
        leaf_view(s).free <= packed_room(leaf_high(s), leaf_rows(s)),
        0 <= leaf_view(s).free,
{
}

/// Removing a row: the bytes `t` hold the slots after `pos` one place further down, and
/// the counters that belong to it.
proof fn lemma_row_removed(s: Seq<u8>, t: Seq<u8>, pos: int)
    requires
        leaf_wf(s),
        0 <= pos < leaf_count(s),
        t.len() == PAGE_SIZE,
        t[0] == s[0],
        t[1] == s[1],
        same(s, t, 8, slot_at(leaf_hkl(s), pos)),
        same(s, t, leaf_free_end(s), PAGE_SIZE as int),
        leaf_count(t) == leaf_count(s) - 1,
        leaf_free_start(t) == leaf_free_start(s) - 4,
        leaf_free_end(t) == leaf_free_end(s),
        forall|i: int|
            slot_at(leaf_hkl(s), pos + 1) <= i < leaf_free_start(s) ==> #[trigger] s[i] == t[i - 4],
    ensures
        leaf_wf(t),
        leaf_view(t) == (LeafView {
            rows: leaf_rows(s).remove(pos),
            free: leaf_view(s).free + 4,
            ..leaf_view(s)
        }),
{
    let h = leaf_hkl(s);
    let n = leaf_count(s);
    assert(same(s, t, 8, 48));
    lemma_header_same(s, t);
    assert forall|i: int| 0 <= i < pos implies rec_off(t, i) == rec_off(s, i) && rec_len(t, i)
        == rec_len(s, i) && #[trigger] slot_ok(t, i) && record_at(t, rec_off(t, i)) == record_at(
        s,
        rec_off(s, i),
    ) by {
        assert(slot_ok(s, i));
        lemma_same_u16(s, t, slot_at(h, i));
        lemma_same_u16(s, t, slot_at(h, i) + 2);
        lemma_record_same(s, t, rec_off(s, i));
    }
    assert forall|i: int| pos <= i < n - 1 implies rec_off(t, i) == rec_off(s, i + 1) && rec_len(
        t,
        i,
    ) == rec_len(s, i + 1) && #[trigger] slot_ok(t, i) && record_at(t, rec_off(t, i)) == record_at(
        s,
        rec_off(s, i + 1),
    ) by {
        assert(slot_ok(s, i + 1));
        let o = slot_at(h, i + 1);
        assert(s[o] == t[o - 4]);
        assert(s[o + 1] == t[o + 1 - 4]);
        assert(s[o + 2] == t[o + 2 - 4]);
        assert(s[o + 3] == t[o + 3 - 4]);
        lemma_moved_u16(s, o, t, o - 4);
        lemma_moved_u16(s, o + 2, t, o - 2);
        lemma_record_same(s, t, rec_off(s, i + 1));
    }
    assert forall|i: int, j: int| 0 <= i < j < n - 1 implies #[trigger] slots_apart(t, i, j) by {
        assert(slot_ok(t, i));
        assert(slot_ok(t, j));
        let a = if i < pos { i } else { i + 1 };
        let b = if j < pos { j } else { j + 1 };
        assert(slots_apart(s, a, b));
    }
    let rows = leaf_rows(s).remove(pos);
    lemma_rows_bytes_edit(leaf_rows(s), pos, leaf_rows(s)[pos]);
    assert(leaf_rows(t) =~= rows) by {
        assert forall|i: int| 0 <= i < n - 1 implies leaf_rows(t)[i] == rows[i] by {
            assert(slot_ok(t, i));
        }
    }
    if h != 0 {
        assert(t.subrange(48, 48 + h) =~= s.subrange(48, 48 + h));
    }
}

/// Replacing eight bytes at `field` of the record of slot `pos` changes that row alone.
proof fn lemma_row_stamped(s: Seq<u8>, pos: int, field: int, v: u64)
    requires
        leaf_wf(s),
        0 <= pos < leaf_count(s),
        field == 8 || field == 16,
    ensures
        leaf_wf(put(s, rec_off(s, pos) + field, u64_bytes(v))),
        leaf_view(put(s, rec_off(s, pos) + field, u64_bytes(v))) == (LeafView {
            rows: leaf_rows(s).update(
                pos,
                if field == 8 {
                    Version { xmin: v, ..leaf_rows(s)[pos] }
                } else {
                    Version { xmax: v, ..leaf_rows(s)[pos] }
                },
            ),
            ..leaf_view(s)
        }),
{
    let base = rec_off(s, pos);
    let t = put(s, base + field, u64_bytes(v));
    let h = leaf_hkl(s);
    let n = leaf_count(s);
    assert(slot_ok(s, pos));
    assert(same(s, t, 0, leaf_free_end(s)));
    lemma_same_u16(s, t, 2);
    lemma_same_u16(s, t, 4);
    lemma_same_u16(s, t, 6);
    lemma_header_same(s, t);
    lemma_put_u64(s, base + field, v);
    lemma_same_u16(s, t, base);
    lemma_same_u16(s, t, base + 2);
    if field == 8 {
        lemma_same_u64(s, t, base + 16);
    } else {
        lemma_same_u64(s, t, base + 8);
    }
    let row = record_at(t, base);
    lemma_rows_bytes_edit(leaf_rows(s), pos, row);
    assert(row.key =~= record_at(s, base).key);
    assert(row.val =~= record_at(s, base).val);
    assert forall|i: int| 0 <= i < n implies rec_off(t, i) == rec_off(s, i) && rec_len(t, i)
        == rec_len(s, i) && #[trigger] slot_ok(t, i) && (i != pos ==> record_at(t, rec_off(t, i))
        == record_at(s, rec_off(s, i))) by {
        assert(slot_ok(s, i));
        lemma_same_u16(s, t, slot_at(h, i));
        lemma_same_u16(s, t, slot_at(h, i) + 2);
        if i < pos {
            assert(slots_apart(s, i, pos));
            lemma_record_same(s, t, rec_off(s, i));
        } else if i > pos {
            assert(slots_apart(s, pos, i));
            lemma_record_same(s, t, rec_off(s, i));
        }
    }
    assert forall|i: int, j: int| 0 <= i < j < n implies #[trigger] slots_apart(t, i, j) by {
        assert(slot_ok(t, i));
        assert(slot_ok(t, j));
        assert(slots_apart(s, i, j));
    }
    let rows = leaf_rows(s).update(
        pos,
        if field == 8 {
            Version { xmin: v, ..leaf_rows(s)[pos] }
        } else {
            Version { xmax: v, ..leaf_rows(s)[pos] }
        },
    );
    assert(leaf_rows(t) =~= rows) by {
        assert forall|i: int| 0 <= i < n implies leaf_rows(t)[i] == rows[i] by {
            assert(slot_ok(t, i));
        }
    }
    if h != 0 {
        assert(t.subrange(48, 48 + h) =~= s.subrange(48, 48 + h));
    }
}

/// Writing the high key of an empty leaf.
proof fn lemma_high_key_set(s: Seq<u8>, t: Seq<u8>, high: Seq<u8>)
    requires
        leaf_wf(s),
        leaf_count(s) == 0,
        slot_base_of(high.len() as int) <= leaf_free_end(s),
        t == put(
            put(put(s, 40, u16_bytes(high.len() as u16)), 48, high),
            4,
            u16_bytes(slot_base_of(high.len() as int) as u16),
        ),
    ensures
        leaf_wf(t),
        leaf_view(t) == (LeafView {
            high: if high.len() == 0 {
                None
            } else {
                Some(high)
            },
            free: leaf_free_end(s) - slot_base_of(high.len() as int),
            ..leaf_view(s)
        }),
{
    let a = put(s, 40, u16_bytes(high.len() as u16));
    let b = put(a, 48, high);
    let fs = slot_base_of(high.len() as int) as u16;
    lemma_put_u16(s, 40, high.len() as u16);
    lemma_same_u16(a, t, 40);
    lemma_put_u16(b, 4, fs);
    lemma_same_u16(s, t, 2);
    lemma_same_u16(s, t, 6);
    lemma_same_u64(s, t, 8);
    lemma_same_u64(s, t, 16);
    lemma_same_u64(s, t, 24);
    lemma_same_u64(s, t, 32);
    assert(leaf_rows(t) =~= leaf_rows(s));
    assert(t.subrange(48, 48 + high.len() as int) =~= high);
}

/// The page of a leaf without rows.
pub open spec fn blank_leaf(id: PageId) -> LeafView {
    LeafView {
        id,
        lsn: 0,
        flags: 0,
        prev: None,
        right: None,
        high: None,
        rows: Seq::empty(),
        free: PAGE_SIZE - LEAF_HEADER_SIZE,
    }
}

/// Makes the page an empty leaf.
fn blank(data: &mut [u8], page_id: PageId)
    requires
        old(data).len() == PAGE_SIZE,
    ensures
        leaf_wf(final(data)@),
        leaf_view(final(data)@) == blank_leaf(page_id),
{
    zero_bytes(data, 0, PAGE_SIZE);
    let ghost s0 = data@;
    write_u8(data, OFF_PAGE_TYPE, LEAF);
    let ghost s1 = data@;
    write_u64(data, OFF_PAGE_ID, page_id);
    let ghost s2 = data@;
    write_u16(data, OFF_LEAF_FREE_START, LEAF_HEADER_SIZE as u16);
    let ghost s3 = data@;
    write_u16(data, OFF_LEAF_FREE_END, PAGE_SIZE as u16);
    proof {
        let t = data@;
        lemma_put_u64(s1, 8, page_id);
        lemma_same_u64(s2, t, 8);
        lemma_put_u16(s2, 4, 48);
        lemma_same_u16(s3, t, 4);
        lemma_put_u16(s3, 6, 4096);
        reveal(u16_at);
        reveal(crate::bytes::u32_at);
        reveal(u64_at);
        assert(u16_at(t, 2) == 0);
        assert(u16_at(t, 40) == 0);
        assert(u64_at(t, 16) == 0);
        assert(u64_at(t, 24) == 0);
        assert(u64_at(t, 32) == 0);
        assert(leaf_rows(t) =~= Seq::<Version>::empty());
    }
}

/// The rows are in key order.
pub open spec fn rows_sorted<K: Key>(rows: Seq<Version>) -> bool {
    forall|i: int, j: int| 0 <= i < j < rows.len() ==> K::le(rows[i].key, rows[j].key)
}

/// Keys and values are encodings of the page's types.
pub open spec fn rows_typed<K: Key, V: Value>(rows: Seq<Version>) -> bool {
    forall|i: int|
        #![trigger rows[i]]
        0 <= i < rows.len() ==> canonical::<K>(rows[i].key) && canonical::<V>(rows[i].val)
}

/// Where a binary search of the slots `lo..hi` for `query` ends, and whether it met an
/// equal key.
pub open spec fn search<K: Key>(rows: Seq<Version>, query: Seq<u8>, lo: int, hi: int) -> (int, bool)
    decreases hi - lo,
{
    if lo >= hi {
        (lo, false)
    } else {
        let mid = lo + (hi - lo) / 2;
        if key_before::<K>(rows[mid].key, query) {
            search::<K>(rows, query, mid + 1, hi)
        } else if key_before::<K>(query, rows[mid].key) {
            search::<K>(rows, query, lo, mid)
        } else {
            (mid, true)
        }
    }
}

/// In sorted rows, a search meets an equal key where there is one, and otherwise ends
/// at the first row whose key is greater.
pub proof fn lemma_search<K: Key>(rows: Seq<Version>, query: Seq<u8>, lo: int, hi: int)
    requires
        0 <= lo <= hi <= rows.len(),
        rows_sorted::<K>(rows),
        forall|i: int| 0 <= i < rows.len() ==> K::accepts(#[trigger] rows[i].key),
        K::accepts(query),
        forall|i: int| 0 <= i < lo ==> key_before::<K>(#[trigger] rows[i].key, query),
        forall|i: int| hi <= i < rows.len() ==> key_before::<K>(query, #[trigger] rows[i].key),
    ensures
        ({
            let (at, found) = search::<K>(rows, query, lo, hi);
            &&& lo <= at <= hi
            &&& found ==> at < hi && key_same::<K>(rows[at].key, query)
            &&& !found ==> forall|i: int|
                0 <= i < at ==> key_before::<K>(#[trigger] rows[i].key, query)
            &&& !found ==> forall|i: int|
                at <= i < rows.len() ==> key_before::<K>(query, #[trigger] rows[i].key)
        }),
    decreases hi - lo,
{
    if lo < hi {
        let mid = lo + (hi - lo) / 2;
        K::le_total(rows[mid].key, query);
        if key_before::<K>(rows[mid].key, query) {
            assert forall|i: int| 0 <= i < mid + 1 implies key_before::<K>(
                #[trigger] rows[i].key,
                query,
            ) by {
                if i < mid {
                    if K::le(query, rows[i].key) {
                        K::le_transitive(query, rows[i].key, rows[mid].key);
                    }
                }
            }
            lemma_search::<K>(rows, query, mid + 1, hi);
        } else if key_before::<K>(query, rows[mid].key) {
            assert forall|i: int| mid <= i < rows.len() implies key_before::<K>(
                query,
                #[trigger] rows[i].key,
            ) by {
                if i > mid {
                    if K::le(rows[i].key, query) {
                        K::le_transitive(rows[mid].key, rows[i].key, query);
                    }
                }
            }
            lemma_search::<K>(rows, query, lo, mid);
        }
    }
}

/// Bytes of the rows that no transaction has deleted, with their slots.
pub open spec fn live_bytes(rows: Seq<Version>) -> int
    decreases rows.len(),
{
    if rows.len() == 0 {
        0
    } else {
        live_bytes(rows.drop_last()) + if rows.last().xmax == 0 {
            row_bytes(rows.last()) + 4
        } else {
            0
        }
    }
}

/// The rows that no transaction has deleted take less than half of the page behind its high key.
pub open spec fn leaf_underfull(s: Seq<u8>) -> bool {
    leaf_rows(s).len() == 0 || live_bytes(leaf_rows(s)) * 2 < PAGE_SIZE - slot_base_of(leaf_hkl(s))
}

proof fn lemma_live_bytes(rows: Seq<Version>)
    ensures
        0 <= live_bytes(rows) <= rows_bytes(rows) + 4 * rows.len(),
    decreases rows.len(),
{
    if rows.len() > 0 {
        lemma_live_bytes(rows.drop_last());
    }
}

/// A read-only typed view of a leaf page.
pub struct LeafPageAccessor<'a, K: Key, V: Value> {
    pub data: &'a [u8],
    pub _key: PhantomData<K>,
    pub _val: PhantomData<V>,
}

impl<'a, K: Key, V: Value> LeafPageAccessor<'a, K, V> {
    /// What the page holds.
    pub open spec fn leaf(&self) -> LeafView {
        leaf_view(self.data@)
    }

    /// The page is laid out as a leaf.
    pub open spec fn wf(&self) -> bool {
        leaf_wf(self.data@)
    }

    /// The page is a leaf whose rows are encodings of its types.
    pub open spec fn typed(&self) -> bool {
        self.wf() && rows_typed::<K, V>(self.leaf().rows) && K::width_fits() && V::width_fits()
    }

    /// Wraps the bytes of a leaf page.
    pub fn new(data: &'a [u8]) -> (acc: Self)
        requires
            data.len() == PAGE_SIZE,
            data@[0] == LEAF,
        ensures
            acc.data@ == data@,
    {
        LeafPageAccessor { data, _key: PhantomData, _val: PhantomData }
    }

    pub fn page_id(&self) -> (id: PageId)
        requires
            self.wf(),
        ensures
            id == self.leaf().id,
    {
        read_u64(self.data, OFF_PAGE_ID)
    }

    pub fn lsn(&self) -> (lsn: Lsn)
        requires
            self.wf(),
        ensures
            lsn == self.leaf().lsn,
    {
        read_u64(self.data, OFF_LSN)
    }

    /// The number of rows.
    pub fn num_pairs(&self) -> (n: u16)
        requires
            self.wf(),
        ensures
            n == self.leaf().rows.len(),
    {
        read_u16(self.data, OFF_LEAF_SLOT_COUNT)
    }

    /// The leaf before this one, or `None` for the leftmost.
    pub fn prev_page(&self) -> (prev: Option<PageId>)
        requires
            self.wf(),
        ensures
            prev == self.leaf().prev,
    {
        let v: u64 = read_u64(self.data, OFF_LEAF_PREV);
        if v == 0 {
            None
        } else {
            Some(v)
        }
    }

    /// The right sibling, or `None` for the rightmost.
    pub fn rightlink(&self) -> (right: Option<PageId>)
        requires
            self.wf(),
        ensures
            right == self.leaf().right,
    {
        let v: u64 = read_u64(self.data, OFF_LEAF_RIGHTLINK);
        if v == 0 {
            None
        } else {
            Some(v)
        }
    }

    /// Length of the high key; 0 for the rightmost leaf.
    pub fn high_key_len(&self) -> (n: u16)
        requires
            self.wf(),
        ensures
            n == leaf_hkl(self.data@),
            self.leaf().high is None <==> n == 0,
            self.leaf().high matches Some(h) ==> h.len() == n,
    {
        read_u16(self.data, OFF_LEAF_HIGH_KEY_LEN)
    }

    /// The high key's bytes, or `None` for the rightmost leaf.
    pub fn high_key_bytes(&self) -> (high: Option<&'a [u8]>)
        requires
            self.wf(),
        ensures
            high is Some <==> self.leaf().high is Some,
            high matches Some(h) ==> h@ == self.leaf().high->0,
    {
        let len: usize = self.high_key_len() as usize;
        if len == 0 {
            return None;
        }
        Some(slice_subrange(self.data, LEAF_HEADER_SIZE, LEAF_HEADER_SIZE + len))
    }

    /// The high key, or `None` for the rightmost leaf.
    pub fn high_key(&self) -> (high: Option<K::SelfType<'a>>)
        requires
            self.wf(),
            K::width_fits(),
            self.leaf().high matches Some(h) ==> K::accepts(h),
        ensures
            high is Some <==> self.leaf().high is Some,
            high matches Some(h) ==> K::model(h) == K::decode(self.leaf().high->0),
    {
        match self.high_key_bytes() {
            Some(b) => Some(K::from_bytes(b)),
            None => None,
        }
    }

    /// End of the slot directory.
    pub fn free_start(&self) -> (off: usize)
        requires
            self.wf(),
        ensures
            off == leaf_free_start(self.data@),
    {
        read_u16(self.data, OFF_LEAF_FREE_START) as usize
    }

    /// Start of the record area.
    pub fn free_end(&self) -> (off: usize)
        requires
            self.wf(),
        ensures
            off == leaf_free_end(self.data@),
    {
        read_u16(self.data, OFF_LEAF_FREE_END) as usize
    }

    /// Bytes between the slot directory and the record area.
    pub fn free_space(&self) -> (n: usize)
        requires
            self.wf(),
        ensures
            n == self.leaf().free,
    {
        self.free_end() - self.free_start()
    }

    /// Whether a row fits into the free space as it is.
    pub fn can_fit_direct(&self, key_len: usize, val_len: usize) -> (b: bool)
        requires
            self.wf(),
            key_len + val_len + 64 <= usize::MAX,
        ensures
            b == leaf_fits(self.data@, key_len as int, val_len as int),
    {
        self.free_space() >= SLOT_SIZE + rec_total_size(key_len, val_len)
    }

    /// Whether the rows that no transaction has deleted take less than half of the
    /// page.
    pub fn is_underfull(&self) -> (b: bool)
        requires
            self.wf(),
        ensures
            b == leaf_underfull(self.data@),
            b == (self.leaf().rows.len() == 0 || live_bytes(self.leaf().rows) * 2 < PAGE_SIZE
                - slot_base_of(leaf_hkl(self.data@))),
    {
        let n: usize = self.num_pairs() as usize;
        if n == 0 {
            return true;
        }
        let hkl: usize = self.high_key_len() as usize;
        let ghost rows = self.leaf().rows;
        let mut live: usize = 0;
        let mut i: usize = 0;
        while i < n
            invariant
                self.wf(),
                i <= n,
                n == rows.len(),
                rows == self.leaf().rows,
                live == live_bytes(rows.take(i as int)),
            decreases n - i,
        {
            proof {
                assert(slot_ok(self.data@, i as int));
                let part = rows.take(i + 1);
                assert(part.drop_last() =~= rows.take(i as int));
                lemma_live_bytes(part);
                lemma_rows_bytes_concat(part, rows.skip(i + 1));
                assert(part + rows.skip(i + 1) =~= rows);
            }
            if !self.is_deleted(i) {
                live = live + self.slot_rec_size(i) + SLOT_SIZE;
            }
            i = i + 1;
        }
        proof {
            assert(rows.take(n as int) =~= rows);
            lemma_live_bytes(rows);
        }
        live * 2 < PAGE_SIZE - slot_base(hkl)
    }

    /// Searches the slots for the encoded key `query`: the slot and whether its key is
    /// equal.
    pub fn position_bytes(&self, query: &[u8]) -> (r: (usize, bool))
        requires
            self.typed(),
            K::accepts(query@),
        ensures
            (r.0 as int, r.1) == search::<K>(
                self.leaf().rows,
                query@,
                0,
                self.leaf().rows.len() as int,
            ),
            r.0 <= self.leaf().rows.len(),
            r.1 ==> r.0 < self.leaf().rows.len(),
    {
        let mut lo: usize = 0;
        let mut hi: usize = self.num_pairs() as usize;
        let ghost rows = self.leaf().rows;
        while lo < hi
            invariant
                self.typed(),
                rows == self.leaf().rows,
                K::accepts(query@),
                lo <= hi <= rows.len(),
                search::<K>(rows, query@, lo as int, hi as int) == search::<K>(
                    rows,
                    query@,
                    0,
                    rows.len() as int,
                ),
            decreases hi - lo,
        {
            let mid: usize = lo + (hi - lo) / 2;
            let c: i8 = key_order::<K>(self.key_bytes_at(mid), query);
            if c < 0 {
                lo = mid + 1;
            } else if c > 0 {
                hi = mid;
            } else {
                return (mid, true);
            }
        }
        (lo, false)
    }

    /// Searches the slots for `query`. Gives the slot of an equal key and `true`, or the
    /// first slot whose key is greater and `false`.
    pub fn position(&self, query: &K::SelfType<'_>) -> (r: (usize, bool))
        requires
            self.typed(),
            K::encodable(K::model(*query)),
        ensures
            (r.0 as int, r.1) == search::<K>(
                self.leaf().rows,
                K::encode(K::model(*query)),
                0,
                self.leaf().rows.len() as int,
            ),
            r.0 <= self.leaf().rows.len(),
            r.1 ==> r.0 < self.leaf().rows.len(),
            rows_sorted::<K>(self.leaf().rows) ==> {
                let q = K::encode(K::model(*query));
                let rows = self.leaf().rows;
                &&& r.1 ==> key_same::<K>(rows[r.0 as int].key, q)
                &&& !r.1 ==> forall|i: int|
                    0 <= i < r.0 ==> key_before::<K>(#[trigger] rows[i].key, q)
                &&& !r.1 ==> forall|i: int|
                    r.0 <= i < rows.len() ==> key_before::<K>(q, #[trigger] rows[i].key)
            },
    {
        let query_bytes: Vec<u8> = K::as_bytes(query);
        proof {
            K::decode_of_encode(K::model(*query));
            let rows = self.leaf().rows;
            if rows_sorted::<K>(rows) {
                lemma_search::<K>(rows, query_bytes@, 0, rows.len() as int);
            }
        }
        self.position_bytes(query_bytes.as_slice())
    }

    /// The slot of an equal key, or `None`.
    pub fn find_key(&self, query: &K::SelfType<'_>) -> (r: Option<usize>)
        requires
            self.typed(),
            K::encodable(K::model(*query)),
        ensures
            ({
                let (at, found) = search::<K>(
                    self.leaf().rows,
                    K::encode(K::model(*query)),
                    0,
                    self.leaf().rows.len() as int,
                );
                &&& r is Some <==> found
                &&& r matches Some(i) ==> i == at
            }),
            rows_sorted::<K>(self.leaf().rows) ==> (r is Some <==> exists|i: int|
                0 <= i < self.leaf().rows.len() && key_same::<K>(
                    #[trigger] self.leaf().rows[i].key,
                    K::encode(K::model(*query)),
                )),
    {
        let (idx, found) = self.position(query);
        if found {
            Some(idx)
        } else {
            None
        }
    }

    /// The key of slot `i`.
    pub fn get_key(&self, i: usize) -> (k: K::SelfType<'a>)
        requires
            self.wf(),
            i < self.leaf().rows.len(),
            K::width_fits(),
            K::accepts(self.leaf().rows[i as int].key),
        ensures
            K::model(k) == K::decode(self.leaf().rows[i as int].key),
    {
        K::from_bytes(self.key_bytes_at(i))
    }

    /// The value of slot `i`.
    pub fn get_value(&self, i: usize) -> (v: V::SelfType<'a>)
        requires
            self.wf(),
            i < self.leaf().rows.len(),
            V::width_fits(),
            V::accepts(self.leaf().rows[i as int].val),
        ensures
            V::model(v) == V::decode(self.leaf().rows[i as int].val),
    {
        V::from_bytes(self.value_bytes_at(i))
    }

    /// Key and value of slot `i`.
    pub fn entry(&self, i: usize) -> (e: (K::SelfType<'a>, V::SelfType<'a>))
        requires
            self.wf(),
            i < self.leaf().rows.len(),
            K::width_fits(),
            V::width_fits(),
            K::accepts(self.leaf().rows[i as int].key),
            V::accepts(self.leaf().rows[i as int].val),
        ensures
            K::model(e.0) == K::decode(self.leaf().rows[i as int].key),
            V::model(e.1) == V::decode(self.leaf().rows[i as int].val),
    {
        (self.get_key(i), self.get_value(i))
    }

    /// The transaction that created the row of slot `i`.
    pub fn get_xmin(&self, i: usize) -> (x: u64)
        requires
            self.wf(),
            i < self.leaf().rows.len(),
        ensures
            x == self.leaf().rows[i as int].xmin,
    {
        let rec_base: usize = self.slot_rec_base(i);
        read_u64(self.data, rec_base + REC_OFF_XMIN)
    }

    /// The transaction that deleted or replaced the row of slot `i`, or 0.
    pub fn get_xmax(&self, i: usize) -> (x: u64)
        requires
            self.wf(),
            i < self.leaf().rows.len(),
        ensures
            x == self.leaf().rows[i as int].xmax,
    {
        let rec_base: usize = self.slot_rec_base(i);
        read_u64(self.data, rec_base + REC_OFF_XMAX)
    }

    /// Whether a transaction has deleted or replaced the row of slot `i`.
    pub fn is_deleted(&self, i: usize) -> (b: bool)
        requires
            self.wf(),
            i < self.leaf().rows.len(),
        ensures
            b == (self.leaf().rows[i as int].xmax != 0),
    {
        self.get_xmax(i) != 0
    }

    fn slot_rec_base(&self, i: usize) -> (off: usize)
        requires
            self.wf(),
            i < self.leaf().rows.len(),
        ensures
            off == rec_off(self.data@, i as int),
            slot_ok(self.data@, i as int),
            off + 24 <= PAGE_SIZE,
    {
        proof {
            assert(slot_ok(self.data@, i as int));
        }
        let hkl: usize = self.high_key_len() as usize;
        read_u16(self.data, slot_offset_at(hkl, i)) as usize
    }

    /// Size of the record of slot `i`.
    pub fn slot_rec_size(&self, i: usize) -> (n: usize)
        requires
            self.wf(),
            i < self.leaf().rows.len(),
        ensures
            n == row_bytes(self.leaf().rows[i as int]),
    {
        proof {
            assert(slot_ok(self.data@, i as int));
        }
        let hkl: usize = self.high_key_len() as usize;
        read_u16(self.data, slot_offset_at(hkl, i) + 2) as usize
    }

    /// The encoded key of slot `i`.
    pub fn key_bytes_at(&self, i: usize) -> (k: &'a [u8])
        requires
            self.wf(),
            i < self.leaf().rows.len(),
        ensures
            k@ == self.leaf().rows[i as int].key,
    {
        let rec_base: usize = self.slot_rec_base(i);
        let key_len: usize = read_u16(self.data, rec_base + REC_OFF_KEY_LEN) as usize;
        let key_off: usize = rec_base + REC_HEADER_SIZE;
        slice_subrange(self.data, key_off, key_off + key_len)
    }

    /// The encoded value of slot `i`.
    pub fn value_bytes_at(&self, i: usize) -> (v: &'a [u8])
        requires
            self.wf(),
            i < self.leaf().rows.len(),
        ensures
            v@ == self.leaf().rows[i as int].val,
    {
        let rec_base: usize = self.slot_rec_base(i);
        let key_len: usize = read_u16(self.data, rec_base + REC_OFF_KEY_LEN) as usize;
        let val_len: usize = read_u16(self.data, rec_base + REC_OFF_VAL_LEN) as usize;
        let val_off: usize = rec_val_offset(rec_base, key_len);
        slice_subrange(self.data, val_off, val_off + val_len)
    }
}

/// A mutable typed view of a leaf page.
pub struct LeafPageMutator<'a, K: Key, V: Value> {
    pub data: &'a mut [u8],
    pub _key: PhantomData<K>,
    pub _val: PhantomData<V>,
}

impl<'a, K: Key, V: Value> LeafPageMutator<'a, K, V> {
    /// The page's bytes.
    pub open spec fn page(&self) -> Seq<u8> {
        self.data@
    }

    /// What the page holds.
    pub open spec fn leaf(&self) -> LeafView {
        leaf_view(self.data@)
    }

    /// The page is laid out as a leaf.
    pub open spec fn wf(&self) -> bool {
        leaf_wf(self.data@)
    }

    /// Wraps the bytes of a leaf page.
    pub fn new(data: &'a mut [u8]) -> (m: Self)
        requires
            old(data).len() == PAGE_SIZE,
            old(data)@[0] == LEAF,
        ensures
            m.data@ == old(data)@,
            final(m.data)@ == final(data)@,
    {
        LeafPageMutator { data, _key: PhantomData, _val: PhantomData }
    }

    pub fn set_lsn(&mut self, lsn: Lsn)
        requires
            old(self).wf(),
        ensures
            final(self).wf(),
            final(self).page() == with_lsn(old(self).page(), lsn),
            final(self).leaf() == (LeafView { lsn, ..old(self).leaf() }),
            final(final(self).data)@ == final(old(self).data)@,
    {
        proof {
            lemma_header_u64(self.data@, 16, lsn);
        }
        write_u64(self.data, OFF_LSN, lsn);
    }

    pub fn set_prev_page(&mut self, prev: Option<PageId>)
        requires
            old(self).wf(),
        ensures
            final(self).wf(),
            final(self).leaf() == (LeafView { prev: link(prev.unwrap_or(0)), ..old(self).leaf() }),
            final(final(self).data)@ == final(old(self).data)@,
    {
        let v: u64 = prev.unwrap_or(0);
        proof {
            lemma_header_u64(self.data@, 24, v);
        }
        write_u64(self.data, OFF_LEAF_PREV, v);
    }

    pub fn set_rightlink(&mut self, right: Option<PageId>)
        requires
            old(self).wf(),
        ensures
            final(self).wf(),
            final(self).leaf() == (LeafView { right: link(right.unwrap_or(0)), ..old(self).leaf() }),
            final(final(self).data)@ == final(old(self).data)@,
    {
        let v: u64 = right.unwrap_or(0);
        proof {
            lemma_header_u64(self.data@, 32, v);
        }
        write_u64(self.data, OFF_LEAF_RIGHTLINK, v);
    }

    /// Writes the high key of a leaf without rows; an empty key makes it the rightmost.
    pub fn set_high_key(&mut self, key_bytes: &[u8])
        requires
            old(self).wf(),
            old(self).leaf().rows.len() == 0,
            slot_base_of(key_bytes@.len() as int) <= leaf_free_end(old(self).page()),
        ensures
            final(self).wf(),
            final(self).leaf() == (LeafView {
                high: if key_bytes@.len() == 0 {
                    None
                } else {
                    Some(key_bytes@)
                },
                free: leaf_free_end(old(self).page()) - slot_base_of(key_bytes@.len() as int),
                ..old(self).leaf()
            }),
            leaf_free_end(final(self).page()) == leaf_free_end(old(self).page()),
            final(final(self).data)@ == final(old(self).data)@,
    {
        let ghost s = self.data@;
        write_high_key(self.data, key_bytes);
    }

    /// A read-only view of the page.
    pub fn as_accessor(&self) -> (acc: LeafPageAccessor<'_, K, V>)
        requires
            self.wf(),
        ensures
            acc.data@ == self.page(),
    {
        LeafPageAccessor::new(self.data)
    }

    /// Sets the creating transaction of the row of slot `pos`.
    pub fn set_xmin(&mut self, pos: usize, xmin: u64)
        requires
            old(self).wf(),
            pos < old(self).leaf().rows.len(),
        ensures
            final(self).wf(),
            final(self).leaf() == (LeafView {
                rows: old(self).leaf().rows.update(
                    pos as int,
                    Version { xmin, ..old(self).leaf().rows[pos as int] },
                ),
                ..old(self).leaf()
            }),
            final(final(self).data)@ == final(old(self).data)@,
    {
        proof {
            assert(slot_ok(self.data@, pos as int));
            lemma_row_stamped(self.data@, pos as int, 8, xmin);
        }
        let hkl: usize = read_u16(self.data, OFF_LEAF_HIGH_KEY_LEN) as usize;
        let rec_base: usize = read_u16(self.data, slot_offset_at(hkl, pos)) as usize;
        write_u64(self.data, rec_base + REC_OFF_XMIN, xmin);
    }

    /// Sets the deleting transaction of the row of slot `pos`.
    pub fn set_xmax(&mut self, pos: usize, xmax: u64)
        requires
            old(self).wf(),
            pos < old(self).leaf().rows.len(),
        ensures
            final(self).wf(),
            final(self).leaf() == (LeafView {
                rows: old(self).leaf().rows.update(
                    pos as int,
                    Version { xmax, ..old(self).leaf().rows[pos as int] },
                ),
                ..old(self).leaf()
            }),
            final(final(self).data)@ == final(old(self).data)@,
    {
        proof {
            assert(slot_ok(self.data@, pos as int));
            lemma_row_stamped(self.data@, pos as int, 16, xmax);
        }
        let hkl: usize = read_u16(self.data, OFF_LEAF_HIGH_KEY_LEN) as usize;
        let rec_base: usize = read_u16(self.data, slot_offset_at(hkl, pos)) as usize;
        write_u64(self.data, rec_base + REC_OFF_XMAX, xmax);
    }

    /// Inserts a row of encoded key and value at slot `pos`, stamped with no
    /// transaction. Refuses it, and changes nothing, where the free space is too small.
    pub fn insert_bytes(&mut self, pos: usize, key_bytes: &[u8], val_bytes: &[u8]) -> (r: Result<
        (),
        PageError,
    >)
        requires
            old(self).wf(),
            pos <= old(self).leaf().rows.len(),
            key_bytes@.len() + val_bytes@.len() + 64 <= usize::MAX,
        ensures
            final(self).wf(),
            r is Ok == leaf_fits(
                old(self).page(),
                key_bytes@.len() as int,
                val_bytes@.len() as int,
            ),
            ({
                let need = row_need(key_bytes@, val_bytes@);
                if old(self).leaf().free < need {
                    &&& r == Err::<(), PageError>(
                        PageError::InsufficientSpace {
                            needed: need as usize,
                            available: old(self).leaf().free as usize,
                        },
                    )
                    &&& final(self).page() == old(self).page()
                } else {
                    &&& r is Ok
                    &&& final(self).leaf() == (LeafView {
                        rows: old(self).leaf().rows.insert(
                            pos as int,
                            Version { key: key_bytes@, val: val_bytes@, xmin: 0, xmax: 0 },
                        ),
                        free: old(self).leaf().free - need,
                        ..old(self).leaf()
                    })
                }
            }),
            final(final(self).data)@ == final(old(self).data)@,
    {
        let rec_size: usize = rec_total_size(key_bytes.len(), val_bytes.len());
        let free_end: usize = read_u16(self.data, OFF_LEAF_FREE_END) as usize;
        let free_start: usize = read_u16(self.data, OFF_LEAF_FREE_START) as usize;
        let free: usize = free_end - free_start;
        if free < SLOT_SIZE + rec_size {
            return Err(
                PageError::InsufficientSpace { needed: SLOT_SIZE + rec_size, available: free },
            );
        }
        add_row(self.data, pos, key_bytes, val_bytes, 0, 0);
        Ok(())
    }

    /// Inserts a row at slot `pos`, stamped with no transaction. Refuses it, and changes
    /// nothing, where the free space is too small.
    pub fn insert(&mut self, pos: usize, key: &K::SelfType<'_>, value: &V::SelfType<'_>) -> (r:
        Result<(), PageError>)
        requires
            old(self).wf(),
            pos <= old(self).leaf().rows.len(),
            K::width_fits(),
            V::width_fits(),
            K::encodable(K::model(*key)),
            V::encodable(V::model(*value)),
            K::encode(K::model(*key)).len() + V::encode(V::model(*value)).len() + 64 <= usize::MAX,
        ensures
            final(self).wf(),
            r is Ok == leaf_fits(
                old(self).page(),
                K::encode(K::model(*key)).len() as int,
                V::encode(V::model(*value)).len() as int,
            ),
            ({
                let k = K::encode(K::model(*key));
                let v = V::encode(V::model(*value));
                let need = row_need(k, v);
                if old(self).leaf().free < need {
                    &&& r == Err::<(), PageError>(
                        PageError::InsufficientSpace {
                            needed: need as usize,
                            available: old(self).leaf().free as usize,
                        },
                    )
                    &&& final(self).page() == old(self).page()
                } else {
                    &&& r is Ok
                    &&& final(self).leaf() == (LeafView {
                        rows: old(self).leaf().rows.insert(
                            pos as int,
                            Version { key: k, val: v, xmin: 0, xmax: 0 },
                        ),
                        free: old(self).leaf().free - need,
                        ..old(self).leaf()
                    })
                }
            }),
            final(final(self).data)@ == final(old(self).data)@,
    {
        let key_bytes: Vec<u8> = K::as_bytes(key);
        let val_bytes: Vec<u8> = V::as_bytes(value);
        self.insert_bytes(pos, key_bytes.as_slice(), val_bytes.as_slice())
    }

    /// Removes the row of slot `pos`. Its record stays behind as dead space.
    pub fn remove(&mut self, pos: usize)
        requires
            old(self).wf(),
            pos < old(self).leaf().rows.len(),
        ensures
            final(self).wf(),
            final(self).leaf() == (LeafView {
                rows: old(self).leaf().rows.remove(pos as int),
                free: old(self).leaf().free + 4,
                ..old(self).leaf()
            }),
            final(final(self).data)@ == final(old(self).data)@,
    {
        let ghost s0 = self.data@;
        let n: usize = read_u16(self.data, OFF_LEAF_SLOT_COUNT) as usize;
        let free_start: usize = read_u16(self.data, OFF_LEAF_FREE_START) as usize;
        let hkl: usize = read_u16(self.data, OFF_LEAF_HIGH_KEY_LEN) as usize;
        let src: usize = slot_offset_at(hkl, pos + 1);
        let tail: Vec<u8> = copy_range(self.data, src, free_start);
        write_bytes(self.data, src - SLOT_SIZE, tail.as_slice());
        let ghost s1 = self.data@;
        zero_bytes(self.data, slot_offset_at(hkl, n - 1), SLOT_SIZE);
        let ghost s2 = self.data@;
        write_u16(self.data, OFF_LEAF_SLOT_COUNT, (n - 1) as u16);
        let ghost s3 = self.data@;
        write_u16(self.data, OFF_LEAF_FREE_START, (free_start - SLOT_SIZE) as u16);
        proof {
            let t = self.data@;
            lemma_put_u16(s2, 2, (n - 1) as u16);
            lemma_put_u16(s3, 4, (free_start - SLOT_SIZE) as u16);
            lemma_same_u16(s3, t, 2);
            lemma_same_u16(s0, t, 6);
            assert forall|i: int| src <= i < free_start implies #[trigger] s0[i] == t[i - 4] by {
                assert(s1[i - 4] == tail@[i - src]);
                assert(tail@[i - src] == s0[i]);
            }
            lemma_row_removed(s0, t, pos as int);
        }
    }

    /// Rebuilds the page without the rows that vacuum may remove, and says how many
    /// those were. A page without such rows is left as it is.
    pub fn compact(page_id: PageId, page_data: &mut [u8], horizon: u64, tm: &TransactionManager)
        -> (removed: usize)
        requires
            leaf_wf(old(page_data)@),
            rows_typed::<K, V>(leaf_rows(old(page_data)@)),
        ensures
            leaf_wf(final(page_data)@),
            removed == leaf_rows(old(page_data)@).len() - kept_rows(
                leaf_rows(old(page_data)@),
                horizon,
                tm@,
            ).len(),
            removed == 0 ==> final(page_data)@ == old(page_data)@,
            removed > 0 ==> leaf_view(final(page_data)@) == compacted(
                leaf_view(old(page_data)@),
                page_id,
                horizon,
                tm@,
            ),
    {
        let acc = LeafPageAccessor::<K, V>::new(page_data);
        let n: usize = acc.num_pairs() as usize;
        let ghost rows = acc.leaf().rows;
        let ghost old_page = acc.data@;
        let mut live: Vec<Row> = Vec::new();
        let mut i: usize = 0;
        while i < n
            invariant
                acc.wf(),
                acc.data@ == old_page,
                rows == leaf_rows(old_page),
                i <= n,
                n == rows.len(),
                row_views(live@) == kept_rows(rows.take(i as int), horizon, tm@),
                live@.len() <= i,
            decreases n - i,
        {
            let xmin: u64 = acc.get_xmin(i);
            let xmax: u64 = acc.get_xmax(i);
            proof {
                lemma_kept_step(rows, i as int, horizon, tm@);
            }
            if !crate::transaction::is_vacuumable(xmin, xmax, horizon, tm) {
                let key: Vec<u8> = vstd::slice::slice_to_vec(acc.key_bytes_at(i));
                let val: Vec<u8> = vstd::slice::slice_to_vec(acc.value_bytes_at(i));
                let row = Row { key, val, xmin, xmax };
                let ghost before = live@;
                live.push(row);
                assert(row_views(live@) =~= row_views(before).push(row.ver()));
                assert(row.ver() =~= rows[i as int]);
            }
            i = i + 1;
        }
        proof {
            assert(rows.take(n as int) =~= rows);
            assert(row_views(live@).len() == live@.len());
        }
        let dead_count: usize = n - live.len();
        if dead_count == 0 {
            return 0;
        }
        let high_key: Option<Vec<u8>> = match acc.high_key_bytes() {
            Some(h) => Some(vstd::slice::slice_to_vec(h)),
            None => None,
        };
        let rightlink = acc.rightlink();
        let prev_page = acc.prev_page();
        let lsn: u64 = acc.lsn();
        proof {
            lemma_packed_room(old_page);
            lemma_kept_bytes(rows, horizon, tm@);
        }
        let mut builder = LeafPageBuilder::<K, V>::new(page_id, page_data);
        match &high_key {
            Some(h) => builder.set_high_key(h.as_slice()),
            None => {},
        }
        builder.set_rightlink(rightlink);
        builder.set_prev_page(prev_page);
        proof {
            let all = row_views(live@);
            assert(all.subrange(0, all.len() as int) =~= all);
            assert(Seq::<Version>::empty() + all =~= all);
        }
        builder.push_rows(&live, 0, live.len());
        let mut m = builder.finish();
        m.set_lsn(lsn);
        dead_count
    }
}

/// A row on its way from one page to another.
pub struct Row {
    pub key: Vec<u8>,
    pub val: Vec<u8>,
    pub xmin: u64,
    pub xmax: u64,
}

impl Row {
    /// The version that the row holds.
    pub open spec fn ver(&self) -> Version {
        Version { key: self.key@, val: self.val@, xmin: self.xmin, xmax: self.xmax }
    }
}

/// The versions that the rows hold.
pub open spec fn row_views(rows: Seq<Row>) -> Seq<Version> {
    Seq::new(rows.len(), |i: int| rows[i].ver())
}

/// The rows that vacuum must keep.
pub open spec fn kept_rows(rows: Seq<Version>, horizon: u64, tm: TmView) -> Seq<Version>
    decreases rows.len(),
{
    if rows.len() == 0 {
        Seq::empty()
    } else {
        let rest = kept_rows(rows.drop_last(), horizon, tm);
        if vacuumable(rows.last().xmin, rows.last().xmax, horizon, tm) {
            rest
        } else {
            rest.push(rows.last())
        }
    }
}

/// The leaf with the rows that vacuum must keep, packed.
pub open spec fn compacted(leaf: LeafView, id: PageId, horizon: u64, tm: TmView) -> LeafView {
    let rows = kept_rows(leaf.rows, horizon, tm);
    LeafView { id, flags: 0, rows, free: packed_room(leaf.high, rows), ..leaf }
}

proof fn lemma_kept_step(rows: Seq<Version>, i: int, horizon: u64, tm: TmView)
    requires
        0 <= i < rows.len(),
    ensures
        kept_rows(rows.take(i + 1), horizon, tm) == (if vacuumable(
            rows[i].xmin,
            rows[i].xmax,
            horizon,
            tm,
        ) {
            kept_rows(rows.take(i), horizon, tm)
        } else {
            kept_rows(rows.take(i), horizon, tm).push(rows[i])
        }),
{
    assert(rows.take(i + 1).drop_last() =~= rows.take(i));
}

/// The kept rows are no more and take no more bytes than the rows.
pub proof fn lemma_kept_bytes(rows: Seq<Version>, horizon: u64, tm: TmView)
    ensures
        kept_rows(rows, horizon, tm).len() <= rows.len(),
        rows_bytes(kept_rows(rows, horizon, tm)) <= rows_bytes(rows),
        forall|i: int|
            0 <= i < kept_rows(rows, horizon, tm).len() ==> rows.contains(
                #[trigger] kept_rows(rows, horizon, tm)[i],
            ),
    decreases rows.len(),
{
    if rows.len() > 0 {
        let init = rows.drop_last();
        lemma_kept_bytes(init, horizon, tm);
        let rest = kept_rows(init, horizon, tm);
        let all = kept_rows(rows, horizon, tm);
        assert(rest.push(rows.last()).drop_last() =~= rest);
        assert forall|i: int| 0 <= i < all.len() implies rows.contains(#[trigger] all[i]) by {
            if i < rest.len() {
                assert(init.contains(rest[i]));
                let k = choose|k: int| 0 <= k < init.len() && init[k] == rest[i];
                assert(rows[k] == all[i]);
            } else {
                assert(rows[rows.len() - 1] == all[i]);
            }
        }
    }
}

/// Vacuum keeps exactly the rows that it may not remove, and keeps them in order.
pub proof fn law_compaction_keeps_the_rest(rows: Seq<Version>, horizon: u64, tm: TmView)
    ensures
        kept_rows(rows, horizon, tm) == rows.filter(
            |r: Version| !vacuumable(r.xmin, r.xmax, horizon, tm),
        ),
    decreases rows.len(),
{
    reveal(Seq::filter);
    if rows.len() > 0 {
        law_compaction_keeps_the_rest(rows.drop_last(), horizon, tm);
    }
}

/// Writes the high key of a leaf without rows.
fn write_high_key(data: &mut [u8], key_bytes: &[u8])
    requires
        leaf_wf(old(data)@),
        leaf_count(old(data)@) == 0,
        slot_base_of(key_bytes@.len() as int) <= leaf_free_end(old(data)@),
    ensures
        leaf_wf(final(data)@),
        leaf_view(final(data)@) == (LeafView {
            high: if key_bytes@.len() == 0 {
                None
            } else {
                Some(key_bytes@)
            },
            free: leaf_free_end(old(data)@) - slot_base_of(key_bytes@.len() as int),
            ..leaf_view(old(data)@)
        }),
        leaf_free_end(final(data)@) == leaf_free_end(old(data)@),
{
    let ghost s = data@;
    let len: usize = key_bytes.len();
    write_u16(data, OFF_LEAF_HIGH_KEY_LEN, len as u16);
    write_bytes(data, LEAF_HEADER_SIZE, key_bytes);
    write_u16(data, OFF_LEAF_FREE_START, slot_base(len) as u16);
    proof {
        lemma_high_key_set(s, data@, key_bytes@);
        lemma_same_u16(s, data@, 6);
    }
}

/// Builds a fresh leaf page row by row.
pub struct LeafPageBuilder<'a, K: Key, V: Value> {
    pub data: &'a mut [u8],
    pub _key: PhantomData<K>,
    pub _val: PhantomData<V>,
}

impl<'a, K: Key, V: Value> LeafPageBuilder<'a, K, V> {
    /// The page's bytes.
    pub open spec fn page(&self) -> Seq<u8> {
        self.data@
    }

    /// What the page holds so far.
    pub open spec fn leaf(&self) -> LeafView {
        leaf_view(self.data@)
    }

    /// The page is a leaf whose rows are packed at its end.
    pub open spec fn wf(&self) -> bool {
        &&& leaf_wf(self.data@)
        &&& self.leaf().free == packed_room(self.leaf().high, self.leaf().rows)
    }

    /// Makes the page an empty, rightmost leaf.
    pub fn new(page_id: PageId, data: &'a mut [u8]) -> (b: Self)
        requires
            old(data).len() == PAGE_SIZE,
        ensures
            b.wf(),
            b.leaf() == blank_leaf(page_id),
            final(b.data)@ == final(data)@,
    {
        blank(data, page_id);
        LeafPageBuilder { data, _key: PhantomData, _val: PhantomData }
    }

    pub fn set_prev_page(&mut self, prev: Option<PageId>)
        requires
            old(self).wf(),
        ensures
            final(self).wf(),
            final(self).leaf() == (LeafView { prev: link(prev.unwrap_or(0)), ..old(self).leaf() }),
            final(final(self).data)@ == final(old(self).data)@,
    {
        let v: u64 = prev.unwrap_or(0);
        proof {
            lemma_header_u64(self.data@, 24, v);
        }
        write_u64(self.data, OFF_LEAF_PREV, v);
    }

    pub fn set_rightlink(&mut self, right: Option<PageId>)
        requires
            old(self).wf(),
        ensures
            final(self).wf(),
            final(self).leaf() == (LeafView { right: link(right.unwrap_or(0)), ..old(self).leaf() }),
            final(final(self).data)@ == final(old(self).data)@,
    {
        let v: u64 = right.unwrap_or(0);
        proof {
            lemma_header_u64(self.data@, 32, v);
        }
        write_u64(self.data, OFF_LEAF_RIGHTLINK, v);
    }

    /// Sets the high key, before any row is pushed.
    pub fn set_high_key(&mut self, key_bytes: &[u8])
        requires
            old(self).wf(),
            old(self).leaf().rows.len() == 0,
            slot_base_of(key_bytes@.len() as int) <= PAGE_SIZE,
        ensures
            final(self).wf(),
            final(self).leaf() == (LeafView {
                high: if key_bytes@.len() == 0 {
                    None
                } else {
                    Some(key_bytes@)
                },
                free: PAGE_SIZE - slot_base_of(key_bytes@.len() as int),
                ..old(self).leaf()
            }),
            final(final(self).data)@ == final(old(self).data)@,
    {
        write_high_key(self.data, key_bytes);
    }

    /// Appends a row of encoded key and value. The page must have room for it.
    pub fn push_bytes(&mut self, key: &[u8], val: &[u8], xmin: u64, xmax: u64)
        requires
            old(self).wf(),
            row_need(key@, val@) <= old(self).leaf().free,
        ensures
            final(self).wf(),
            final(self).leaf() == (LeafView {
                rows: old(self).leaf().rows.push(Version { key: key@, val: val@, xmin, xmax }),
                free: old(self).leaf().free - row_need(key@, val@),
                ..old(self).leaf()
            }),
            final(final(self).data)@ == final(old(self).data)@,
    {
        let n: usize = read_u16(self.data, OFF_LEAF_SLOT_COUNT) as usize;
        proof {
            let rows = leaf_rows(self.data@);
            let r = Version { key: key@, val: val@, xmin, xmax };
            assert(rows.insert(n as int, r) =~= rows.push(r));
            lemma_rows_bytes_edit(rows, n as int, r);
        }
        add_row(self.data, n, key, val, xmin, xmax);
    }

    /// Appends the rows `lo..hi`. The page must have room for them.
    pub fn push_rows(&mut self, rows: &Vec<Row>, lo: usize, hi: usize)
        requires
            old(self).wf(),
            lo <= hi <= rows@.len(),
            0 <= packed_room(
                old(self).leaf().high,
                old(self).leaf().rows + row_views(rows@).subrange(lo as int, hi as int),
            ),
        ensures
            final(self).wf(),
            final(self).leaf() == (LeafView {
                rows: old(self).leaf().rows + row_views(rows@).subrange(lo as int, hi as int),
                free: packed_room(
                    old(self).leaf().high,
                    old(self).leaf().rows + row_views(rows@).subrange(lo as int, hi as int),
                ),
                ..old(self).leaf()
            }),
            final(final(self).data)@ == final(old(self).data)@,
    {
        let ghost start = self.leaf();
        let ghost all = row_views(rows@);
        let mut i: usize = lo;
        assert(all.subrange(lo as int, lo as int) =~= Seq::<Version>::empty());
        assert(start.rows + Seq::<Version>::empty() =~= start.rows);
        while i < hi
            invariant
                lo <= i <= hi <= rows@.len(),
                all == row_views(rows@),
                start == old(self).leaf(),
                self.wf(),
                self.leaf() == (LeafView {
                    rows: start.rows + all.subrange(lo as int, i as int),
                    free: packed_room(start.high, start.rows + all.subrange(lo as int, i as int)),
                    ..start
                }),
                0 <= packed_room(start.high, start.rows + all.subrange(lo as int, hi as int)),
                final(self.data)@ == final(old(self).data)@,
            decreases hi - i,
        {
            proof {
                let done = start.rows + all.subrange(lo as int, i as int);
                let next = start.rows + all.subrange(lo as int, i + 1);
                let rest = all.subrange(i + 1, hi as int);
                let r = all[i as int];
                assert(next =~= done.push(r));
                lemma_rows_bytes_edit(done, done.len() as int, r);
                assert(done.insert(done.len() as int, r) =~= done.push(r));
                lemma_rows_bytes_concat(next, rest);
                lemma_rows_bytes_positive(rest);
                assert(next + rest =~= start.rows + all.subrange(lo as int, hi as int));
            }
            let row: &Row = &rows[i];
            self.push_bytes(row.key.as_slice(), row.val.as_slice(), row.xmin, row.xmax);
            i = i + 1;
        }
    }

    /// Appends a row. The page must have room for it.
    pub fn push_with_mvcc(
        &mut self,
        key: &K::SelfType<'_>,
        value: &V::SelfType<'_>,
        xmin: u64,
        xmax: u64,
    )
        requires
            old(self).wf(),
            K::width_fits(),
            V::width_fits(),
            K::encodable(K::model(*key)),
            V::encodable(V::model(*value)),
            row_need(K::encode(K::model(*key)), V::encode(V::model(*value))) <= old(
                self,
            ).leaf().free,
        ensures
            final(self).wf(),
            ({
                let k = K::encode(K::model(*key));
                let v = V::encode(V::model(*value));
                final(self).leaf() == (LeafView {
                    rows: old(self).leaf().rows.push(Version { key: k, val: v, xmin, xmax }),
                    free: old(self).leaf().free - row_need(k, v),
                    ..old(self).leaf()
                })
            }),
            final(final(self).data)@ == final(old(self).data)@,
    {
        let key_bytes: Vec<u8> = K::as_bytes(key);
        let val_bytes: Vec<u8> = V::as_bytes(value);
        self.push_bytes(key_bytes.as_slice(), val_bytes.as_slice(), xmin, xmax);
    }

    /// Ends the building; the mutator serves what is left to write to the header.
    pub fn finish(self) -> (m: LeafPageMutator<'a, K, V>)
        requires
            self.wf(),
        ensures
            m.wf(),
            m.page() == self.page(),
            final(m.data)@ == final(self.data)@,
    {
        LeafPageMutator::new(self.data)
    }
}

} // verus!
