//! Internal pages: separator keys and the children between them.
//!
//! A page starts with a header of 40 bytes: page type at 0, flags at 1, number of keys
//! at 2, length of the high key at 4, page id at 8, log sequence number at 16, right
//! sibling at 24 and checksum at 32. The children follow, eight bytes each, one more
//! than there are keys; then, four bytes each, where each key ends in the key data;
//! then the key data. The high key stands at the end of the page.

use crate::bytes::{
    lemma_put_u16, lemma_put_u32, lemma_put_u64, lemma_same_u16, lemma_same_u32, lemma_same_u64,
    put, read_u16, read_u32, read_u64, same, u16_at, u32_at, u64_at, u64_bytes, write_bytes,
    write_u16, write_u32, write_u64, write_u8, zero_bytes,
};
use crate::error::PageError;
use crate::page::leaf::link;
use crate::page::{
    with_lsn, ChildSide, Lsn, PageId, INTERNAL, OFF_LSN, OFF_PAGE_ID, OFF_PAGE_TYPE, PAGE_SIZE,
};
use crate::types::{canonical, key_before, key_order, Key};
use std::marker::PhantomData;
use vstd::prelude::*;
use vstd::slice::slice_subrange;

verus! {

broadcast use crate::bytes::group_int_bytes;

pub const OFF_INT_NUM_KEYS: usize = 2;

pub const OFF_INT_HIGH_KEY_LEN: usize = 4;

pub const OFF_INT_RIGHTLINK: usize = 24;

pub const INT_HEADER_SIZE: usize = 40;

/// What an internal page holds.
#[verifier::ext_equal]
pub ghost struct InternalView {
    pub id: PageId,
    pub lsn: Lsn,
    pub flags: u8,
    pub right: Option<PageId>,
    /// The exclusive upper bound of the keys, or `None` for the rightmost page.
    pub high: Option<Seq<u8>>,
    pub children: Seq<PageId>,
    pub keys: Seq<Seq<u8>>,
}

/// The bytes of the first `i` keys together.
pub open spec fn key_total(keys: Seq<Seq<u8>>, i: int) -> int
    decreases i,
{
    if i <= 0 {
        0
    } else {
        key_total(keys, i - 1) + keys[i - 1].len()
    }
}

/// No key is longer than all keys together.
pub proof fn lemma_key_total_bound(keys: Seq<Seq<u8>>, n: int)
    requires
        0 <= n <= keys.len(),
    ensures
        key_total(keys, n) >= 0,
        forall|i: int| 0 <= i < n ==> (#[trigger] keys[i]).len() <= key_total(keys, n),
    decreases n,
{
    if n > 0 {
        lemma_key_total_bound(keys, n - 1);
    }
}

/// A separator of the given length and its right child fit on the page.
pub open spec fn int_fits(s: Seq<u8>, klen: int) -> bool {
    PAGE_SIZE - int_used(int_view(s).keys) - int_hkl(s) >= 12 + klen
}

/// More than half of the page is free.
pub open spec fn int_underfull(s: Seq<u8>) -> bool {
    (PAGE_SIZE - int_used(int_view(s).keys) - int_hkl(s)) * 2 > PAGE_SIZE
}

/// Where a separator fits, one that is no longer fits too.
pub proof fn law_int_fits(s: Seq<u8>, short: int, long: int)
    requires
        short <= long,
        int_fits(s, long),
    ensures
        int_fits(s, short),
{
}

/// Bytes that a page with these keys takes, without its high key.
pub open spec fn int_used(keys: Seq<Seq<u8>>) -> int {
    48 + 12 * keys.len() + key_total(keys, keys.len() as int)
}

pub open spec fn int_count(s: Seq<u8>) -> int {
    u16_at(s, 2) as int
}

pub open spec fn int_hkl(s: Seq<u8>) -> int {
    u16_at(s, 4) as int
}

pub open spec fn child_at(s: Seq<u8>, i: int) -> u64 {
    u64_at(s, 40 + 8 * i)
}

/// Where the key `i` ends in the key data of a page with `n` keys.
pub open spec fn end_at(s: Seq<u8>, n: int, i: int) -> int {
    u32_at(s, 48 + 8 * n + 4 * i) as int
}

/// Where the key `i` starts in the key data of a page with `n` keys.
pub open spec fn start_at(s: Seq<u8>, n: int, i: int) -> int {
    if i == 0 {
        0
    } else {
        end_at(s, n, i - 1)
    }
}

pub open spec fn data_base(n: int) -> int {
    48 + 12 * n
}

/// Bytes of the key data.
pub open spec fn data_len(s: Seq<u8>) -> int {
    start_at(s, int_count(s), int_count(s))
}

pub open spec fn int_key(s: Seq<u8>, i: int) -> Seq<u8> {
    let n = int_count(s);
    s.subrange(data_base(n) + start_at(s, n, i), data_base(n) + end_at(s, n, i))
}

pub open spec fn int_high(s: Seq<u8>) -> Option<Seq<u8>> {
    if int_hkl(s) == 0 {
        None
    } else {
        Some(s.subrange(PAGE_SIZE - int_hkl(s), PAGE_SIZE as int))
    }
}

/// The page is an internal page whose sections are laid out as described.
pub open spec fn int_wf(s: Seq<u8>) -> bool {
    &&& s.len() == PAGE_SIZE
    &&& s[0] == INTERNAL
    &&& forall|i: int|
        0 <= i < int_count(s) ==> start_at(s, int_count(s), i) <= #[trigger] end_at(
            s,
            int_count(s),
            i,
        )
    &&& data_base(int_count(s)) + data_len(s) + int_hkl(s) <= PAGE_SIZE
}

/// What an internal page holds.
pub open spec fn int_view(s: Seq<u8>) -> InternalView {
    InternalView {
        id: u64_at(s, 8),
        lsn: u64_at(s, 16),
        flags: s[1],
        right: link(u64_at(s, 24)),
        high: int_high(s),
        children: Seq::new((int_count(s) + 1) as nat, |i: int| child_at(s, i)),
        keys: Seq::new(int_count(s) as nat, |i: int| int_key(s, i)),
    }
}

/// No key ends after the key data.
proof fn lemma_ends(s: Seq<u8>, i: int)
    requires
        int_wf(s),
        0 <= i <= int_count(s),
    ensures
        0 <= start_at(s, int_count(s), i) <= data_len(s),
        i < int_count(s) ==> end_at(s, int_count(s), i) <= data_len(s),
        i < int_count(s) ==> start_at(s, int_count(s), i) <= end_at(s, int_count(s), i),
    decreases int_count(s) - i,
{
    if i < int_count(s) {
        assert(start_at(s, int_count(s), i) <= end_at(s, int_count(s), i));
        lemma_ends(s, i + 1);
    }
}

/// The lengths of the first keys add up to where the last of them ends.
proof fn lemma_totals(s: Seq<u8>, i: int)
    requires
        int_wf(s),
        0 <= i <= int_count(s),
    ensures
        key_total(int_view(s).keys, i) == start_at(s, int_count(s), i),
    decreases i,
{
    if i > 0 {
        lemma_totals(s, i - 1);
        lemma_ends(s, i - 1);
    }
}

/// The sections take as many bytes as the keys say.
pub proof fn lemma_int_used(s: Seq<u8>)
    requires
        int_wf(s),
    ensures
        int_used(int_view(s).keys) == data_base(int_count(s)) + data_len(s),
        int_used(int_view(s).keys) + int_hkl(s) <= PAGE_SIZE,
{
    lemma_totals(s, int_count(s));
}

/// Pages with equal counters and equal bytes from the children on have the same keys
/// and children.
proof fn lemma_int_body_same(s: Seq<u8>, t: Seq<u8>)
    requires
        int_wf(s),
        t.len() == PAGE_SIZE,
        t[0] == INTERNAL,
        int_count(t) == int_count(s),
        int_hkl(t) == int_hkl(s),
        same(s, t, 40, PAGE_SIZE as int),
    ensures
        int_wf(t),
        int_view(t).children == int_view(s).children,
        int_view(t).keys == int_view(s).keys,
        int_view(t).high == int_view(s).high,
{
    let n = int_count(s);
    assert forall|i: int| 0 <= i < n implies #[trigger] end_at(t, n, i) == end_at(s, n, i) by {
        lemma_same_u32(s, t, 48 + 8 * n + 4 * i);
    }
    assert forall|i: int| 0 <= i < n implies start_at(t, n, i) <= #[trigger] end_at(t, n, i) by {
        assert(start_at(s, n, i) <= end_at(s, n, i));
        if i > 0 {
            assert(end_at(t, n, i - 1) == end_at(s, n, i - 1));
        }
    }
    if n > 0 {
        assert(end_at(t, n, n - 1) == end_at(s, n, n - 1));
    }
    assert forall|i: int| 0 <= i <= n implies #[trigger] child_at(t, i) == child_at(s, i) by {
        lemma_same_u64(s, t, 40 + 8 * i);
    }
    assert(int_view(t).children =~= int_view(s).children);
    assert forall|i: int| 0 <= i < n implies #[trigger] int_key(t, i) == int_key(s, i) by {
        lemma_ends(s, i);
        assert(end_at(t, n, i) == end_at(s, n, i));
        if i > 0 {
            assert(end_at(t, n, i - 1) == end_at(s, n, i - 1));
        }
        assert(int_key(t, i) =~= int_key(s, i));
    }
    assert(int_view(t).keys =~= int_view(s).keys);
    if int_hkl(s) != 0 {
        assert(int_high(t)->0 =~= int_high(s)->0);
    }
}

/// Replacing the log sequence number or the right sibling changes nothing else.
proof fn lemma_int_header_u64(s: Seq<u8>, off: int, v: u64)
    requires
        int_wf(s),
        off == 16 || off == 24,
    ensures
        int_wf(put(s, off, u64_bytes(v))),
        off == 16 ==> int_view(put(s, off, u64_bytes(v))) == (InternalView {
            lsn: v,
            ..int_view(s)
        }),
        off == 24 ==> int_view(put(s, off, u64_bytes(v))) == (InternalView {
            right: link(v),
            ..int_view(s)
        }),
{
    let t = put(s, off, u64_bytes(v));
    lemma_put_u64(s, off, v);
    lemma_same_u16(s, t, 2);
    lemma_same_u16(s, t, 4);
    lemma_same_u64(s, t, 8);
    if off != 16 {
        lemma_same_u64(s, t, 16);
    }
    if off != 24 {
        lemma_same_u64(s, t, 24);
    }
    lemma_int_body_same(s, t);
}

/// Replacing the flags byte changes nothing else.
pub proof fn lemma_int_flags(s: Seq<u8>, f: u8)
    requires
        int_wf(s),
    ensures
        int_wf(crate::page::with_flags(s, f)),
        int_view(crate::page::with_flags(s, f)) == (InternalView { flags: f, ..int_view(s) }),
{
    let t = crate::page::with_flags(s, f);
    lemma_same_u16(s, t, 2);
    lemma_same_u16(s, t, 4);
    lemma_same_u64(s, t, 8);
    lemma_same_u64(s, t, 16);
    lemma_same_u64(s, t, 24);
    lemma_int_body_same(s, t);
}

/// Replacing the log sequence number changes nothing else.
pub proof fn lemma_int_lsn(s: Seq<u8>, lsn: u64)
    requires
        int_wf(s),
    ensures
        int_wf(crate::page::with_lsn(s, lsn)),
        int_view(crate::page::with_lsn(s, lsn)) == (InternalView { lsn, ..int_view(s) }),
{
    lemma_int_header_u64(s, 16, lsn);
}

/// Replacing the checksum changes nothing else.
pub proof fn lemma_int_stamp(s: Seq<u8>, crc: u32)
    requires
        int_wf(s),
    ensures
        int_wf(crate::page::stamped(s, crc)),
        int_view(crate::page::stamped(s, crc)) == int_view(s),
{
    let t = crate::page::stamped(s, crc);
    lemma_same_u16(s, t, 2);
    lemma_same_u16(s, t, 4);
    lemma_same_u64(s, t, 8);
    lemma_same_u64(s, t, 16);
    lemma_same_u64(s, t, 24);
    lemma_int_body_same(s, t);
}

/// The keys as byte strings.
pub open spec fn key_views(keys: Seq<Vec<u8>>) -> Seq<Seq<u8>> {
    Seq::new(keys.len(), |i: int| keys[i]@)
}

/// Totals grow with the number of keys.
proof fn lemma_key_total_mono(keys: Seq<Seq<u8>>, i: int, j: int)
    requires
        0 <= i <= j <= keys.len(),
    ensures
        0 <= key_total(keys, i) <= key_total(keys, j),
    decreases j,
{
    if i < j {
        lemma_key_total_mono(keys, i, j - 1);
    } else if i > 0 {
        lemma_key_total_mono(keys, i - 1, j - 1);
    }
}

/// Totals depend on the keys that they cover alone.
proof fn lemma_key_total_same(a: Seq<Seq<u8>>, b: Seq<Seq<u8>>, i: int)
    requires
        0 <= i <= a.len(),
        i <= b.len(),
        forall|j: int| 0 <= j < i ==> a[j] == b[j],
    ensures
        key_total(a, i) == key_total(b, i),
    decreases i,
{
    if i > 0 {
        lemma_key_total_same(a, b, i - 1);
    }
}

/// A new key adds its length to the total.
pub proof fn lemma_key_total_insert(keys: Seq<Seq<u8>>, pos: int, k: Seq<u8>, i: int)
    requires
        0 <= pos <= keys.len(),
        pos <= i <= keys.len(),
    ensures
        key_total(keys.insert(pos, k), i + 1) == key_total(keys, i) + k.len(),
    decreases i,
{
    let t = keys.insert(pos, k);
    if i == pos {
        lemma_key_total_same(t, keys, pos);
    } else {
        lemma_key_total_insert(keys, pos, k, i - 1);
    }
}

/// A removed key takes its length from the total.
pub proof fn lemma_key_total_remove(keys: Seq<Seq<u8>>, pos: int)
    requires
        0 <= pos < keys.len(),
    ensures
        key_total(keys.remove(pos), keys.len() - 1) == key_total(keys, keys.len() as int)
            - keys[pos].len(),
{
    let r = keys.remove(pos);
    lemma_key_total_insert(r, pos, keys[pos], r.len() as int);
    assert(r.insert(pos, keys[pos]) =~= keys);
}

/// The key `j` stands where the lengths of the keys before it put it.
pub open spec fn key_stands(s: Seq<u8>, base: int, kv: Seq<Seq<u8>>, j: int) -> bool {
    s.subrange(base + key_total(kv, j), base + key_total(kv, j + 1)) == kv[j]
}

fn write_children(data: &mut [u8], children: &Vec<PageId>)
    requires
        old(data).len() == PAGE_SIZE,
        40 + 8 * children@.len() <= PAGE_SIZE,
    ensures
        final(data)@.len() == PAGE_SIZE,
        same(old(data)@, final(data)@, 0, 40),
        same(old(data)@, final(data)@, (40 + 8 * children@.len()) as int, PAGE_SIZE as int),
        forall|j: int|
            0 <= j < children@.len() ==> #[trigger] child_at(final(data)@, j) == children@[j],
{
    let ghost s1 = data@;
    let mut i: usize = 0;
    while i < children.len()
        invariant
            i <= children@.len(),
            40 + 8 * children@.len() <= PAGE_SIZE,
            data@.len() == PAGE_SIZE,
            s1.len() == PAGE_SIZE,
            same(s1, data@, 0, 40),
            same(s1, data@, (40 + 8 * children@.len()) as int, PAGE_SIZE as int),
            forall|j: int| 0 <= j < i ==> #[trigger] child_at(data@, j) == children@[j],
        decreases children@.len() - i,
    {
        let ghost t = data@;
        write_u64(data, INT_HEADER_SIZE + 8 * i, children[i]);
        proof {
            lemma_put_u64(t, 40 + 8 * i, children@[i as int]);
            assert forall|j: int| 0 <= j < i + 1 implies #[trigger] child_at(data@, j)
                == children@[j] by {
                if j < i {
                    assert(child_at(t, j) == children@[j]);
                    lemma_same_u64(t, data@, 40 + 8 * j);
                }
            }
        }
        i = i + 1;
    }
}

fn write_ends(data: &mut [u8], keys: &Vec<Vec<u8>>)
    requires
        old(data).len() == PAGE_SIZE,
        int_used(key_views(keys@)) <= PAGE_SIZE,
    ensures
        final(data)@.len() == PAGE_SIZE,
        same(old(data)@, final(data)@, 0, (48 + 8 * keys@.len()) as int),
        same(old(data)@, final(data)@, (48 + 12 * keys@.len()) as int, PAGE_SIZE as int),
        forall|j: int|
            0 <= j < keys@.len() ==> #[trigger] end_at(final(data)@, keys@.len() as int, j)
                == key_total(key_views(keys@), j + 1),
{
    let ghost s2 = data@;
    let ghost kv = key_views(keys@);
    let n: usize = keys.len();
    proof {
        lemma_key_total_mono(kv, 0, n as int);
    }
    let mut total: usize = 0;
    let mut i: usize = 0;
    while i < n
        invariant
            i <= n,
            n == keys@.len(),
            kv == key_views(keys@),
            total == key_total(kv, i as int),
            48 + 12 * n + key_total(kv, n as int) <= PAGE_SIZE,
            data@.len() == PAGE_SIZE,
            s2.len() == PAGE_SIZE,
            same(s2, data@, 0, 48 + 8 * n),
            same(s2, data@, 48 + 12 * n, PAGE_SIZE as int),
            forall|j: int|
                0 <= j < i ==> #[trigger] end_at(data@, n as int, j) == key_total(kv, j + 1),
        decreases n - i,
    {
        let ghost t = data@;
        proof {
            lemma_key_total_mono(kv, i + 1, n as int);
        }
        total = total + keys[i].len();
        write_u32(data, INT_HEADER_SIZE + 8 * (n + 1) + 4 * i, total as u32);
        proof {
            lemma_put_u32(t, 48 + 8 * n + 4 * i, total as u32);
            assert forall|j: int| 0 <= j < i + 1 implies #[trigger] end_at(data@, n as int, j)
                == key_total(kv, j + 1) by {
                if j < i {
                    assert(end_at(t, n as int, j) == key_total(kv, j + 1));
                    lemma_same_u32(t, data@, 48 + 8 * n + 4 * j);
                }
            }
        }
        i = i + 1;
    }
}

/// Keys that stand in `t` still stand after bytes behind them have changed.
proof fn lemma_key_still_stands(
    t: Seq<u8>,
    u: Seq<u8>,
    base: int,
    kv: Seq<Seq<u8>>,
    i: int,
    j: int,
)
    requires
        0 <= j < i <= kv.len(),
        0 <= base,
        base + key_total(kv, i) <= t.len(),
        t.len() == u.len(),
        same(t, u, 0, base + key_total(kv, i)),
        key_stands(t, base, kv, j),
    ensures
        key_stands(u, base, kv, j),
{
    lemma_key_total_mono(kv, 0, j);
    lemma_key_total_mono(kv, j, j + 1);
    lemma_key_total_mono(kv, j + 1, i);
    let lo = base + key_total(kv, j);
    let hi = base + key_total(kv, j + 1);
    assert(u.subrange(lo, hi) =~= t.subrange(lo, hi));
}

fn write_keys(data: &mut [u8], keys: &Vec<Vec<u8>>)
    requires
        old(data).len() == PAGE_SIZE,
        int_used(key_views(keys@)) <= PAGE_SIZE,
    ensures
        final(data)@.len() == PAGE_SIZE,
        same(old(data)@, final(data)@, 0, (48 + 12 * keys@.len()) as int),
        same(old(data)@, final(data)@, int_used(key_views(keys@)), PAGE_SIZE as int),
        forall|j: int|
            0 <= j < keys@.len() ==> #[trigger] key_stands(
                final(data)@,
                (48 + 12 * keys@.len()) as int,
                key_views(keys@),
                j,
            ),
{
    let ghost s3 = data@;
    let ghost kv = key_views(keys@);
    let n: usize = keys.len();
    proof {
        lemma_key_total_mono(kv, 0, n as int);
    }
    let base: usize = INT_HEADER_SIZE + 8 * (n + 1) + 4 * n;
    let mut off: usize = base;
    let mut i: usize = 0;
    while i < n
        invariant
            i <= n,
            n == keys@.len(),
            kv == key_views(keys@),
            base == 48 + 12 * n,
            off == base + key_total(kv, i as int),
            48 + 12 * n + key_total(kv, n as int) <= PAGE_SIZE,
            data@.len() == PAGE_SIZE,
            s3.len() == PAGE_SIZE,
            same(s3, data@, 0, base as int),
            same(s3, data@, base + key_total(kv, n as int), PAGE_SIZE as int),
            forall|j: int| 0 <= j < i ==> #[trigger] key_stands(data@, base as int, kv, j),
        decreases n - i,
    {
        let ghost t = data@;
        proof {
            lemma_key_total_mono(kv, 0, i as int);
            lemma_key_total_mono(kv, i as int, i + 1);
            lemma_key_total_mono(kv, i + 1, n as int);
        }
        write_bytes(data, off, keys[i].as_slice());
        proof {
            assert(same(t, data@, 0, off as int));
            assert forall|j: int| 0 <= j < i + 1 implies #[trigger] key_stands(
                data@,
                base as int,
                kv,
                j,
            ) by {
                if j < i {
                    assert(key_stands(t, base as int, kv, j));
                    lemma_key_still_stands(t, data@, base as int, kv, i as int, j);
                } else {
                    assert(data@.subrange(off as int, off + kv[j].len() as int) =~= kv[j]);
                }
            }
        }
        off = off + keys[i].len();
        i = i + 1;
    }
}

/// Writes children, key ends and key data; the header and the high key stay.
fn rewrite(data: &mut [u8], children: &Vec<PageId>, keys: &Vec<Vec<u8>>)
    requires
        int_wf(old(data)@),
        children@.len() == keys@.len() + 1,
        int_used(key_views(keys@)) + int_hkl(old(data)@) <= PAGE_SIZE,
    ensures
        int_wf(final(data)@),
        int_view(final(data)@) == (InternalView {
            children: children@,
            keys: key_views(keys@),
            ..int_view(old(data)@)
        }),
{
    let ghost s0 = data@;
    let ghost kv = key_views(keys@);
    let ghost hkl = int_hkl(s0);
    let n: usize = keys.len();
    proof {
        lemma_key_total_mono(kv, 0, n as int);
    }
    write_u16(data, OFF_INT_NUM_KEYS, n as u16);
    proof {
        lemma_put_u16(s0, 2, n as u16);
    }
    let ghost s1 = data@;
    write_children(data, children);
    let ghost s2 = data@;
    write_ends(data, keys);
    let ghost s3 = data@;
    write_keys(data, keys);
    proof {
        let t = data@;
        let m = n as int;
        assert(same(s0, s1, 0, 2));
        assert(same(s0, s1, 4, PAGE_SIZE as int));
        assert(same(s0, t, 4, 40));
        assert(same(s0, t, PAGE_SIZE - hkl, PAGE_SIZE as int));
        assert(t[0] == s0[0] && t[1] == s0[1]);
        lemma_same_u16(s1, t, 2);
        lemma_same_u16(s0, t, 4);
        lemma_same_u64(s0, t, 8);
        lemma_same_u64(s0, t, 16);
        lemma_same_u64(s0, t, 24);
        assert forall|j: int| 0 <= j <= n implies #[trigger] child_at(t, j) == children@[j] by {
            assert(child_at(s2, j) == children@[j]);
            lemma_same_u64(s2, t, 40 + 8 * j);
        }
        assert forall|j: int| 0 <= j < n implies #[trigger] end_at(t, m, j) == key_total(
            kv,
            j + 1,
        ) by {
            assert(end_at(s3, m, j) == key_total(kv, j + 1));
            lemma_same_u32(s3, t, 48 + 8 * n + 4 * j);
        }
        assert forall|j: int| 0 <= j <= n implies #[trigger] start_at(t, m, j) == key_total(
            kv,
            j,
        ) by {
            if j > 0 {
                assert(end_at(t, m, j - 1) == key_total(kv, j));
            }
        }
        assert forall|j: int| 0 <= j < n implies start_at(t, m, j) <= #[trigger] end_at(t, m, j) by {
            assert(start_at(t, m, j) == key_total(kv, j));
            lemma_key_total_mono(kv, j, j + 1);
        }
        assert(start_at(t, m, m) == key_total(kv, m));
        assert(int_view(t).children =~= children@);
        assert forall|j: int| 0 <= j < n implies #[trigger] int_key(t, j) == kv[j] by {
            assert(start_at(t, m, j) == key_total(kv, j));
            assert(end_at(t, m, j) == key_total(kv, j + 1));
            assert(key_stands(t, 48 + 12 * m, kv, j));
        }
        assert(int_view(t).keys =~= kv);
        if hkl != 0 {
            assert(int_high(t)->0 =~= int_high(s0)->0);
        }
    }
}

/// The separators are in key order.
pub open spec fn keys_sorted<K: Key>(keys: Seq<Seq<u8>>) -> bool {
    forall|i: int, j: int| 0 <= i < j < keys.len() ==> K::le(keys[i], keys[j])
}

/// The separators are encodings of the key type.
pub open spec fn keys_typed<K: Key>(keys: Seq<Seq<u8>>) -> bool {
    forall|i: int| 0 <= i < keys.len() ==> canonical::<K>(#[trigger] keys[i])
}

/// `at` is the number of separators that are not greater than `query`.
pub open spec fn child_index<K: Key>(keys: Seq<Seq<u8>>, query: Seq<u8>, at: int) -> bool {
    &&& 0 <= at <= keys.len()
    &&& forall|i: int| 0 <= i < at ==> K::le(#[trigger] keys[i], query)
    &&& forall|i: int| at <= i < keys.len() ==> key_before::<K>(query, #[trigger] keys[i])
}

/// A read-only typed view of an internal page.
pub struct InternalPageAccessor<'a, K: Key> {
    pub data: &'a [u8],
    pub _key: PhantomData<K>,
}

impl<'a, K: Key> InternalPageAccessor<'a, K> {
    /// What the page holds.
    pub open spec fn node(&self) -> InternalView {
        int_view(self.data@)
    }

    /// The page is laid out as an internal page.
    pub open spec fn wf(&self) -> bool {
        int_wf(self.data@)
    }

    /// Wraps the bytes of an internal page.
    pub fn new(data: &'a [u8]) -> (acc: Self)
        requires
            data.len() == PAGE_SIZE,
            data@[0] == INTERNAL,
        ensures
            acc.data@ == data@,
    {
        InternalPageAccessor { data, _key: PhantomData }
    }

    pub fn lsn(&self) -> (lsn: Lsn)
        requires
            self.wf(),
        ensures
            lsn == self.node().lsn,
    {
        read_u64(self.data, OFF_LSN)
    }

    pub fn page_id(&self) -> (id: PageId)
        requires
            self.wf(),
        ensures
            id == self.node().id,
    {
        read_u64(self.data, OFF_PAGE_ID)
    }

    pub fn num_keys(&self) -> (n: u16)
        requires
            self.wf(),
        ensures
            n == self.node().keys.len(),
            n == int_count(self.data@),
            48 + 12 * n <= PAGE_SIZE,
    {
        proof {
            lemma_ends(self.data@, int_count(self.data@));
        }
        read_u16(self.data, OFF_INT_NUM_KEYS)
    }

    /// The right sibling, or `None` for the rightmost page of its level.
    pub fn rightlink(&self) -> (right: Option<PageId>)
        requires
            self.wf(),
        ensures
            right == self.node().right,
    {
        let v: u64 = read_u64(self.data, OFF_INT_RIGHTLINK);
        if v == 0 {
            None
        } else {
            Some(v)
        }
    }

    /// Length of the high key; 0 for the rightmost page.
    pub fn high_key_len(&self) -> (n: u16)
        requires
            self.wf(),
        ensures
            n == int_hkl(self.data@),
            self.node().high is None <==> n == 0,
            self.node().high matches Some(h) ==> h.len() == n,
            n <= PAGE_SIZE,
    {
        proof {
            lemma_ends(self.data@, int_count(self.data@));
        }
        read_u16(self.data, OFF_INT_HIGH_KEY_LEN)
    }

    /// The high key's bytes, or `None` for the rightmost page.
    pub fn high_key_bytes(&self) -> (high: Option<&'a [u8]>)
        requires
            self.wf(),
        ensures
            high is Some <==> self.node().high is Some,
            high matches Some(h) ==> h@ == self.node().high->0,
    {
        let len: usize = self.high_key_len() as usize;
        if len == 0 {
            return None;
        }
        Some(slice_subrange(self.data, PAGE_SIZE - len, PAGE_SIZE))
    }

    /// The high key, or `None` for the rightmost page.
    pub fn high_key(&self) -> (high: Option<K::SelfType<'a>>)
        requires
            self.wf(),
            K::width_fits(),
            self.node().high matches Some(h) ==> K::accepts(h),
        ensures
            high is Some <==> self.node().high is Some,
            high matches Some(h) ==> K::model(h) == K::decode(self.node().high->0),
    {
        match self.high_key_bytes() {
            Some(b) => Some(K::from_bytes(b)),
            None => None,
        }
    }

    /// The child `i`.
    pub fn child_page_at(&self, i: usize) -> (id: PageId)
        requires
            self.wf(),
            i < self.node().children.len(),
        ensures
            id == self.node().children[i as int],
    {
        let _n: u16 = self.num_keys();
        read_u64(self.data, INT_HEADER_SIZE + 8 * i)
    }

    /// The separator `i`.
    pub fn key_at(&self, i: usize) -> (k: K::SelfType<'a>)
        requires
            self.wf(),
            i < self.node().keys.len(),
            K::width_fits(),
            K::accepts(self.node().keys[i as int]),
        ensures
            K::model(k) == K::decode(self.node().keys[i as int]),
    {
        K::from_bytes(self.key_bytes_at(i))
    }

    /// The encoded separator `i`.
    #[verifier::rlimit(60)]
    pub fn key_bytes_at(&self, i: usize) -> (k: &'a [u8])
        requires
            self.wf(),
            i < self.node().keys.len(),
        ensures
            k@ == self.node().keys[i as int],
    {
        let n: usize = self.num_keys() as usize;
        let base: usize = INT_HEADER_SIZE + 8 * (n + 1) + 4 * n;
        proof {
            lemma_ends(self.data@, i as int);
        }
        let start: usize = if i == 0 {
            0
        } else {
            read_u32(self.data, INT_HEADER_SIZE + 8 * (n + 1) + 4 * (i - 1)) as usize
        };
        let end: usize = read_u32(self.data, INT_HEADER_SIZE + 8 * (n + 1) + 4 * i) as usize;
        slice_subrange(self.data, base + start, base + end)
    }

    /// The child to descend into for the encoded key `query`.
    pub fn find_child_bytes(&self, query: &[u8]) -> (r: (usize, PageId))
        requires
            self.wf(),
            K::width_fits(),
            K::accepts(query@),
            forall|i: int|
                0 <= i < self.node().keys.len() ==> K::accepts(#[trigger] self.node().keys[i]),
        ensures
            r.0 < self.node().children.len(),
            r.1 == self.node().children[r.0 as int],
            keys_sorted::<K>(self.node().keys) ==> child_index::<K>(
                self.node().keys,
                query@,
                r.0 as int,
            ),
    {
        let ghost keys = self.node().keys;
        let mut low: usize = 0;
        let mut high: usize = self.num_keys() as usize;
        while low < high
            invariant
                self.wf(),
                K::width_fits(),
                K::accepts(query@),
                keys == self.node().keys,
                low <= high <= keys.len(),
                forall|i: int| 0 <= i < keys.len() ==> K::accepts(#[trigger] keys[i]),
                keys_sorted::<K>(keys) ==> forall|i: int|
                    0 <= i < low ==> K::le(#[trigger] keys[i], query@),
                keys_sorted::<K>(keys) ==> forall|i: int|
                    high <= i < keys.len() ==> key_before::<K>(query@, #[trigger] keys[i]),
            decreases high - low,
        {
            let mid: usize = low + (high - low) / 2;
            let c: i8 = key_order::<K>(self.key_bytes_at(mid), query);
            if c > 0 {
                proof {
                    assert forall|i: int|
                        keys_sorted::<K>(keys) && mid <= i < keys.len() implies key_before::<K>(
                        query@,
                        #[trigger] keys[i],
                    ) by {
                        if K::le(keys[i], query@) && i > mid {
                            K::le_transitive(keys[mid as int], keys[i], query@);
                        }
                    }
                }
                high = mid;
            } else {
                proof {
                    K::le_total(keys[mid as int], query@);
                    assert forall|i: int|
                        keys_sorted::<K>(keys) && 0 <= i < mid + 1 implies K::le(
                        #[trigger] keys[i],
                        query@,
                    ) by {
                        if i < mid {
                            K::le_transitive(keys[i], keys[mid as int], query@);
                        }
                    }
                }
                low = mid + 1;
            }
        }
        (low, self.child_page_at(low))
    }

    /// The child to descend into for `search_key`: the one before the first separator
    /// that is greater.
    pub fn find_child(&self, search_key: &K::SelfType<'_>) -> (r: (usize, PageId))
        requires
            self.wf(),
            K::width_fits(),
            K::encodable(K::model(*search_key)),
            forall|i: int|
                0 <= i < self.node().keys.len() ==> K::accepts(#[trigger] self.node().keys[i]),
        ensures
            r.0 < self.node().children.len(),
            r.1 == self.node().children[r.0 as int],
            keys_sorted::<K>(self.node().keys) ==> child_index::<K>(
                self.node().keys,
                K::encode(K::model(*search_key)),
                r.0 as int,
            ),
    {
        let search_bytes: Vec<u8> = K::as_bytes(search_key);
        proof {
            K::decode_of_encode(K::model(*search_key));
        }
        self.find_child_bytes(search_bytes.as_slice())
    }

    /// Bytes that neither the sections nor the high key take.
    pub fn free_bytes(&self) -> (n: usize)
        requires
            self.wf(),
        ensures
            n == PAGE_SIZE - int_used(self.node().keys) - int_hkl(self.data@),
    {
        proof {
            lemma_int_used(self.data@);
        }
        PAGE_SIZE - self.used_bytes() - self.high_key_len() as usize
    }

    /// Whether a key of `key_len` bytes and its child fit.
    pub fn can_fit(&self, key_len: usize) -> (b: bool)
        requires
            self.wf(),
            key_len + 12 <= usize::MAX,
        ensures
            b == int_fits(self.data@, key_len as int),
    {
        self.free_bytes() >= 8 + 4 + key_len
    }

    /// Whether more than half of the page is free.
    pub fn is_underfull(&self) -> (b: bool)
        requires
            self.wf(),
        ensures
            b == int_underfull(self.data@),
            b == ((PAGE_SIZE - int_used(self.node().keys) - int_hkl(self.data@)) * 2 > PAGE_SIZE),
    {
        proof {
            lemma_int_used(self.data@);
            lemma_ends(self.data@, int_count(self.data@));
        }
        self.free_bytes() * 2 > PAGE_SIZE
    }

    fn used_bytes(&self) -> (n: usize)
        requires
            self.wf(),
        ensures
            n == int_used(self.node().keys),
            n <= PAGE_SIZE,
    {
        proof {
            lemma_int_used(self.data@);
            lemma_ends(self.data@, int_count(self.data@));
        }
        let n: usize = self.num_keys() as usize;
        let key_data_size: usize = if n == 0 {
            0
        } else {
            read_u32(self.data, INT_HEADER_SIZE + 8 * (n + 1) + 4 * (n - 1)) as usize
        };
        INT_HEADER_SIZE + (n + 1) * 8 + n * 4 + key_data_size
    }
}

/// A mutable typed view of an internal page.
pub struct InternalPageMutator<'a, K: Key> {
    pub data: &'a mut [u8],
    pub _key: PhantomData<K>,
}

impl<'a, K: Key> InternalPageMutator<'a, K> {
    /// The page's bytes.
    pub open spec fn page(&self) -> Seq<u8> {
        self.data@
    }

    /// What the page holds.
    pub open spec fn node(&self) -> InternalView {
        int_view(self.data@)
    }

    /// The page is laid out as an internal page.
    pub open spec fn wf(&self) -> bool {
        int_wf(self.data@)
    }

    /// Bytes that neither the sections nor the high key take.
    pub open spec fn room(&self) -> int {
        PAGE_SIZE - int_used(self.node().keys) - int_hkl(self.page())
    }

    /// Wraps the bytes of an internal page.
    pub fn new(data: &'a mut [u8]) -> (m: Self)
        requires
            old(data).len() == PAGE_SIZE,
            old(data)@[0] == INTERNAL,
        ensures
            m.data@ == old(data)@,
            final(m.data)@ == final(data)@,
    {
        InternalPageMutator { data, _key: PhantomData }
    }

    pub fn set_lsn(&mut self, lsn: Lsn)
        requires
            old(self).wf(),
        ensures
            final(self).wf(),
            final(self).page() == with_lsn(old(self).page(), lsn),
            final(self).node() == (InternalView { lsn, ..old(self).node() }),
            final(final(self).data)@ == final(old(self).data)@,
    {
        proof {
            lemma_int_header_u64(self.data@, 16, lsn);
        }
        write_u64(self.data, OFF_LSN, lsn);
    }

    pub fn set_rightlink(&mut self, right: Option<PageId>)
        requires
            old(self).wf(),
        ensures
            final(self).wf(),
            final(self).node() == (InternalView {
                right: link(right.unwrap_or(0)),
                ..old(self).node()
            }),
            final(final(self).data)@ == final(old(self).data)@,
    {
        let v: u64 = right.unwrap_or(0);
        proof {
            lemma_int_header_u64(self.data@, 24, v);
        }
        write_u64(self.data, OFF_INT_RIGHTLINK, v);
    }

    /// Writes the high key; an empty one makes the page the rightmost of its level.
    pub fn set_high_key(&mut self, key_bytes: &[u8])
        requires
            old(self).wf(),
            int_used(old(self).node().keys) + key_bytes@.len() <= PAGE_SIZE,
        ensures
            final(self).wf(),
            final(self).node() == (InternalView {
                high: if key_bytes@.len() == 0 {
                    None
                } else {
                    Some(key_bytes@)
                },
                ..old(self).node()
            }),
            int_hkl(final(self).page()) == key_bytes@.len(),
            final(final(self).data)@ == final(old(self).data)@,
    {
        write_int_high_key(self.data, key_bytes);
    }

    /// Replaces the child `i`.
    pub fn set_child_at(&mut self, i: usize, page_id: PageId)
        requires
            old(self).wf(),
            i < old(self).node().children.len(),
        ensures
            final(self).wf(),
            final(self).node() == (InternalView {
                children: old(self).node().children.update(i as int, page_id),
                ..old(self).node()
            }),
            final(final(self).data)@ == final(old(self).data)@,
    {
        proof {
            lemma_ends(self.data@, int_count(self.data@));
        }
        let (children, keys) = self.snapshot();
        let mut children = children;
        proof {
            lemma_int_used(self.data@);
        }
        children.set(i, page_id);
        rewrite(self.data, &children, &keys);
    }

    /// A read-only view of the page.
    pub fn as_accessor(&self) -> (acc: InternalPageAccessor<'_, K>)
        requires
            self.wf(),
        ensures
            acc.data@ == self.page(),
    {
        InternalPageAccessor::new(self.data)
    }

    /// Inserts an encoded separator at `index` and the child that follows it. Refuses
    /// it, and changes nothing, where the page is too full.
    pub fn insert_bytes(&mut self, index: usize, key_bytes: &[u8], right_child: PageId) -> (r:
        Result<(), PageError>)
        requires
            old(self).wf(),
            index <= old(self).node().keys.len(),
            key_bytes@.len() + 12 <= usize::MAX,
        ensures
            final(self).wf(),
            r is Ok == int_fits(old(self).page(), key_bytes@.len() as int),
            old(self).room() < 12 + key_bytes@.len() ==> {
                &&& r == Err::<(), PageError>(
                    PageError::InsufficientSpace {
                        needed: (12 + key_bytes@.len()) as usize,
                        available: old(self).room() as usize,
                    },
                )
                &&& final(self).page() == old(self).page()
            },
            old(self).room() >= 12 + key_bytes@.len() ==> {
                &&& r is Ok
                &&& final(self).node() == (InternalView {
                    keys: old(self).node().keys.insert(index as int, key_bytes@),
                    children: old(self).node().children.insert(index + 1, right_child),
                    ..old(self).node()
                })
            },
            final(final(self).data)@ == final(old(self).data)@,
    {
        if !self.as_accessor().can_fit(key_bytes.len()) {
            return Err(
                PageError::InsufficientSpace {
                    needed: 8 + 4 + key_bytes.len(),
                    available: self.as_accessor().free_bytes(),
                },
            );
        }
        let (children, keys) = self.snapshot();
        let mut children = children;
        let mut keys = keys;
        let ghost kv = key_views(keys@);
        children.insert(index + 1, right_child);
        keys.insert(index, vstd::slice::slice_to_vec(key_bytes));
        proof {
            lemma_int_used(self.data@);
            lemma_key_total_insert(kv, index as int, key_bytes@, kv.len() as int);
            assert(key_views(keys@) =~= kv.insert(index as int, key_bytes@));
        }
        rewrite(self.data, &children, &keys);
        Ok(())
    }

    /// Inserts a separator at `index` and the child that follows it. Refuses it, and
    /// changes nothing, where the page is too full.
    pub fn insert_key_and_right_child(
        &mut self,
        index: usize,
        key: &K::SelfType<'_>,
        right_child: PageId,
    ) -> (r: Result<(), PageError>)
        requires
            old(self).wf(),
            index <= old(self).node().keys.len(),
            K::width_fits(),
            K::encodable(K::model(*key)),
            K::encode(K::model(*key)).len() + 12 <= usize::MAX,
        ensures
            final(self).wf(),
            r is Ok == int_fits(old(self).page(), K::encode(K::model(*key)).len() as int),
            ({
                let k = K::encode(K::model(*key));
                if old(self).room() < 12 + k.len() {
                    &&& r == Err::<(), PageError>(
                        PageError::InsufficientSpace {
                            needed: (12 + k.len()) as usize,
                            available: old(self).room() as usize,
                        },
                    )
                    &&& final(self).page() == old(self).page()
                } else {
                    &&& r is Ok
                    &&& final(self).node() == (InternalView {
                        keys: old(self).node().keys.insert(index as int, k),
                        children: old(self).node().children.insert(index + 1, right_child),
                        ..old(self).node()
                    })
                }
            }),
            final(final(self).data)@ == final(old(self).data)@,
    {
        let key_bytes: Vec<u8> = K::as_bytes(key);
        self.insert_bytes(index, key_bytes.as_slice(), right_child)
    }

    /// Removes the separator `index` and one of the children beside it.
    pub fn remove_key_at(&mut self, index: usize, keep: ChildSide)
        requires
            old(self).wf(),
            index < old(self).node().keys.len(),
        ensures
            final(self).wf(),
            final(self).node() == (InternalView {
                keys: old(self).node().keys.remove(index as int),
                children: old(self).node().children.remove(
                    match keep {
                        ChildSide::Left => index + 1,
                        ChildSide::Right => index as int,
                    },
                ),
                ..old(self).node()
            }),
            final(final(self).data)@ == final(old(self).data)@,
    {
        let (children, keys) = self.snapshot();
        let mut children = children;
        let mut keys = keys;
        let ghost kv = key_views(keys@);
        keys.remove(index);
        match keep {
            ChildSide::Left => {
                children.remove(index + 1);
            },
            ChildSide::Right => {
                children.remove(index);
            },
        }
        proof {
            lemma_int_used(self.data@);
            lemma_key_total_remove(kv, index as int);
            assert(key_views(keys@) =~= kv.remove(index as int));
        }
        rewrite(self.data, &children, &keys);
    }

    /// Replaces the separator `index`. The page must have room for the new one.
    pub fn update_separator_at(&mut self, index: usize, new_key: &K::SelfType<'_>)
        requires
            old(self).wf(),
            index < old(self).node().keys.len(),
            K::width_fits(),
            K::encodable(K::model(*new_key)),
            K::encode(K::model(*new_key)).len() <= old(self).room() + old(
                self,
            ).node().keys[index as int].len(),
        ensures
            final(self).wf(),
            final(self).node() == (InternalView {
                keys: old(self).node().keys.update(index as int, K::encode(K::model(*new_key))),
                ..old(self).node()
            }),
            final(final(self).data)@ == final(old(self).data)@,
    {
        let (children, keys) = self.snapshot();
        let mut keys = keys;
        let ghost kv = key_views(keys@);
        let key_bytes: Vec<u8> = K::as_bytes(new_key);
        let ghost nk = key_bytes@;
        keys.set(index, key_bytes);
        proof {
            let rest = kv.remove(index as int);
            lemma_int_used(self.data@);
            lemma_key_total_remove(kv, index as int);
            lemma_key_total_insert(rest, index as int, nk, rest.len() as int);
            assert(rest.insert(index as int, nk) =~= kv.update(index as int, nk));
            assert(key_views(keys@) =~= kv.update(index as int, nk));
        }
        rewrite(self.data, &children, &keys);
    }

    /// Inserts a separator and a child before all others. The page must have room.
    pub fn prepend_separator(&mut self, new_key: &K::SelfType<'_>, new_leftmost_child: PageId)
        requires
            old(self).wf(),
            K::width_fits(),
            K::encodable(K::model(*new_key)),
            12 + K::encode(K::model(*new_key)).len() <= old(self).room(),
        ensures
            final(self).wf(),
            final(self).node() == (InternalView {
                keys: old(self).node().keys.insert(0, K::encode(K::model(*new_key))),
                children: old(self).node().children.insert(0, new_leftmost_child),
                ..old(self).node()
            }),
            final(final(self).data)@ == final(old(self).data)@,
    {
        let (children, keys) = self.snapshot();
        let mut children = children;
        let mut keys = keys;
        let ghost kv = key_views(keys@);
        let key_bytes: Vec<u8> = K::as_bytes(new_key);
        let ghost nk = key_bytes@;
        children.insert(0, new_leftmost_child);
        keys.insert(0, key_bytes);
        proof {
            lemma_int_used(self.data@);
            lemma_key_total_insert(kv, 0, nk, kv.len() as int);
            assert(key_views(keys@) =~= kv.insert(0, nk));
        }
        rewrite(self.data, &children, &keys);
    }

    /// Keeps the first `num_keys` separators and the children around them. Does nothing
    /// where there are no more than that.
    pub fn truncate_to(&mut self, num_keys: usize)
        requires
            old(self).wf(),
        ensures
            final(self).wf(),
            num_keys >= old(self).node().keys.len() ==> final(self).page() == old(self).page(),
            num_keys < old(self).node().keys.len() ==> final(self).node() == (InternalView {
                keys: old(self).node().keys.take(num_keys as int),
                children: old(self).node().children.take(num_keys + 1),
                ..old(self).node()
            }),
            final(final(self).data)@ == final(old(self).data)@,
    {
        let n: usize = read_u16(self.data, OFF_INT_NUM_KEYS) as usize;
        if num_keys >= n {
            return;
        }
        let (children, keys) = self.snapshot();
        let mut children = children;
        let mut keys = keys;
        let ghost kv = key_views(keys@);
        children.truncate(num_keys + 1);
        keys.truncate(num_keys);
        proof {
            lemma_int_used(self.data@);
            lemma_key_total_mono(kv, num_keys as int, kv.len() as int);
            lemma_key_total_same(kv, kv.take(num_keys as int), num_keys as int);
            assert(key_views(keys@) =~= kv.take(num_keys as int));
        }
        rewrite(self.data, &children, &keys);
    }

    fn snapshot(&self) -> (r: (Vec<PageId>, Vec<Vec<u8>>))
        requires
            self.wf(),
        ensures
            r.0@ == self.node().children,
            key_views(r.1@) == self.node().keys,
    {
        let acc = self.as_accessor();
        let n: usize = acc.num_keys() as usize;
        let mut children: Vec<PageId> = Vec::new();
        let mut keys: Vec<Vec<u8>> = Vec::new();
        let mut i: usize = 0;
        while i <= n
            invariant
                acc.wf(),
                n == acc.node().keys.len(),
                n + 1 == acc.node().children.len(),
                i <= n + 1,
                n <= PAGE_SIZE,
                children@ == acc.node().children.take(i as int),
            decreases n + 1 - i,
        {
            children.push(acc.child_page_at(i));
            assert(acc.node().children.take(i + 1) =~= acc.node().children.take(i as int).push(
                acc.node().children[i as int],
            ));
            i = i + 1;
        }
        assert(acc.node().children.take(n + 1) =~= acc.node().children);
        let mut i: usize = 0;
        while i < n
            invariant
                acc.wf(),
                n == acc.node().keys.len(),
                i <= n,
                key_views(keys@) == acc.node().keys.take(i as int),
            decreases n - i,
        {
            let ghost before = keys@;
            keys.push(vstd::slice::slice_to_vec(acc.key_bytes_at(i)));
            assert(key_views(keys@) =~= key_views(before).push(acc.node().keys[i as int]));
            assert(acc.node().keys.take(i + 1) =~= acc.node().keys.take(i as int).push(
                acc.node().keys[i as int],
            ));
            i = i + 1;
        }
        assert(acc.node().keys.take(n as int) =~= acc.node().keys);
        (children, keys)
    }
}

/// Writes the high key of an internal page.
fn write_int_high_key(data: &mut [u8], key_bytes: &[u8])
    requires
        int_wf(old(data)@),
        int_used(int_view(old(data)@).keys) + key_bytes@.len() <= PAGE_SIZE,
    ensures
        int_wf(final(data)@),
        int_view(final(data)@) == (InternalView {
            high: if key_bytes@.len() == 0 {
                None
            } else {
                Some(key_bytes@)
            },
            ..int_view(old(data)@)
        }),
        int_hkl(final(data)@) == key_bytes@.len(),
{
    let ghost s = data@;
    let len: usize = key_bytes.len();
    proof {
        lemma_int_used(s);
        lemma_ends(s, int_count(s));
    }
    write_u16(data, OFF_INT_HIGH_KEY_LEN, len as u16);
    let ghost a = data@;
    write_bytes(data, PAGE_SIZE - len, key_bytes);
    proof {
        let t = data@;
        let n = int_count(s);
        lemma_put_u16(s, 4, len as u16);
        lemma_same_u16(a, t, 4);
        assert(same(s, t, 0, 4));
        assert(same(s, t, 6, PAGE_SIZE - len));
        lemma_same_u16(s, t, 2);
        lemma_same_u64(s, t, 8);
        lemma_same_u64(s, t, 16);
        lemma_same_u64(s, t, 24);
        assert forall|i: int| 0 <= i < n implies #[trigger] end_at(t, n, i) == end_at(s, n, i) by {
            lemma_same_u32(s, t, 48 + 8 * n + 4 * i);
        }
        assert forall|i: int| 0 <= i <= n implies #[trigger] start_at(t, n, i) == start_at(
            s,
            n,
            i,
        ) by {
            if i > 0 {
                assert(end_at(t, n, i - 1) == end_at(s, n, i - 1));
            }
        }
        assert forall|i: int| 0 <= i < n implies start_at(t, n, i) <= #[trigger] end_at(t, n, i) by {
            assert(start_at(s, n, i) <= end_at(s, n, i));
            assert(start_at(t, n, i) == start_at(s, n, i));
        }
        assert(start_at(t, n, n) == start_at(s, n, n));
        assert forall|i: int| 0 <= i <= n implies #[trigger] child_at(t, i) == child_at(s, i) by {
            lemma_same_u64(s, t, 40 + 8 * i);
        }
        assert(int_view(t).children =~= int_view(s).children);
        assert forall|i: int| 0 <= i < n implies #[trigger] int_key(t, i) == int_key(s, i) by {
            lemma_ends(s, i);
            assert(start_at(t, n, i) == start_at(s, n, i));
            assert(end_at(t, n, i) == end_at(s, n, i));
            assert(int_key(t, i) =~= int_key(s, i));
        }
        assert(int_view(t).keys =~= int_view(s).keys);
        assert(t.subrange(PAGE_SIZE - len, PAGE_SIZE as int) =~= key_bytes@);
    }
}

/// Builds a fresh internal page.
pub struct InternalPageBuilder<'a, K: Key> {
    pub data: &'a mut [u8],
    pub keys: Vec<Vec<u8>>,
    pub children: Vec<PageId>,
    pub _key: PhantomData<K>,
}

impl<'a, K: Key> InternalPageBuilder<'a, K> {
    /// The page's bytes.
    pub open spec fn page(&self) -> Seq<u8> {
        self.data@
    }

    /// The page that `finish` would make.
    pub open spec fn node(&self) -> InternalView {
        InternalView {
            children: self.children@,
            keys: key_views(self.keys@),
            ..int_view(self.data@)
        }
    }

    /// The header is that of an internal page without keys, and every key has its
    /// child.
    pub open spec fn wf(&self) -> bool {
        &&& int_wf(self.data@)
        &&& int_count(self.data@) == 0
        &&& if self.keys@.len() == 0 {
            self.children@.len() <= 1
        } else {
            self.children@.len() == self.keys@.len() + 1
        }
    }

    /// Makes the page an internal page without keys and children.
    pub fn new(page_id: PageId, data: &'a mut [u8]) -> (b: Self)
        requires
            old(data).len() == PAGE_SIZE,
        ensures
            b.wf(),
            b.node() == (InternalView {
                id: page_id,
                lsn: 0,
                flags: 0,
                right: None,
                high: None,
                children: Seq::empty(),
                keys: Seq::empty(),
            }),
            final(b.data)@ == final(data)@,
    {
        zero_bytes(data, 0, PAGE_SIZE);
        let ghost s0 = data@;
        write_u8(data, OFF_PAGE_TYPE, INTERNAL);
        let ghost s1 = data@;
        write_u64(data, OFF_PAGE_ID, page_id);
        proof {
            let t = data@;
            lemma_put_u64(s1, 8, page_id);
            reveal(u16_at);
            reveal(u32_at);
            reveal(u64_at);
            assert(u16_at(t, 2) == 0);
            assert(u16_at(t, 4) == 0);
            assert(u64_at(t, 16) == 0);
            assert(u64_at(t, 24) == 0);
        }
        let b = InternalPageBuilder {
            data,
            keys: Vec::new(),
            children: Vec::new(),
            _key: PhantomData,
        };
        assert(b.node().keys =~= Seq::<Seq<u8>>::empty());
        b
    }

    /// Adds the leftmost child, once and before any key.
    pub fn push_first_child(&mut self, child: PageId)
        requires
            old(self).wf(),
            old(self).children@.len() == 0,
        ensures
            final(self).wf(),
            final(self).node() == (InternalView {
                children: seq![child],
                ..old(self).node()
            }),
            final(final(self).data)@ == final(old(self).data)@,
    {
        self.children.push(child);
        assert(self.children@ =~= seq![child]);
    }

    /// Appends an encoded separator and the child that follows it.
    pub fn push_bytes(&mut self, key_bytes: &[u8], right_child: PageId)
        requires
            old(self).wf(),
            old(self).children@.len() > 0,
        ensures
            final(self).wf(),
            final(self).node() == (InternalView {
                keys: old(self).node().keys.push(key_bytes@),
                children: old(self).node().children.push(right_child),
                ..old(self).node()
            }),
            final(self).children@.len() > 0,
            final(final(self).data)@ == final(old(self).data)@,
    {
        let ghost before = self.keys@;
        self.keys.push(vstd::slice::slice_to_vec(key_bytes));
        self.children.push(right_child);
        assert(key_views(self.keys@) =~= key_views(before).push(key_bytes@));
    }

    /// Appends the separators `lo..hi` and the child that follows each.
    pub fn push_range(&mut self, keys: &Vec<Vec<u8>>, children: &Vec<PageId>, lo: usize, hi: usize)
        requires
            old(self).wf(),
            old(self).children@.len() > 0,
            lo <= hi <= keys@.len(),
            children@.len() == keys@.len() + 1,
        ensures
            final(self).wf(),
            final(self).node() == (InternalView {
                keys: old(self).node().keys + key_views(keys@).subrange(lo as int, hi as int),
                children: old(self).node().children + children@.subrange(lo + 1, hi + 1),
                ..old(self).node()
            }),
            final(self).children@.len() > 0,
            final(final(self).data)@ == final(old(self).data)@,
    {
        let ghost kv = key_views(keys@);
        let ghost start = self.node();
        let mut i: usize = lo;
        assert(start.keys + kv.subrange(lo as int, lo as int) =~= start.keys);
        assert(start.children + children@.subrange(lo + 1, lo + 1) =~= start.children);
        while i < hi
            invariant
                lo <= i <= hi <= keys@.len(),
                children@.len() == keys@.len() + 1,
                kv == key_views(keys@),
                self.wf(),
                self.children@.len() > 0,
                start == old(self).node(),
                self.node() == (InternalView {
                    keys: start.keys + kv.subrange(lo as int, i as int),
                    children: start.children + children@.subrange(lo + 1, i + 1),
                    ..start
                }),
                final(self.data)@ == final(old(self).data)@,
            decreases hi - i,
        {
            proof {
                assert((start.keys + kv.subrange(lo as int, i as int)).push(kv[i as int])
                    =~= start.keys + kv.subrange(lo as int, i + 1));
                assert((start.children + children@.subrange(lo + 1, i + 1)).push(children@[i + 1])
                    =~= start.children + children@.subrange(lo + 1, i + 2));
            }
            self.push_bytes(keys[i].as_slice(), children[i + 1]);
            i = i + 1;
        }
    }

    /// Appends a separator and the child that follows it.
    pub fn push_key_and_right_child(&mut self, key: &K::SelfType<'_>, right_child: PageId)
        requires
            old(self).wf(),
            old(self).children@.len() > 0,
            K::width_fits(),
            K::encodable(K::model(*key)),
        ensures
            final(self).wf(),
            final(self).node() == (InternalView {
                keys: old(self).node().keys.push(K::encode(K::model(*key))),
                children: old(self).node().children.push(right_child),
                ..old(self).node()
            }),
            final(self).children@.len() > 0,
            final(final(self).data)@ == final(old(self).data)@,
    {
        let key_bytes: Vec<u8> = K::as_bytes(key);
        self.push_bytes(key_bytes.as_slice(), right_child);
    }

    pub fn set_rightlink(&mut self, right: Option<PageId>)
        requires
            old(self).wf(),
        ensures
            final(self).wf(),
            final(self).node() == (InternalView {
                right: link(right.unwrap_or(0)),
                ..old(self).node()
            }),
            final(self).children@ == old(self).children@,
            final(final(self).data)@ == final(old(self).data)@,
    {
        let v: u64 = right.unwrap_or(0);
        proof {
            lemma_int_header_u64(self.data@, 24, v);
            lemma_same_u16(self.data@, put(self.data@, 24, u64_bytes(v)), 2);
        }
        write_u64(self.data, OFF_INT_RIGHTLINK, v);
    }

    /// Sets the high key; an empty one makes the page the rightmost of its level.
    pub fn set_high_key(&mut self, key_bytes: &[u8])
        requires
            old(self).wf(),
            48 + key_bytes@.len() <= PAGE_SIZE,
        ensures
            final(self).wf(),
            final(self).node() == (InternalView {
                high: if key_bytes@.len() == 0 {
                    None
                } else {
                    Some(key_bytes@)
                },
                ..old(self).node()
            }),
            final(self).children@ == old(self).children@,
            final(final(self).data)@ == final(old(self).data)@,
    {
        proof {
            assert(int_view(self.data@).keys.len() == 0);
        }
        write_int_high_key(self.data, key_bytes);
        proof {
            assert(int_view(self.data@).keys.len() == 0);
        }
    }

    /// Writes the page. Keys and high key must fit.
    pub fn finish(self) -> (m: InternalPageMutator<'a, K>)
        requires
            self.wf(),
            self.children@.len() > 0,
            int_used(self.node().keys) + (match self.node().high {
                Some(h) => h.len(),
                None => 0,
            }) <= PAGE_SIZE,
        ensures
            m.wf(),
            m.node() == self.node(),
            final(m.data)@ == final(self.data)@,
    {
        let data = self.data;
        rewrite(data, &self.children, &self.keys);
        InternalPageMutator::new(data)
    }
}

} // verus!
