//! Whether the bytes of a page are laid out as those of a leaf or of an internal page.

use crate::bytes::{read_u16, read_u32, read_u8};
use crate::page::internal::{end_at, int_count, int_wf, start_at};
use crate::page::leaf::{
    leaf_count, leaf_free_end, leaf_free_start, leaf_hkl, leaf_rows, leaf_wf, rec_len, rec_off,
    record_at, row_bytes, rows_bytes, slot_at, slot_ok, slots_apart, Version,
};
use crate::page::{INTERNAL, LEAF, OFF_PAGE_TYPE, PAGE_SIZE};
use vstd::prelude::*;

verus! {

/// Whether the record of a slot lies where it may.
fn slot_fits(page: &[u8], slot: usize, free_end: usize, i: Ghost<int>) -> (r: Option<(usize, usize)>)
    requires
        page.len() == PAGE_SIZE,
        slot == slot_at(leaf_hkl(page@), i@),
        slot + 4 <= PAGE_SIZE,
        free_end == leaf_free_end(page@),
    ensures
        match r {
            Some((off, len)) => {
                &&& slot_ok(page@, i@)
                &&& off == rec_off(page@, i@)
                &&& len == rec_len(page@, i@)
                &&& len == row_bytes(record_at(page@, off as int))
            },
            None => !slot_ok(page@, i@),
        },
{
    let off: usize = read_u16(page, slot) as usize;
    let len: usize = read_u16(page, slot + 2) as usize;
    if off < free_end || off + len > PAGE_SIZE || len < 24 {
        return None;
    }
    let klen: usize = read_u16(page, off) as usize;
    let vlen: usize = read_u16(page, off + 2) as usize;
    if len != 24 + klen + klen % 2 + vlen + vlen % 2 {
        return None;
    }
    Some((off, len))
}

/// Whether the page is laid out as a leaf.
pub fn is_leaf(page: &[u8]) -> (b: bool)
    requires
        page.len() == PAGE_SIZE,
    ensures
        b == leaf_wf(page@),
{
    if read_u8(page, OFF_PAGE_TYPE) != LEAF {
        return false;
    }
    let n: usize = read_u16(page, 2) as usize;
    let free_start: usize = read_u16(page, 4) as usize;
    let free_end: usize = read_u16(page, 6) as usize;
    let hkl: usize = read_u16(page, 40) as usize;
    let base: usize = 48 + hkl + hkl % 2;
    if free_start != base + 4 * n || free_start > free_end || free_end > PAGE_SIZE {
        return false;
    }
    let ghost s = page@;
    let mut total: usize = 0;
    let mut i: usize = 0;
    proof {
        assert(leaf_rows(s).take(0) =~= Seq::<Version>::empty());
    }
    while i < n
        invariant
            page.len() == PAGE_SIZE,
            s == page@,
            s[0] == LEAF,
            n == leaf_count(s),
            free_end == leaf_free_end(s),
            hkl == leaf_hkl(s),
            base == 48 + hkl + hkl % 2,
            base + 4 * n == leaf_free_start(s),
            leaf_free_start(s) <= free_end <= PAGE_SIZE,
            i <= n,
            total == rows_bytes(leaf_rows(s).take(i as int)),
            total <= i * PAGE_SIZE,
            n <= PAGE_SIZE,
            forall|k: int| 0 <= k < i ==> #[trigger] slot_ok(s, k),
            forall|k: int, j: int| 0 <= k < j < i ==> #[trigger] slots_apart(s, k, j),
        decreases n - i,
    {
        let (off, len) = match slot_fits(page, base + 4 * i, free_end, Ghost(i as int)) {
            Some(x) => x,
            None => {
                return false;
            },
        };
        let mut j: usize = 0;
        while j < i
            invariant
                page.len() == PAGE_SIZE,
                s == page@,
                hkl == leaf_hkl(s),
                base == 48 + hkl + hkl % 2,
                base + 4 * n == leaf_free_start(s),
                leaf_free_start(s) <= PAGE_SIZE,
                n == leaf_count(s),
                j <= i < n,
                off == rec_off(s, i as int),
                len == rec_len(s, i as int),
                forall|k: int| 0 <= k < j ==> #[trigger] slots_apart(s, k, i as int),
            decreases i - j,
        {
            let off2: usize = read_u16(page, base + 4 * j) as usize;
            let len2: usize = read_u16(page, base + 4 * j + 2) as usize;
            assert(off2 == rec_off(s, j as int) && len2 == rec_len(s, j as int));
            if off2 + len2 > off && off + len > off2 {
                assert(!slots_apart(s, j as int, i as int));
                return false;
            }
            j = j + 1;
        }
        proof {
            let rows = leaf_rows(s);
            assert(rows.take(i + 1).drop_last() =~= rows.take(i as int));
            assert(rows.take(i + 1).last() == record_at(s, off as int));
            assert((i + 1) * PAGE_SIZE == i * PAGE_SIZE + PAGE_SIZE) by (nonlinear_arith);
            assert(i * PAGE_SIZE <= 0x10000000) by (nonlinear_arith)
                requires
                    i <= PAGE_SIZE,
            ;
        }
        total = total + len;
        i = i + 1;
    }
    assert(leaf_rows(s).take(n as int) =~= leaf_rows(s));
    total <= PAGE_SIZE - free_end
}

/// Whether the page is laid out as an internal page.
pub fn is_internal(page: &[u8]) -> (b: bool)
    requires
        page.len() == PAGE_SIZE,
    ensures
        b == int_wf(page@),
{
    if read_u8(page, OFF_PAGE_TYPE) != INTERNAL {
        return false;
    }
    let n: usize = read_u16(page, 2) as usize;
    let hkl: usize = read_u16(page, 4) as usize;
    let ghost s = page@;
    if 48 + 12 * n > PAGE_SIZE {
        return false;
    }
    let mut last: usize = 0;
    let mut i: usize = 0;
    while i < n
        invariant
            page.len() == PAGE_SIZE,
            s == page@,
            n == int_count(s),
            48 + 12 * n <= PAGE_SIZE,
            i <= n,
            last == start_at(s, n as int, i as int),
            forall|k: int|
                0 <= k < i ==> start_at(s, int_count(s), k) <= #[trigger] end_at(
                    s,
                    int_count(s),
                    k,
                ),
        decreases n - i,
    {
        let end: usize = read_u32(page, 48 + 8 * n + 4 * i) as usize;
        assert(end == end_at(s, n as int, i as int));
        if end < last {
            return false;
        }
        last = end;
        i = i + 1;
    }
    last <= PAGE_SIZE && 48 + 12 * n + last + hkl <= PAGE_SIZE
}

} // verus!
