//! What all page types share: the header fields, the checksum and the buffer.

pub mod answers;
pub mod internal;
pub mod leaf;
pub mod meta;

use crate::bytes::{
    lemma_same_u64, put, read_u32, read_u64, read_u8, u32_at, u32_bytes, u64_at, u64_bytes,
    write_u32, write_u64, write_u8,
};
use crate::crc::{crc32, crc32_of, law_changed_byte_changes_checksum};
use vstd::prelude::*;

verus! {

broadcast use crate::bytes::group_int_bytes;

pub type PageId = u64;

pub type Lsn = u64;

/// Marker byte at offset 0 of a leaf page.
pub const LEAF: u8 = 1;

/// Marker byte at offset 0 of an internal page.
pub const INTERNAL: u8 = 2;

/// Marker byte at offset 0 of the metadata page.
pub const META: u8 = 3;

/// Size of a page in bytes.
pub const PAGE_SIZE: usize = 4096;

pub const OFF_PAGE_TYPE: usize = 0;

pub const OFF_FLAGS: usize = 1;

pub const OFF_PAGE_ID: usize = 8;

pub const OFF_LSN: usize = 16;

/// The page was split and its parent has no downlink to the new page yet.
pub const FLAG_INCOMPLETE_SPLIT: u8 = 1;

/// The leaf is logically deleted; a search that reaches it follows its rightlink.
pub const FLAG_HALF_DEAD: u8 = 2;

/// Length of the checksum field.
pub const CHECKSUM_LEN: usize = 4;

/// Offset of the checksum in a leaf page.
pub const OFF_LEAF_CHECKSUM: usize = 44;

/// Offset of the checksum in an internal page: the last word of its header.
pub const OFF_INT_CHECKSUM: usize = 32;

/// Offset of the checksum in the metadata page.
pub const OFF_META_CHECKSUM: usize = 56;

/// The incomplete-split flag is set.
pub open spec fn split_incomplete(page: Seq<u8>) -> bool {
    page[1] & FLAG_INCOMPLETE_SPLIT != 0
}

/// The half-dead flag is set.
pub open spec fn half_dead(page: Seq<u8>) -> bool {
    page[1] & FLAG_HALF_DEAD != 0
}

/// The page with its flags byte replaced.
pub open spec fn with_flags(page: Seq<u8>, flags: u8) -> Seq<u8> {
    put(page, 1, seq![flags])
}

/// The page with its log sequence number replaced.
pub open spec fn with_lsn(page: Seq<u8>, lsn: u64) -> Seq<u8> {
    put(page, 16, u64_bytes(lsn))
}

/// Setting a flag sets it, clearing a flag clears it, and neither touches the other.
pub proof fn law_flags(f: u8)
    ensures
        (f | FLAG_INCOMPLETE_SPLIT) & FLAG_INCOMPLETE_SPLIT != 0,
        (f | FLAG_INCOMPLETE_SPLIT) & FLAG_HALF_DEAD == f & FLAG_HALF_DEAD,
        (f & !FLAG_INCOMPLETE_SPLIT) & FLAG_INCOMPLETE_SPLIT == 0,
        (f & !FLAG_INCOMPLETE_SPLIT) & FLAG_HALF_DEAD == f & FLAG_HALF_DEAD,
        (f | FLAG_HALF_DEAD) & FLAG_HALF_DEAD != 0,
        (f | FLAG_HALF_DEAD) & FLAG_INCOMPLETE_SPLIT == f & FLAG_INCOMPLETE_SPLIT,
        (f & !FLAG_HALF_DEAD) & FLAG_HALF_DEAD == 0,
        (f & !FLAG_HALF_DEAD) & FLAG_INCOMPLETE_SPLIT == f & FLAG_INCOMPLETE_SPLIT,
{
    assert((f | 1) & 1 != 0 && (f | 1) & 2 == f & 2 && (f & !1u8) & 1 == 0 && (f & !1u8) & 2 == f
        & 2 && (f | 2) & 2 != 0 && (f | 2) & 1 == f & 1 && (f & !2u8) & 2 == 0 && (f & !2u8) & 1
        == f & 1) by (bit_vector);
}

/// Writes the page's log sequence number.
pub fn set_lsn(page: &mut [u8], lsn: u64)
    requires
        old(page).len() >= 24,
    ensures
        final(page)@ == with_lsn(old(page)@, lsn),
{
    write_u64(page, OFF_LSN, lsn);
}

/// Whether the page awaits the downlink of its right half.
pub fn is_incomplete_split(page: &[u8]) -> (b: bool)
    requires
        page.len() >= 2,
    ensures
        b == split_incomplete(page@),
{
    read_u8(page, OFF_FLAGS) & FLAG_INCOMPLETE_SPLIT != 0
}

/// Whether the leaf awaits its physical unlinking.
pub fn is_half_dead(page: &[u8]) -> (b: bool)
    requires
        page.len() >= 2,
    ensures
        b == half_dead(page@),
{
    read_u8(page, OFF_FLAGS) & FLAG_HALF_DEAD != 0
}

/// Marks the page as split without a downlink to its right half.
pub fn set_incomplete_split(page: &mut [u8])
    requires
        old(page).len() >= 2,
    ensures
        final(page)@ == with_flags(old(page)@, old(page)@[1] | FLAG_INCOMPLETE_SPLIT),
        split_incomplete(final(page)@),
        half_dead(final(page)@) == half_dead(old(page)@),
{
    let f: u8 = read_u8(page, OFF_FLAGS);
    proof {
        law_flags(f);
    }
    write_u8(page, OFF_FLAGS, f | FLAG_INCOMPLETE_SPLIT);
}

/// Marks an empty leaf as no destination of a search.
pub fn set_half_dead(page: &mut [u8])
    requires
        old(page).len() >= 2,
    ensures
        final(page)@ == with_flags(old(page)@, old(page)@[1] | FLAG_HALF_DEAD),
        half_dead(final(page)@),
        split_incomplete(final(page)@) == split_incomplete(old(page)@),
{
    let f: u8 = read_u8(page, OFF_FLAGS);
    proof {
        law_flags(f);
    }
    write_u8(page, OFF_FLAGS, f | FLAG_HALF_DEAD);
}

/// Marks the page's split as complete.
pub fn clear_incomplete_split(page: &mut [u8])
    requires
        old(page).len() >= 2,
    ensures
        final(page)@ == with_flags(old(page)@, old(page)@[1] & !FLAG_INCOMPLETE_SPLIT),
        !split_incomplete(final(page)@),
        half_dead(final(page)@) == half_dead(old(page)@),
{
    let f: u8 = read_u8(page, OFF_FLAGS);
    proof {
        law_flags(f);
    }
    write_u8(page, OFF_FLAGS, f & !FLAG_INCOMPLETE_SPLIT);
}

/// Takes the half-dead mark back.
pub fn clear_half_dead(page: &mut [u8])
    requires
        old(page).len() >= 2,
    ensures
        final(page)@ == with_flags(old(page)@, old(page)@[1] & !FLAG_HALF_DEAD),
        !half_dead(final(page)@),
        split_incomplete(final(page)@) == split_incomplete(old(page)@),
{
    let f: u8 = read_u8(page, OFF_FLAGS);
    proof {
        law_flags(f);
    }
    write_u8(page, OFF_FLAGS, f & !FLAG_HALF_DEAD);
}

/// The offset of the checksum in a page of the given type, or `None` for a type that
/// carries none.
pub open spec fn checksum_at(page_type: u8) -> Option<int> {
    if page_type == LEAF {
        Some(44int)
    } else if page_type == INTERNAL {
        Some(32int)
    } else if page_type == META {
        Some(56int)
    } else {
        None
    }
}

/// The page with the checksum field at `off` set to zero.
pub open spec fn unstamped(page: Seq<u8>, off: int) -> Seq<u8> {
    put(page, off, u32_bytes(0))
}

/// The page with `crc` in its checksum field, where it has one.
pub open spec fn stamped(page: Seq<u8>, crc: u32) -> Seq<u8> {
    match checksum_at(page[0]) {
        Some(off) => put(page, off, u32_bytes(crc)),
        None => page,
    }
}

/// The page as it is written to disk: its checksum is computed with the checksum
/// field taken as zero.
pub open spec fn sealed(page: Seq<u8>) -> Seq<u8> {
    match checksum_at(page[0]) {
        Some(off) => stamped(page, crc32_of(unstamped(page, off))),
        None => page,
    }
}

/// The page carries no checksum, or the one that it carries is that of its bytes.
pub open spec fn intact(page: Seq<u8>) -> bool {
    match checksum_at(page[0]) {
        Some(off) => u32_at(page, off) == crc32_of(unstamped(page, off)),
        None => true,
    }
}

/// A page that was sealed passes the check, whatever its checksum field held before.
pub proof fn law_sealed_is_intact(page: Seq<u8>)
    requires
        page.len() == PAGE_SIZE,
    ensures
        intact(sealed(page)),
        sealed(page).len() == PAGE_SIZE,
        sealed(page)[0] == page[0],
{
    match checksum_at(page[0]) {
        Some(off) => {
            let crc = crc32_of(unstamped(page, off));
            crate::bytes::lemma_put_u32(page, off, crc);
            assert(unstamped(stamped(page, crc), off) =~= unstamped(page, off));
        },
        None => {},
    }
}

/// A byte of a page that changes after the page was sealed is noticed, unless it is the one
/// that tells the page's type.
pub proof fn law_changed_byte_is_noticed(page: Seq<u8>, i: int, b: u8)
    requires
        page.len() == PAGE_SIZE,
        checksum_at(page[0]) is Some,
        intact(page),
        0 < i < PAGE_SIZE,
        page[i] != b,
    ensures
        !intact(page.update(i, b)),
{
    let off = checksum_at(page[0])->0;
    let changed = page.update(i, b);
    if off <= i < off + 4 {
        assert(unstamped(changed, off) =~= unstamped(page, off));
        crate::bytes::lemma_u32_spelled(page, off);
        crate::bytes::lemma_u32_spelled(changed, off);
        assert(page.subrange(off, off + 4)[i - off] == page[i]);
        assert(changed.subrange(off, off + 4)[i - off] == b);
    } else {
        let plain_page = unstamped(page, off);
        assert(unstamped(changed, off) =~= plain_page.update(i, b));
        assert(plain_page[i] == page[i]);
        law_changed_byte_changes_checksum(plain_page, i, b);
        crate::bytes::lemma_same_u32(page, changed, off);
    }
}

/// The page without its checksum. Writing a page to disk and reading it back leaves
/// this unchanged.
#[verifier::opaque]
pub open spec fn plain(page: Seq<u8>) -> Seq<u8> {
    stamped(page, 0)
}

/// Sealing a page changes only its checksum.
pub proof fn law_sealed_is_same_page(page: Seq<u8>)
    requires
        page.len() == PAGE_SIZE,
    ensures
        plain(sealed(page)) == plain(page),
        plain(page).len() == PAGE_SIZE,
        plain(plain(page)) == plain(page),
{
    reveal(plain);
    law_sealed_is_intact(page);
    match checksum_at(page[0]) {
        Some(off) => {
            let crc = crc32_of(unstamped(page, off));
            assert(stamped(stamped(page, crc), 0) =~= stamped(page, 0));
            assert(stamped(stamped(page, 0), 0) =~= stamped(page, 0));
        },
        None => {},
    }
}

/// A page is its plain form with some checksum.
pub proof fn lemma_plain(page: Seq<u8>)
    requires
        page.len() == PAGE_SIZE,
    ensures
        plain(page) == stamped(page, 0),
        plain(page).len() == PAGE_SIZE,
        plain(page)[0] == page[0],
        plain(page)[1] == page[1],
        u64_at(plain(page), 16) == u64_at(page, 16),
        exists|crc: u32| page == stamped(plain(page), crc),
{
    reveal(plain);
    match checksum_at(page[0]) {
        Some(off) => {
            let crc = u32_at(page, off);
            crate::bytes::lemma_u32_spelled(page, off);
            assert(stamped(plain(page), crc) =~= page);
            crate::bytes::lemma_same_u64(page, plain(page), 16);
        },
        None => {
            assert(page == stamped(plain(page), 0));
        },
    }
}

fn checksum_offset(page_type: u8) -> (off: Option<usize>)
    ensures
        off is Some <==> checksum_at(page_type) is Some,
        off matches Some(n) ==> n == checksum_at(page_type)->0 && n + 4 <= PAGE_SIZE,
{
    if page_type == LEAF {
        Some(OFF_LEAF_CHECKSUM)
    } else if page_type == INTERNAL {
        Some(OFF_INT_CHECKSUM)
    } else if page_type == META {
        Some(OFF_META_CHECKSUM)
    } else {
        None
    }
}

fn compute_checksum(page: &[u8], off: usize) -> (crc: u32)
    requires
        page.len() == PAGE_SIZE,
        off + 4 <= PAGE_SIZE,
    ensures
        crc == crc32_of(unstamped(page@, off as int)),
{
    let mut buf: Vec<u8> = vstd::slice::slice_to_vec(page);
    write_u32(buf.as_mut_slice(), off, 0);
    crc32(buf.as_slice())
}

/// Writes the given checksum into the page, where its type has a field for it.
pub fn store_checksum(page: &mut [u8], crc: u32)
    requires
        old(page).len() == PAGE_SIZE,
    ensures
        final(page)@ == stamped(old(page)@, crc),
{
    if let Some(off) = checksum_offset(read_u8(page, OFF_PAGE_TYPE)) {
        write_u32(page, off, crc);
    }
}

/// Holds the checksum that the page carries against the one computed of its bytes.
pub fn check_against(page: &[u8], actual: u32) -> (r: Result<(), (u32, u32)>)
    requires
        page.len() == PAGE_SIZE,
    ensures
        match checksum_at(page@[0]) {
            Some(off) => r == (if u32_at(page@, off) == actual {
                Ok::<(), (u32, u32)>(())
            } else {
                Err((u32_at(page@, off), actual))
            }),
            None => r == Ok::<(), (u32, u32)>(()),
        },
{
    if let Some(off) = checksum_offset(read_u8(page, OFF_PAGE_TYPE)) {
        let stored: u32 = read_u32(page, off);
        if stored != actual {
            return Err((stored, actual));
        }
    }
    Ok(())
}

/// Computes the page's checksum and writes it. Does nothing to a page whose type
/// carries no checksum.
pub fn stamp_checksum(page: &mut [u8])
    requires
        old(page).len() == PAGE_SIZE,
    ensures
        final(page)@ == sealed(old(page)@),
        intact(final(page)@),
{
    proof {
        law_sealed_is_intact(page@);
    }
    if let Some(off) = checksum_offset(read_u8(page, OFF_PAGE_TYPE)) {
        let crc: u32 = compute_checksum(page, off);
        store_checksum(page, crc);
    }
}

/// Checks a page against the checksum that it carries. The error holds the stored
/// checksum and the computed one.
pub fn verify_checksum(page: &[u8]) -> (r: Result<(), (u32, u32)>)
    requires
        page.len() == PAGE_SIZE,
    ensures
        r is Ok <==> intact(page@),
        r matches Err((stored, actual)) ==> checksum_at(page@[0]) is Some && stored == u32_at(
            page@,
            checksum_at(page@[0])->0,
        ) && actual == crc32_of(unstamped(page@, checksum_at(page@[0])->0)) && stored != actual,
{
    if let Some(off) = checksum_offset(read_u8(page, OFF_PAGE_TYPE)) {
        let actual: u32 = compute_checksum(page, off);
        return check_against(page, actual);
    }
    Ok(())
}

/// Which of the two children beside a removed separator stays.
#[derive(Debug, Clone, Copy, PartialEq, Eq, Structural)]
pub enum ChildSide {
    /// The child before the separator.
    Left,
    /// The child after the separator.
    Right,
}

/// A page-sized buffer on the heap.
pub struct PageBuffer {
    data: Vec<u8>,
}

impl View for PageBuffer {
    type V = Seq<u8>;

    closed spec fn view(&self) -> Seq<u8> {
        self.data@
    }
}

/// A page of zeros.
pub open spec fn zero_page() -> Seq<u8> {
    Seq::new(PAGE_SIZE as nat, |i: int| 0u8)
}

impl PageBuffer {
    /// A buffer of zeros.
    pub fn new() -> (b: Self)
        ensures
            b@ == zero_page(),
    {
        let b = PageBuffer { data: vec![0u8; PAGE_SIZE] };
        assert(b@ =~= zero_page());
        b
    }

    /// The bytes.
    pub fn memory(&self) -> (s: &[u8])
        ensures
            s@ == self@,
    {
        self.data.as_slice()
    }

    /// The bytes, for writing.
    pub fn memory_mut(&mut self) -> (s: &mut [u8])
        ensures
            s@ == old(self)@,
            final(self)@ == final(s)@,
    {
        self.data.as_mut_slice()
    }
}

impl Default for PageBuffer {
    fn default() -> (b: Self)
        ensures
            b@ == zero_page(),
    {
        Self::new()
    }
}

/// The page's log sequence number: 0 for a page that no record has touched.
pub fn page_lsn(data: &[u8]) -> (lsn: Lsn)
    requires
        data.len() >= 24,
    ensures
        lsn == u64_at(data@, 16),
{
    read_u64(data, OFF_LSN)
}

/// The log sequence number that was written is read back, and writing it changes no
/// other field.
pub proof fn law_lsn(page: Seq<u8>, lsn: u64)
    requires
        page.len() >= 24,
    ensures
        u64_at(with_lsn(page, lsn), 16) == lsn,
        u64_at(with_lsn(page, lsn), 8) == u64_at(page, 8),
        with_lsn(page, lsn)[0] == page[0],
        with_lsn(page, lsn)[1] == page[1],
{
    crate::bytes::lemma_put_u64(page, 16, lsn);
    lemma_same_u64(page, with_lsn(page, lsn), 8);
}

} // verus!
