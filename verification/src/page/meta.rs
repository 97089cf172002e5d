//! The metadata page: page 0 of the data file, which says where the root is.
//!
//! Offset 0 holds the page type, 4 the magic number, 8 the page id, 16 the log
//! sequence number, 24 the format version, 32 the root's page id, and 56 the
//! checksum. The words at 40 and 48 are reserved.

use crate::bytes::{
    put, read_u32, read_u64, read_u8, u32_at, u32_bytes, u64_at, u64_bytes, write_u32, write_u64,
    write_u8,
};
use crate::page::{with_lsn, PageId, META, OFF_LSN, OFF_PAGE_TYPE};
use vstd::prelude::*;

verus! {

broadcast use crate::bytes::group_int_bytes;

/// The bytes `FLUX` as a little-endian number.
pub const MAGIC: u32 = 0x5855_4c46;

/// The format version that this library reads and writes.
pub const FORMAT_VERSION: u32 = 1;

pub const OFF_MAGIC: usize = 4;

pub const OFF_VERSION: usize = 24;

pub const OFF_ROOT: usize = 32;

/// The page has the type, magic number and version of a metadata page.
pub open spec fn is_meta(page: Seq<u8>) -> bool {
    page[0] == META && u32_at(page, 4) == MAGIC && u32_at(page, 24) == FORMAT_VERSION
}

/// The root that the page names.
pub open spec fn root_of(page: Seq<u8>) -> Option<PageId> {
    if is_meta(page) {
        Some(u64_at(page, 32))
    } else {
        None
    }
}

/// The page with another root.
pub open spec fn with_root(page: Seq<u8>, root: PageId) -> Seq<u8> {
    put(page, 32, u64_bytes(root))
}

/// The page with the fixed fields of a metadata page and the given root.
pub open spec fn initialised(page: Seq<u8>, root: PageId) -> Seq<u8> {
    with_root(
        put(
            put(put(page, 0, seq![META]), 4, u32_bytes(MAGIC)),
            24,
            u32_bytes(FORMAT_VERSION),
        ),
        root,
    )
}

/// The root that was written is the root that is read, and a change of the root or of
/// the log sequence number leaves a metadata page one.
pub proof fn law_root(page: Seq<u8>, root: PageId, lsn: u64)
    requires
        page.len() >= 40,
    ensures
        root_of(initialised(page, root)) == Some(root),
        is_meta(page) ==> root_of(with_root(page, root)) == Some(root),
        root_of(with_lsn(page, lsn)) == root_of(page),
{
    broadcast use {
        crate::bytes::lemma_put_u32,
        crate::bytes::lemma_put_u64,
    };

    let a = put(page, 0, seq![META]);
    let b = put(a, 4, u32_bytes(MAGIC));
    let c = put(b, 24, u32_bytes(FORMAT_VERSION));
    let d = with_root(c, root);
    assert(d == initialised(page, root));
    crate::bytes::lemma_same_u32(b, c, 4);
    crate::bytes::lemma_same_u32(c, d, 4);
    crate::bytes::lemma_same_u32(c, d, 24);
    let e = with_root(page, root);
    crate::bytes::lemma_same_u32(page, e, 4);
    crate::bytes::lemma_same_u32(page, e, 24);
    let f = with_lsn(page, lsn);
    crate::bytes::lemma_same_u32(page, f, 4);
    crate::bytes::lemma_same_u32(page, f, 24);
    crate::bytes::lemma_same_u64(page, f, 32);
}

/// Writes the fixed fields and the root.
pub fn init(page: &mut [u8], root_page_id: PageId)
    requires
        old(page).len() >= 40,
    ensures
        final(page)@ == initialised(old(page)@, root_page_id),
        root_of(final(page)@) == Some(root_page_id),
{
    proof {
        law_root(page@, root_page_id, 0);
    }
    write_u8(page, OFF_PAGE_TYPE, META);
    write_u32(page, OFF_MAGIC, MAGIC);
    write_u32(page, OFF_VERSION, FORMAT_VERSION);
    write_u64(page, OFF_ROOT, root_page_id);
}

/// Writes the root.
pub fn set_root(page: &mut [u8], root_page_id: PageId)
    requires
        old(page).len() >= 40,
    ensures
        final(page)@ == with_root(old(page)@, root_page_id),
        is_meta(old(page)@) ==> root_of(final(page)@) == Some(root_page_id),
{
    proof {
        law_root(page@, root_page_id, 0);
    }
    write_u64(page, OFF_ROOT, root_page_id);
}

/// Writes the log sequence number of the last record that changed the page.
pub fn set_lsn(page: &mut [u8], lsn: u64)
    requires
        old(page).len() >= 40,
    ensures
        final(page)@ == with_lsn(old(page)@, lsn),
        root_of(final(page)@) == root_of(old(page)@),
{
    proof {
        law_root(page@, 0, lsn);
    }
    write_u64(page, OFF_LSN, lsn);
}

/// The root, or `None` where the page is no metadata page of this format.
pub fn read_root(page: &[u8]) -> (root: Option<PageId>)
    requires
        page.len() >= 40,
    ensures
        root == root_of(page@),
{
    if read_u8(page, OFF_PAGE_TYPE) != META || read_u32(page, OFF_MAGIC) != MAGIC || read_u32(
        page,
        OFF_VERSION,
    ) != FORMAT_VERSION {
        return None;
    }
    Some(read_u64(page, OFF_ROOT))
}

} // verus!
