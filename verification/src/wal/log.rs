//! The records that the engine logs, one function for each kind of change.

use crate::bytes::{
    lemma_stands_split, lemma_stands_u16, lemma_stands_u64, push_bytes, push_u16, push_u64,
    stands_at, u16_at, u16_bytes, u64_at, u64_bytes,
};
use crate::error::WalError;
use crate::page::{Lsn, PageId, PAGE_SIZE};
use crate::wal::record::{
    block_readable, block_views, part, record_size, Block, BlockView, WalRecordType, BLK_HAS_DATA,
    BLK_HAS_FPI, UNLINK_KEEP_LEFT, UNLINK_KEEP_RIGHT, UNLINK_ROLE_LEFT, UNLINK_ROLE_PARENT,
    UNLINK_ROLE_RIGHT,
};
use crate::wal::{appended, Wal};
use vstd::prelude::*;

verus! {

broadcast use crate::bytes::group_int_bytes;

/// A block that names a page and holds nothing of it.
pub open spec fn bare_block(page_id: PageId) -> BlockView {
    BlockView { page_id, flags: 0, fpi: None, data: None }
}

/// A block that holds data.
pub open spec fn data_block(page_id: PageId, data: Seq<u8>) -> BlockView {
    BlockView { page_id, flags: BLK_HAS_DATA, fpi: None, data: Some(data) }
}

/// A block that holds an image of the page.
pub open spec fn image_block(page_id: PageId, image: Seq<u8>) -> BlockView {
    BlockView { page_id, flags: BLK_HAS_FPI, fpi: Some(image), data: None }
}

/// A row inserted at a slot.
pub open spec fn insert_payload(slot: u16, key: Seq<u8>, value: Seq<u8>, xmin: u64) -> Seq<u8> {
    u16_bytes(slot) + u16_bytes(key.len() as u16) + u16_bytes(value.len() as u16) + u64_bytes(xmin)
        + key + value
}

/// A deleting transaction stamped on the row of a slot.
pub open spec fn xmax_payload(slot: u16, xmax: u64) -> Seq<u8> {
    u16_bytes(slot) + u64_bytes(xmax)
}

/// A separator and a child inserted into an internal page.
pub open spec fn downlink_payload(at_index: u16, sep: Seq<u8>, right_child: PageId) -> Seq<u8> {
    u16_bytes(at_index) + u16_bytes(sep.len() as u16) + u64_bytes(right_child) + sep
}

/// A sibling's new neighbour.
pub open spec fn sibling_payload(role: u8, page_id: PageId) -> Seq<u8> {
    seq![role] + u64_bytes(page_id)
}

/// A separator removed from a parent.
pub open spec fn parent_payload(remove_index: u16, keep_right: bool) -> Seq<u8> {
    seq![UNLINK_ROLE_PARENT] + u16_bytes(remove_index) + seq![
        if keep_right {
            UNLINK_KEEP_RIGHT
        } else {
            UNLINK_KEEP_LEFT
        },
    ]
}

/// The fields of an insert are read back from its payload.
pub proof fn law_insert_payload(slot: u16, key: Seq<u8>, value: Seq<u8>, xmin: u64)
    requires
        key.len() <= 0xffff,
        value.len() <= 0xffff,
    ensures
        ({
            let p = insert_payload(slot, key, value, xmin);
            &&& u16_at(p, 0) == slot
            &&& u16_at(p, 2) == key.len()
            &&& u16_at(p, 4) == value.len()
            &&& u64_at(p, 6) == xmin
            &&& p.subrange(14, 14 + key.len() as int) == key
            &&& p.subrange(14 + key.len() as int, p.len() as int) == value
        }),
{
    let p = insert_payload(slot, key, value, xmin);
    let a1 = u16_bytes(slot);
    let a2 = a1 + u16_bytes(key.len() as u16);
    let a3 = a2 + u16_bytes(value.len() as u16);
    let a4 = a3 + u64_bytes(xmin);
    let a5 = a4 + key;
    assert(p.subrange(0, p.len() as int) =~= p);
    assert(stands_at(p, 0, a5 + value));
    lemma_stands_split(p, 0, a5, value);
    lemma_stands_split(p, 0, a4, key);
    lemma_stands_split(p, 0, a3, u64_bytes(xmin));
    lemma_stands_split(p, 0, a2, u16_bytes(value.len() as u16));
    lemma_stands_split(p, 0, a1, u16_bytes(key.len() as u16));
    lemma_stands_u16(p, 0, slot);
    lemma_stands_u16(p, 2, key.len() as u16);
    lemma_stands_u16(p, 4, value.len() as u16);
    lemma_stands_u64(p, 6, xmin);
}

/// The fields of a stamp are read back from its payload.
pub proof fn law_xmax_payload(slot: u16, xmax: u64)
    ensures
        u16_at(xmax_payload(slot, xmax), 0) == slot,
        u64_at(xmax_payload(slot, xmax), 2) == xmax,
{
    let p = xmax_payload(slot, xmax);
    assert(p.subrange(0, p.len() as int) =~= p);
    assert(stands_at(p, 0, u16_bytes(slot) + u64_bytes(xmax)));
    lemma_stands_split(p, 0, u16_bytes(slot), u64_bytes(xmax));
    lemma_stands_u16(p, 0, slot);
    lemma_stands_u64(p, 2, xmax);
}

/// The fields of a downlink are read back from its payload.
pub proof fn law_downlink_payload(at_index: u16, sep: Seq<u8>, right_child: PageId)
    requires
        sep.len() <= 0xffff,
    ensures
        ({
            let p = downlink_payload(at_index, sep, right_child);
            &&& u16_at(p, 0) == at_index
            &&& u16_at(p, 2) == sep.len()
            &&& u64_at(p, 4) == right_child
            &&& p.subrange(12, p.len() as int) == sep
        }),
{
    let p = downlink_payload(at_index, sep, right_child);
    let a1 = u16_bytes(at_index);
    let a2 = a1 + u16_bytes(sep.len() as u16);
    let a3 = a2 + u64_bytes(right_child);
    assert(p.subrange(0, p.len() as int) =~= p);
    assert(stands_at(p, 0, a3 + sep));
    lemma_stands_split(p, 0, a3, sep);
    lemma_stands_split(p, 0, a2, u64_bytes(right_child));
    lemma_stands_split(p, 0, a1, u16_bytes(sep.len() as u16));
    lemma_stands_u16(p, 0, at_index);
    lemma_stands_u16(p, 2, sep.len() as u16);
    lemma_stands_u64(p, 4, right_child);
}

/// Blocks of these three kinds can be read back.
pub proof fn law_blocks_are_readable(page_id: PageId, data: Seq<u8>, image: Seq<u8>)
    requires
        0 < data.len() <= 0xffff,
        image.len() == PAGE_SIZE,
    ensures
        block_readable(bare_block(page_id)),
        block_readable(data_block(page_id, data)),
        block_readable(image_block(page_id, image)),
{
}

/// Blocks of an unlink record.
pub open spec fn unlink_blocks(
    left: Option<PageId>,
    right: PageId,
    parent: PageId,
    remove_index: u16,
    keep_right: bool,
) -> Seq<BlockView> {
    let tail = seq![
        data_block(
            right,
            sibling_payload(
                UNLINK_ROLE_RIGHT,
                match left {
                    Some(l) => l,
                    None => 0,
                },
            ),
        ),
        data_block(parent, parent_payload(remove_index, keep_right)),
    ];
    match left {
        Some(l) => seq![data_block(l, sibling_payload(UNLINK_ROLE_LEFT, right))] + tail,
        None => tail,
    }
}

fn image_of<'a>(page_id: PageId, image: &'a [u8]) -> (b: Block<'a>)
    ensures
        b.block() == image_block(page_id, image@),
{
    Block { page_id, blk_flags: BLK_HAS_FPI, fpi: Some(image), data: None }
}

fn data_of<'a>(page_id: PageId, data: &'a [u8]) -> (b: Block<'a>)
    ensures
        b.block() == data_block(page_id, data@),
{
    Block { page_id, blk_flags: BLK_HAS_DATA, fpi: None, data: Some(data) }
}

fn bare_of<'a>(page_id: PageId) -> (b: Block<'a>)
    ensures
        b.block() == bare_block(page_id),
{
    Block { page_id, blk_flags: 0, fpi: None, data: None }
}

/// The size of a record with up to three blocks.
pub proof fn lemma_small_record(bs: Seq<BlockView>, main: Option<Seq<u8>>)
    requires
        bs.len() <= 3,
    ensures
        bs.len() == 0 ==> record_size(bs, main) == 28 + part(main).len(),
        bs.len() == 1 ==> record_size(bs, main) == 28 + part(main).len()
            + crate::wal::record::block_size(bs[0]),
        bs.len() == 2 ==> record_size(bs, main) == 28 + part(main).len()
            + crate::wal::record::block_size(bs[0]) + crate::wal::record::block_size(bs[1]),
        bs.len() == 3 ==> record_size(bs, main) == 28 + part(main).len()
            + crate::wal::record::block_size(bs[0]) + crate::wal::record::block_size(bs[1])
            + crate::wal::record::block_size(bs[2]),
{
    reveal_with_fuel(crate::wal::record::blocks_size, 4);
    if bs.len() >= 1 {
        assert(bs.drop_last().len() == bs.len() - 1);
    }
}

impl Wal {
    /// Logs that the transaction commits.
    pub fn log_commit(&mut self, txn_id: u64) -> (r: Result<Lsn, WalError>)
        requires
            old(self).wf(),
        ensures
            final(self).wf(),
            (r, final(self)@) == appended(
                old(self)@,
                WalRecordType::Commit,
                txn_id,
                Seq::empty(),
                None,
            ),
    {
        let blocks: Vec<Block<'_>> = Vec::new();
        proof {
            assert(block_views(blocks@) =~= Seq::<BlockView>::empty());
            lemma_small_record(Seq::empty(), None);
        }
        self.append(WalRecordType::Commit, txn_id, blocks.as_slice(), None)
    }

    /// Logs that the transaction aborts.
    pub fn log_abort(&mut self, txn_id: u64) -> (r: Result<Lsn, WalError>)
        requires
            old(self).wf(),
        ensures
            final(self).wf(),
            (r, final(self)@) == appended(
                old(self)@,
                WalRecordType::Abort,
                txn_id,
                Seq::empty(),
                None,
            ),
    {
        let blocks: Vec<Block<'_>> = Vec::new();
        proof {
            assert(block_views(blocks@) =~= Seq::<BlockView>::empty());
            lemma_small_record(Seq::empty(), None);
        }
        self.append(WalRecordType::Abort, txn_id, blocks.as_slice(), None)
    }

    /// Logs that an empty leaf is marked half-dead.
    pub fn log_mark_half_dead(&mut self, txn_id: u64, page_id: PageId) -> (r: Result<Lsn, WalError>)
        requires
            old(self).wf(),
        ensures
            final(self).wf(),
            (r, final(self)@) == appended(
                old(self)@,
                WalRecordType::MarkHalfDead,
                txn_id,
                seq![bare_block(page_id)],
                None,
            ),
    {
        let mut blocks: Vec<Block<'_>> = Vec::new();
        blocks.push(bare_of(page_id));
        proof {
            let bs = seq![bare_block(page_id)];
            assert(block_views(blocks@) =~= bs);
            lemma_small_record(bs, None);
        }
        self.append(WalRecordType::MarkHalfDead, txn_id, blocks.as_slice(), None)
    }

    /// Logs a row inserted at a slot of a leaf.
    pub fn log_insert(
        &mut self,
        txn_id: u64,
        page_id: PageId,
        slot: u16,
        key: &[u8],
        value: &[u8],
        xmin: u64,
    ) -> (r: Result<Lsn, WalError>)
        requires
            old(self).wf(),
            key@.len() + value@.len() + 64 <= usize::MAX,
        ensures
            final(self).wf(),
            (r, final(self)@) == appended(
                old(self)@,
                WalRecordType::Insert,
                txn_id,
                seq![data_block(page_id, insert_payload(slot, key@, value@, xmin))],
                None,
            ),
    {
        let mut payload: Vec<u8> = Vec::new();
        push_u16(&mut payload, slot);
        push_u16(&mut payload, key.len() as u16);
        push_u16(&mut payload, value.len() as u16);
        push_u64(&mut payload, xmin);
        push_bytes(&mut payload, key);
        push_bytes(&mut payload, value);
        let mut blocks: Vec<Block<'_>> = Vec::new();
        blocks.push(data_of(page_id, payload.as_slice()));
        proof {
            assert(payload@ =~= insert_payload(slot, key@, value@, xmin));
            let bs = seq![data_block(page_id, insert_payload(slot, key@, value@, xmin))];
            assert(block_views(blocks@) =~= bs);
            lemma_small_record(bs, None);
        }
        self.append(WalRecordType::Insert, txn_id, blocks.as_slice(), None)
    }

    /// Logs a deleting transaction stamped on the row of a slot.
    pub fn log_set_xmax(&mut self, txn_id: u64, page_id: PageId, slot: u16, xmax: u64) -> (r:
        Result<Lsn, WalError>)
        requires
            old(self).wf(),
        ensures
            final(self).wf(),
            (r, final(self)@) == appended(
                old(self)@,
                WalRecordType::SetXMax,
                txn_id,
                seq![data_block(page_id, xmax_payload(slot, xmax))],
                None,
            ),
    {
        let mut payload: Vec<u8> = Vec::new();
        push_u16(&mut payload, slot);
        push_u64(&mut payload, xmax);
        let mut blocks: Vec<Block<'_>> = Vec::new();
        blocks.push(data_of(page_id, payload.as_slice()));
        proof {
            assert(payload@ =~= xmax_payload(slot, xmax));
            let bs = seq![data_block(page_id, xmax_payload(slot, xmax))];
            assert(block_views(blocks@) =~= bs);
            lemma_small_record(bs, None);
        }
        self.append(WalRecordType::SetXMax, txn_id, blocks.as_slice(), None)
    }

    /// Logs that a half-dead leaf leaves the chain of siblings and its parent.
    pub fn log_unlink_page(
        &mut self,
        txn_id: u64,
        deleted_page_id: PageId,
        left_sibling: Option<PageId>,
        right_sibling: PageId,
        parent_page: PageId,
        remove_index: u16,
        keep_right_child: bool,
    ) -> (r: Result<Lsn, WalError>)
        requires
            old(self).wf(),
        ensures
            final(self).wf(),
            (r, final(self)@) == appended(
                old(self)@,
                WalRecordType::UnlinkPage,
                txn_id,
                unlink_blocks(
                    left_sibling,
                    right_sibling,
                    parent_page,
                    remove_index,
                    keep_right_child,
                ),
                Some(u64_bytes(deleted_page_id)),
            ),
    {
        let mut left_payload: Vec<u8> = Vec::new();
        left_payload.push(UNLINK_ROLE_LEFT);
        push_u64(&mut left_payload, right_sibling);
        let mut right_payload: Vec<u8> = Vec::new();
        right_payload.push(UNLINK_ROLE_RIGHT);
        push_u64(&mut right_payload, left_sibling.unwrap_or(0));
        let mut parent: Vec<u8> = Vec::new();
        parent.push(UNLINK_ROLE_PARENT);
        push_u16(&mut parent, remove_index);
        parent.push(
            if keep_right_child {
                UNLINK_KEEP_RIGHT
            } else {
                UNLINK_KEEP_LEFT
            },
        );
        let mut main: Vec<u8> = Vec::new();
        push_u64(&mut main, deleted_page_id);
        let mut blocks: Vec<Block<'_>> = Vec::new();
        if let Some(left_page) = left_sibling {
            blocks.push(data_of(left_page, left_payload.as_slice()));
        }
        blocks.push(data_of(right_sibling, right_payload.as_slice()));
        blocks.push(data_of(parent_page, parent.as_slice()));
        proof {
            let bs = unlink_blocks(
                left_sibling,
                right_sibling,
                parent_page,
                remove_index,
                keep_right_child,
            );
            assert(left_payload@ =~= sibling_payload(UNLINK_ROLE_LEFT, right_sibling));
            assert(right_payload@ =~= sibling_payload(
                UNLINK_ROLE_RIGHT,
                match left_sibling {
                    Some(l) => l,
                    None => 0,
                },
            ));
            assert(parent@ =~= parent_payload(remove_index, keep_right_child));
            assert(main@ =~= u64_bytes(deleted_page_id));
            assert(block_views(blocks@) =~= bs);
            lemma_small_record(bs, Some(u64_bytes(deleted_page_id)));
        }
        self.append(
            WalRecordType::UnlinkPage,
            txn_id,
            blocks.as_slice(),
            Some(main.as_slice()),
        )
    }

    /// Logs a leaf split: the images of both halves and of the right neighbour.
    pub fn log_leaf_split(
        &mut self,
        txn_id: u64,
        left: (PageId, &[u8]),
        right: (PageId, &[u8]),
        old_neighbour: Option<(PageId, &[u8])>,
    ) -> (r: Result<Lsn, WalError>)
        requires
            old(self).wf(),
            left.1@.len() == PAGE_SIZE,
            right.1@.len() == PAGE_SIZE,
            old_neighbour matches Some(n) ==> n.1@.len() == PAGE_SIZE,
        ensures
            final(self).wf(),
            (r, final(self)@) == appended(
                old(self)@,
                WalRecordType::LeafSplit,
                txn_id,
                match old_neighbour {
                    Some(n) => seq![
                        image_block(left.0, left.1@),
                        image_block(right.0, right.1@),
                        image_block(n.0, n.1@),
                    ],
                    None => seq![image_block(left.0, left.1@), image_block(right.0, right.1@)],
                },
                None,
            ),
    {
        let mut blocks: Vec<Block<'_>> = Vec::new();
        blocks.push(image_of(left.0, left.1));
        blocks.push(image_of(right.0, right.1));
        if let Some((pid, img)) = old_neighbour {
            blocks.push(image_of(pid, img));
        }
        proof {
            let bs = match old_neighbour {
                Some(n) => seq![
                    image_block(left.0, left.1@),
                    image_block(right.0, right.1@),
                    image_block(n.0, n.1@),
                ],
                None => seq![image_block(left.0, left.1@), image_block(right.0, right.1@)],
            };
            assert(block_views(blocks@) =~= bs);
            lemma_small_record(bs, None);
        }
        self.append(WalRecordType::LeafSplit, txn_id, blocks.as_slice(), None)
    }

    /// Logs the split of an internal page: the images of both halves.
    pub fn log_internal_split(
        &mut self,
        txn_id: u64,
        left: (PageId, &[u8]),
        right: (PageId, &[u8]),
    ) -> (r: Result<Lsn, WalError>)
        requires
            old(self).wf(),
            left.1@.len() == PAGE_SIZE,
            right.1@.len() == PAGE_SIZE,
        ensures
            final(self).wf(),
            (r, final(self)@) == appended(
                old(self)@,
                WalRecordType::InternalSPlit,
                txn_id,
                seq![image_block(left.0, left.1@), image_block(right.0, right.1@)],
                None,
            ),
    {
        let mut blocks: Vec<Block<'_>> = Vec::new();
        blocks.push(image_of(left.0, left.1));
        blocks.push(image_of(right.0, right.1));
        proof {
            let bs = seq![image_block(left.0, left.1@), image_block(right.0, right.1@)];
            assert(block_views(blocks@) =~= bs);
            lemma_small_record(bs, None);
        }
        self.append(WalRecordType::InternalSPlit, txn_id, blocks.as_slice(), None)
    }

    /// Logs a separator and a child inserted into an internal page, and that the split
    /// of the left child is complete.
    pub fn log_insert_downlink(
        &mut self,
        txn_id: u64,
        parent_page: PageId,
        at_index: u16,
        sep_key: &[u8],
        right_child: PageId,
        left_child: PageId,
    ) -> (r: Result<Lsn, WalError>)
        requires
            old(self).wf(),
            sep_key@.len() + 128 <= usize::MAX,
        ensures
            final(self).wf(),
            (r, final(self)@) == appended(
                old(self)@,
                WalRecordType::InsertDownLink,
                txn_id,
                seq![
                    data_block(parent_page, downlink_payload(at_index, sep_key@, right_child)),
                    bare_block(left_child),
                ],
                None,
            ),
    {
        let mut payload: Vec<u8> = Vec::new();
        push_u16(&mut payload, at_index);
        push_u16(&mut payload, sep_key.len() as u16);
        push_u64(&mut payload, right_child);
        push_bytes(&mut payload, sep_key);
        let mut blocks: Vec<Block<'_>> = Vec::new();
        blocks.push(data_of(parent_page, payload.as_slice()));
        blocks.push(bare_of(left_child));
        proof {
            assert(payload@ =~= downlink_payload(at_index, sep_key@, right_child));
            let bs = seq![
                data_block(parent_page, downlink_payload(at_index, sep_key@, right_child)),
                bare_block(left_child),
            ];
            assert(block_views(blocks@) =~= bs);
            lemma_small_record(bs, None);
        }
        self.append(WalRecordType::InsertDownLink, txn_id, blocks.as_slice(), None)
    }

    /// Logs a new root: its image, the metadata page's new root, and that the split of
    /// the left child is complete.
    pub fn log_new_root(&mut self, txn_id: u64, new_root: (PageId, &[u8]), left_child: PageId) -> (r:
        Result<Lsn, WalError>)
        requires
            old(self).wf(),
            new_root.1@.len() == PAGE_SIZE,
        ensures
            final(self).wf(),
            (r, final(self)@) == appended(
                old(self)@,
                WalRecordType::NewRoot,
                txn_id,
                seq![
                    image_block(new_root.0, new_root.1@),
                    data_block(0, u64_bytes(new_root.0)),
                    bare_block(left_child),
                ],
                None,
            ),
    {
        let mut root_bytes: Vec<u8> = Vec::new();
        push_u64(&mut root_bytes, new_root.0);
        let mut blocks: Vec<Block<'_>> = Vec::new();
        blocks.push(image_of(new_root.0, new_root.1));
        blocks.push(data_of(0, root_bytes.as_slice()));
        blocks.push(bare_of(left_child));
        proof {
            assert(root_bytes@ =~= u64_bytes(new_root.0));
            let bs = seq![
                image_block(new_root.0, new_root.1@),
                data_block(0, u64_bytes(new_root.0)),
                bare_block(left_child),
            ];
            assert(block_views(blocks@) =~= bs);
            lemma_small_record(bs, None);
        }
        self.append(WalRecordType::NewRoot, txn_id, blocks.as_slice(), None)
    }

    /// Logs the image of a compacted leaf.
    pub fn log_page_compact(&mut self, txn_id: u64, page_id: PageId, image: &[u8]) -> (r: Result<
        Lsn,
        WalError,
    >)
        requires
            old(self).wf(),
            image@.len() == PAGE_SIZE,
        ensures
            final(self).wf(),
            (r, final(self)@) == appended(
                old(self)@,
                WalRecordType::PageCompact,
                txn_id,
                seq![image_block(page_id, image@)],
                None,
            ),
    {
        let mut blocks: Vec<Block<'_>> = Vec::new();
        blocks.push(image_of(page_id, image));
        proof {
            let bs = seq![image_block(page_id, image@)];
            assert(block_views(blocks@) =~= bs);
            lemma_small_record(bs, None);
        }
        self.append(WalRecordType::PageCompact, txn_id, blocks.as_slice(), None)
    }
}

} // verus!
