//! What repeating a record does to a page, said of the page and of what was logged.

use crate::bytes::{
    lemma_stands_split, lemma_stands_u16, lemma_stands_u64, stands_at, u16_at, u16_bytes, u64_at,
    u64_bytes,
};
use crate::page::internal::InternalView;
use crate::page::leaf::{row_need, LeafView};
use crate::page::meta::{is_meta, law_root, root_of};
use crate::page::{law_flags, Lsn, PageId, FLAG_HALF_DEAD, FLAG_INCOMPLETE_SPLIT, PAGE_SIZE};
use crate::recovery::redo::{int_room, redone, PageState};
use crate::recovery::replay::replayed_blocks;
use crate::wal::log::{
    bare_block, data_block, downlink_payload, insert_payload, law_downlink_payload,
    law_insert_payload, law_xmax_payload, parent_payload, sibling_payload, unlink_blocks,
    xmax_payload,
};
use crate::wal::record::{
    BlockView, RecordView, WalRecordType, UNLINK_ROLE_LEFT, UNLINK_ROLE_RIGHT,
};
use vstd::prelude::*;

verus! {

broadcast use crate::bytes::group_int_bytes;

/// A page that carries the number of the record, or a higher one, has seen it and stays as it is.
pub proof fn law_seen_record_is_skipped(kind: WalRecordType, b: BlockView, lsn: Lsn, st: PageState)
    requires
        lsn <= st.lsn(),
    ensures
        redone(kind, b, lsn, st) == Some(st),
{
}

/// The fields of a sibling's payload are read back.
pub proof fn law_sibling_payload(role: u8, page_id: PageId)
    ensures
        sibling_payload(role, page_id).len() == 9,
        sibling_payload(role, page_id)[0] == role,
        u64_at(sibling_payload(role, page_id), 1) == page_id,
{
    let p = sibling_payload(role, page_id);
    assert(p.subrange(0, p.len() as int) =~= p);
    assert(stands_at(p, 0, seq![role] + u64_bytes(page_id)));
    lemma_stands_split(p, 0, seq![role], u64_bytes(page_id));
    lemma_stands_u64(p, 1, page_id);
}

/// The fields of a parent's payload are read back.
pub proof fn law_parent_payload(remove_index: u16, keep_right: bool)
    ensures
        parent_payload(remove_index, keep_right).len() == 4,
        u16_at(parent_payload(remove_index, keep_right), 1) == remove_index,
        parent_payload(remove_index, keep_right)[0] != UNLINK_ROLE_LEFT,
        parent_payload(remove_index, keep_right)[0] != UNLINK_ROLE_RIGHT,
        parent_payload(remove_index, true)[3] != parent_payload(remove_index, false)[3],
{
    let p = parent_payload(remove_index, keep_right);
    let t = seq![p[3]];
    assert(p.subrange(0, p.len() as int) =~= p);
    assert(p =~= seq![p[0]] + u16_bytes(remove_index) + t);
    assert(stands_at(p, 0, seq![p[0]] + u16_bytes(remove_index) + t));
    lemma_stands_split(p, 0, seq![p[0]] + u16_bytes(remove_index), t);
    lemma_stands_split(p, 0, seq![p[0]], u16_bytes(remove_index));
    lemma_stands_u16(p, 1, remove_index);
}

/// The record that is logged when a leaf is taken out of the chain makes its neighbours point at
/// each other, and changes nothing else of them.
pub proof fn law_logged_unlink_joins_neighbours(
    l: LeafView,
    left: PageId,
    r: LeafView,
    right: PageId,
    lsn: Lsn,
)
    requires
        l.lsn < lsn,
        r.lsn < lsn,
        left != 0,
        right != 0,
    ensures
        redone(
            WalRecordType::UnlinkPage,
            data_block(left, sibling_payload(UNLINK_ROLE_LEFT, right)),
            lsn,
            PageState::Leaf(l),
        ) == Some(PageState::Leaf(LeafView { lsn, right: Some(right), ..l })),
        redone(
            WalRecordType::UnlinkPage,
            data_block(right, sibling_payload(UNLINK_ROLE_RIGHT, left)),
            lsn,
            PageState::Leaf(r),
        ) == Some(PageState::Leaf(LeafView { lsn, prev: Some(left), ..r })),
        redone(
            WalRecordType::UnlinkPage,
            data_block(right, sibling_payload(UNLINK_ROLE_RIGHT, 0)),
            lsn,
            PageState::Leaf(r),
        ) == Some(PageState::Leaf(LeafView { lsn, prev: None, ..r })),
{
    law_sibling_payload(UNLINK_ROLE_LEFT, right);
    law_sibling_payload(UNLINK_ROLE_RIGHT, left);
    law_sibling_payload(UNLINK_ROLE_RIGHT, 0);
}

/// The parent of a leaf that is taken out loses the separator, and the child before it or behind it
/// as the record says. The other children keep their order.
pub proof fn law_logged_unlink_removes_downlink(
    v: InternalView,
    parent: PageId,
    at: u16,
    keep_right: bool,
    lsn: Lsn,
)
    requires
        v.lsn < lsn,
        at < v.keys.len(),
        v.children.len() == v.keys.len() + 1,
    ensures
        ({
            let after = redone(
                WalRecordType::UnlinkPage,
                data_block(parent, parent_payload(at, keep_right)),
                lsn,
                PageState::Internal(v),
            );
            &&& after matches Some(PageState::Internal(w))
            &&& w.lsn == lsn
            &&& w.keys == v.keys.take(at as int) + v.keys.skip(at + 1)
            &&& w.children.len() == v.children.len() - 1
            &&& w.children[at as int] == v.children[if keep_right {
                at + 1
            } else {
                at as int
            }]
            &&& w.children.take(at as int) == v.children.take(at as int)
            &&& w.children.skip(at + 1) == v.children.skip(at + 2)
            &&& w.flags == v.flags
            &&& w.high == v.high
            &&& w.right == v.right
        }),
{
    law_parent_payload(at, keep_right);
    let k = if keep_right {
        at as int
    } else {
        at + 1
    };
    assert(v.keys.remove(at as int) =~= v.keys.take(at as int) + v.keys.skip(at + 1));
    let c = v.children.remove(k);
    assert(c.take(at as int) =~= v.children.take(at as int));
    assert(c.skip(at + 1) =~= v.children.skip(at + 2));
}

/// An unlink record names the left neighbour, where there is one, the right one and the parent,
/// each with what it is to become.
pub proof fn law_unlink_names_its_pages(
    left: Option<PageId>,
    right: PageId,
    parent: PageId,
    at: u16,
    keep_right: bool,
)
    ensures
        ({
            let bs = unlink_blocks(left, right, parent, at, keep_right);
            let n = bs.len() as int;
            &&& n == (if left is Some {
                3int
            } else {
                2
            })
            &&& bs[n - 1] == data_block(parent, parent_payload(at, keep_right))
            &&& bs[n - 2] == data_block(
                right,
                sibling_payload(UNLINK_ROLE_RIGHT, if left is Some {
                    left->0
                } else {
                    0
                }),
            )
            &&& left matches Some(l) ==> bs[0] == data_block(
                l,
                sibling_payload(UNLINK_ROLE_LEFT, right),
            )
        }),
{
}

/// A page that a record of a downlink or of a new root names without data no longer waits for its
/// downlink; nothing else of it changes. One that a record marks half dead is half dead.
pub proof fn law_logged_flag_is_redone(v: LeafView, w: InternalView, id: PageId, lsn: Lsn)
    requires
        v.lsn < lsn,
        w.lsn < lsn,
    ensures
        forall|kind: WalRecordType|
            kind == WalRecordType::InsertDownLink || kind == WalRecordType::NewRoot ==> {
                &&& #[trigger] redone(kind, bare_block(id), lsn, PageState::Leaf(v)) matches Some(
                    PageState::Leaf(x),
                )
                &&& x == LeafView { lsn, flags: x.flags, ..v }
                &&& x.flags & FLAG_INCOMPLETE_SPLIT == 0
                &&& x.flags & FLAG_HALF_DEAD == v.flags & FLAG_HALF_DEAD
            },
        forall|kind: WalRecordType|
            kind == WalRecordType::InsertDownLink || kind == WalRecordType::NewRoot ==> {
                &&& #[trigger] redone(
                    kind,
                    bare_block(id),
                    lsn,
                    PageState::Internal(w),
                ) matches Some(PageState::Internal(x))
                &&& x == InternalView { lsn, flags: x.flags, ..w }
                &&& x.flags & FLAG_INCOMPLETE_SPLIT == 0
                &&& x.flags & FLAG_HALF_DEAD == w.flags & FLAG_HALF_DEAD
            },
        redone(
            WalRecordType::MarkHalfDead,
            bare_block(id),
            lsn,
            PageState::Leaf(v),
        ) matches Some(PageState::Leaf(x)) && x == (LeafView { lsn, flags: x.flags, ..v }) && x.flags
            & FLAG_HALF_DEAD != 0 && x.flags & FLAG_INCOMPLETE_SPLIT == v.flags
            & FLAG_INCOMPLETE_SPLIT,
{
    law_flags(v.flags);
    law_flags(w.flags);
}

/// The record of a new root makes the metadata page name it.
pub proof fn law_logged_root_is_redone(page: Seq<u8>, root: PageId, id: PageId, lsn: Lsn)
    requires
        page.len() == PAGE_SIZE,
        is_meta(page),
        u64_at(page, 16) < lsn,
    ensures
        redone(
            WalRecordType::NewRoot,
            data_block(id, u64_bytes(root)),
            lsn,
            PageState::Raw(page),
        ) matches Some(PageState::Raw(p)) && root_of(p) == Some(root) && u64_at(p, 16) == lsn
            && p.len() == PAGE_SIZE,
{
    let d = u64_bytes(root);
    assert(d.subrange(0, 8) =~= d);
    lemma_stands_u64(d, 0, root);
    law_root(page, root, lsn);
    let q = crate::page::meta::with_root(page, root);
    law_root(q, root, lsn);
    crate::page::law_lsn(q, lsn);
}

/// A row that the leaf has no place for, or no room, and a deletion of a row that is not there, do
/// not fit the page; nor does a downlink behind the last one, or without room.
pub proof fn law_what_does_not_fit(
    v: LeafView,
    w: InternalView,
    id: PageId,
    slot: u16,
    key: Seq<u8>,
    val: Seq<u8>,
    xid: u64,
    lsn: Lsn,
)
    requires
        v.lsn < lsn,
        w.lsn < lsn,
        key.len() <= 0xffff,
        val.len() <= 0xffff,
    ensures
        redone(
            WalRecordType::Insert,
            data_block(id, insert_payload(slot, key, val, xid)),
            lsn,
            PageState::Leaf(v),
        ) is None <==> slot > v.rows.len() || row_need(key, val) > v.free,
        redone(
            WalRecordType::SetXMax,
            data_block(id, xmax_payload(slot, xid)),
            lsn,
            PageState::Leaf(v),
        ) is None <==> slot >= v.rows.len(),
        redone(
            WalRecordType::InsertDownLink,
            data_block(id, downlink_payload(slot, key, xid)),
            lsn,
            PageState::Internal(w),
        ) is None <==> slot > w.keys.len() || 12 + key.len() > int_room(w),
{
    law_insert_payload(slot, key, val, xid);
    law_xmax_payload(slot, xid);
    law_downlink_payload(slot, key, xid);
}

/// A record that does not name a page leaves it alone.
pub proof fn law_other_pages_stay(r: RecordView, n: int, id: PageId, st: PageState)
    requires
        0 <= n <= r.blocks.len(),
        forall|i: int| 0 <= i < r.blocks.len() ==> (#[trigger] r.blocks[i]).page_id != id,
    ensures
        replayed_blocks(r, n, id, st) == Some(st),
    decreases n,
{
    if n > 0 {
        law_other_pages_stay(r, n - 1, id, st);
    }
}

} // verus!
