//! Repeating on a page what a record says was done to it.
//!
//! A page that carries the record's log sequence number or a higher one has seen the record
//! already and stays as it is. Any other page becomes the image that the record holds of it,
//! or gets the change that the record describes; either way it then carries the record's
//! number.

use crate::bytes::{put, read_u16, read_u64, u16_at, u64_at, write_bytes};
use crate::index::tree::{lemma_same_meta, lemma_same_view};
use crate::page::internal::{
    int_used, int_view, int_wf, lemma_int_flags, InternalPageMutator, InternalView,
};
use crate::page::leaf::{
    leaf_view, leaf_wf, lemma_leaf_flags, link, row_need, LeafPageMutator, LeafView, Version,
};
use crate::page::meta::{is_meta, with_root};
use crate::page::{
    lemma_plain, plain, with_lsn, ChildSide, Lsn, PageId, FLAG_HALF_DEAD, FLAG_INCOMPLETE_SPLIT,
    META, PAGE_SIZE,
};
use crate::recovery::checks::{is_internal, is_leaf};
use crate::wal::log::{
    data_block, downlink_payload, image_block, insert_payload, law_downlink_payload,
    law_insert_payload, law_xmax_payload, xmax_payload,
};
use crate::wal::record::{
    BlockView, WalRecordType, UNLINK_KEEP_LEFT, UNLINK_KEEP_RIGHT, UNLINK_ROLE_LEFT,
    UNLINK_ROLE_PARENT, UNLINK_ROLE_RIGHT,
};
use vstd::prelude::*;

verus! {

broadcast use crate::bytes::group_int_bytes;

/// What a page holds, its checksum and unused bytes aside.
#[verifier::ext_equal]
pub ghost enum PageState {
    Leaf(LeafView),
    Internal(InternalView),
    /// A page of another kind: its bytes.
    Raw(Seq<u8>),
}

/// What a page holds.
pub open spec fn state_of(page: Seq<u8>) -> PageState {
    if leaf_wf(page) {
        PageState::Leaf(leaf_view(page))
    } else if int_wf(page) {
        PageState::Internal(int_view(page))
    } else {
        PageState::Raw(plain(page))
    }
}

impl PageState {
    /// The log sequence number that the page carries.
    pub open spec fn lsn(self) -> Lsn {
        match self {
            PageState::Leaf(v) => v.lsn,
            PageState::Internal(v) => v.lsn,
            PageState::Raw(b) => u64_at(b, 16),
        }
    }
}

/// A block of a record, held on its own.
pub struct LoggedBlock {
    pub page_id: PageId,
    pub flags: u8,
    pub fpi: Option<Vec<u8>>,
    pub data: Option<Vec<u8>>,
}

/// The bytes, where there are any.
pub open spec fn bytes_of(o: Option<Vec<u8>>) -> Option<Seq<u8>> {
    match o {
        Some(b) => Some(b@),
        None => None,
    }
}

impl LoggedBlock {
    /// What the block holds.
    pub open spec fn block(&self) -> BlockView {
        BlockView {
            page_id: self.page_id,
            flags: self.flags,
            fpi: bytes_of(self.fpi),
            data: bytes_of(self.data),
        }
    }
}

/// A leaf after the row that the payload describes was inserted. `None` where the payload
/// is no such one, or the row has no place.
pub open spec fn row_inserted(v: LeafView, d: Seq<u8>, lsn: Lsn) -> Option<LeafView> {
    let slot = u16_at(d, 0) as int;
    let klen = u16_at(d, 2) as int;
    let key = d.subrange(14, 14 + klen);
    let val = d.subrange(14 + klen, d.len() as int);
    if 14 <= d.len() && 14 + klen + u16_at(d, 4) == d.len() && slot <= v.rows.len() && row_need(
        key,
        val,
    ) <= v.free {
        Some(
            LeafView {
                lsn,
                rows: v.rows.insert(slot, Version { key, val, xmin: u64_at(d, 6), xmax: 0 }),
                free: v.free - row_need(key, val),
                ..v
            },
        )
    } else {
        None
    }
}

/// A leaf after a row was stamped with its deleting transaction.
pub open spec fn row_stamped(v: LeafView, d: Seq<u8>, lsn: Lsn) -> Option<LeafView> {
    let slot = u16_at(d, 0) as int;
    if d.len() == 10 && slot < v.rows.len() {
        Some(
            LeafView {
                lsn,
                rows: v.rows.update(slot, Version { xmax: u64_at(d, 2), ..v.rows[slot] }),
                ..v
            },
        )
    } else {
        None
    }
}

/// The bytes of an internal page that are free.
pub open spec fn int_room(v: InternalView) -> int {
    PAGE_SIZE - int_used(v.keys) - (match v.high {
        Some(h) => h.len() as int,
        None => 0,
    })
}

/// An internal page after a separator and the child behind it were inserted.
pub open spec fn downlink_inserted(v: InternalView, d: Seq<u8>, lsn: Lsn) -> Option<InternalView> {
    let at = u16_at(d, 0) as int;
    let sep = d.subrange(12, d.len() as int);
    if 12 <= d.len() && 12 + u16_at(d, 2) == d.len() && at <= v.keys.len() && 12 + sep.len()
        <= int_room(v) {
        Some(
            InternalView {
                lsn,
                keys: v.keys.insert(at, sep),
                children: v.children.insert(at + 1, u64_at(d, 4)),
                ..v
            },
        )
    } else {
        None
    }
}

/// A leaf after a neighbour was taken out of the chain of leaves.
pub open spec fn sibling_relinked(v: LeafView, d: Seq<u8>, lsn: Lsn) -> Option<LeafView> {
    if d.len() == 9 && d[0] == UNLINK_ROLE_LEFT {
        Some(LeafView { lsn, right: link(u64_at(d, 1)), ..v })
    } else if d.len() == 9 && d[0] == UNLINK_ROLE_RIGHT {
        Some(LeafView { lsn, prev: link(u64_at(d, 1)), ..v })
    } else {
        None
    }
}

/// An internal page after the downlink of a removed child was taken out.
pub open spec fn downlink_removed(v: InternalView, d: Seq<u8>, lsn: Lsn) -> Option<InternalView> {
    let at = u16_at(d, 1) as int;
    if d.len() == 4 && d[0] == UNLINK_ROLE_PARENT && at < v.keys.len() && (d[3]
        == UNLINK_KEEP_RIGHT || d[3] == UNLINK_KEEP_LEFT) {
        Some(
            InternalView {
                lsn,
                keys: v.keys.remove(at),
                children: v.children.remove(
                    if d[3] == UNLINK_KEEP_RIGHT {
                        at
                    } else {
                        at + 1
                    },
                ),
                ..v
            },
        )
    } else {
        None
    }
}

/// The metadata page after the root changed.
pub open spec fn root_changed(page: Seq<u8>, d: Seq<u8>, lsn: Lsn) -> Option<Seq<u8>> {
    if is_meta(page) && d.len() == 8 {
        Some(with_lsn(with_root(page, u64_at(d, 0)), lsn))
    } else {
        None
    }
}

pub open spec fn as_leaf(v: Option<LeafView>) -> Option<PageState> {
    match v {
        Some(x) => Some(PageState::Leaf(x)),
        None => None,
    }
}

pub open spec fn as_internal(v: Option<InternalView>) -> Option<PageState> {
    match v {
        Some(x) => Some(PageState::Internal(x)),
        None => None,
    }
}

/// What a record's payload does to a page. `None` where the payload does not fit the page.
pub open spec fn changed(kind: WalRecordType, data: Option<Seq<u8>>, lsn: Lsn, st: PageState) -> Option<
    PageState,
> {
    match data {
        Some(d) => match st {
            PageState::Leaf(v) => match kind {
                WalRecordType::Insert => as_leaf(row_inserted(v, d, lsn)),
                WalRecordType::SetXMax => as_leaf(row_stamped(v, d, lsn)),
                WalRecordType::UnlinkPage => as_leaf(sibling_relinked(v, d, lsn)),
                _ => None,
            },
            PageState::Internal(v) => match kind {
                WalRecordType::InsertDownLink => as_internal(downlink_inserted(v, d, lsn)),
                WalRecordType::UnlinkPage => as_internal(downlink_removed(v, d, lsn)),
                _ => None,
            },
            PageState::Raw(b) => match kind {
                WalRecordType::NewRoot => match root_changed(b, d, lsn) {
                    Some(p) => Some(PageState::Raw(p)),
                    None => None,
                },
                _ => None,
            },
        },
        None => match st {
            PageState::Leaf(v) => match kind {
                WalRecordType::InsertDownLink | WalRecordType::NewRoot => Some(
                    PageState::Leaf(
                        LeafView { lsn, flags: v.flags & !FLAG_INCOMPLETE_SPLIT, ..v },
                    ),
                ),
                WalRecordType::MarkHalfDead => Some(
                    PageState::Leaf(LeafView { lsn, flags: v.flags | FLAG_HALF_DEAD, ..v }),
                ),
                _ => None,
            },
            PageState::Internal(v) => match kind {
                WalRecordType::InsertDownLink | WalRecordType::NewRoot => Some(
                    PageState::Internal(
                        InternalView { lsn, flags: v.flags & !FLAG_INCOMPLETE_SPLIT, ..v },
                    ),
                ),
                _ => None,
            },
            PageState::Raw(_) => None,
        },
    }
}

/// What a page holds after a block of a record was repeated on it. `None` where the block
/// does not fit the page.
pub open spec fn redone(kind: WalRecordType, b: BlockView, lsn: Lsn, st: PageState) -> Option<
    PageState,
> {
    if lsn <= st.lsn() {
        Some(st)
    } else {
        match b.fpi {
            Some(image) => if image.len() == PAGE_SIZE {
                Some(state_of(with_lsn(image, lsn)))
            } else {
                None
            },
            None => changed(kind, b.data, lsn, st),
        }
    }
}

/// A page and its plain form hold the same, and carry the same log sequence number.
pub proof fn lemma_state(page: Seq<u8>)
    requires
        page.len() == PAGE_SIZE,
    ensures
        state_of(plain(page)) == state_of(page),
        state_of(page).lsn() == u64_at(page, 16),
{
    lemma_same_view(page);
    lemma_plain(page);
    crate::page::law_sealed_is_same_page(page);
}

fn redo_insert(page: &mut [u8], d: &[u8], lsn: Lsn) -> (done: bool)
    requires
        leaf_wf(old(page)@),
    ensures
        match row_inserted(leaf_view(old(page)@), d@, lsn) {
            Some(v) => done && leaf_wf(final(page)@) && leaf_view(final(page)@) == v,
            None => !done && final(page)@ == old(page)@,
        },
{
    let ghost v = leaf_view(page@);
    if d.len() < 14 {
        return false;
    }
    let slot: usize = read_u16(d, 0) as usize;
    let klen: usize = read_u16(d, 2) as usize;
    let vlen: usize = read_u16(d, 4) as usize;
    let xmin: u64 = read_u64(d, 6);
    let n: usize = read_u16(page, 2) as usize;
    if 14 + klen + vlen != d.len() || slot > n {
        return false;
    }
    let key: &[u8] = vstd::slice::slice_subrange(d, 14, 14 + klen);
    let val: &[u8] = vstd::slice::slice_subrange(d, 14 + klen, d.len());
    let mut m = LeafPageMutator::<&[u8], &[u8]>::new(page);
    match m.insert_bytes(slot, key, val) {
        Ok(()) => {},
        Err(_) => {
            return false;
        },
    }
    m.set_xmin(slot, xmin);
    m.set_lsn(lsn);
    proof {
        let r = Version { key: key@, val: val@, xmin: 0, xmax: 0 };
        assert(v.rows.insert(slot as int, r).update(slot as int, Version { xmin, ..r })
            =~= v.rows.insert(slot as int, Version { xmin, ..r }));
    }
    true
}

fn redo_xmax(page: &mut [u8], d: &[u8], lsn: Lsn) -> (done: bool)
    requires
        leaf_wf(old(page)@),
    ensures
        match row_stamped(leaf_view(old(page)@), d@, lsn) {
            Some(v) => done && leaf_wf(final(page)@) && leaf_view(final(page)@) == v,
            None => !done && final(page)@ == old(page)@,
        },
{
    if d.len() != 10 {
        return false;
    }
    let slot: usize = read_u16(d, 0) as usize;
    let xmax: u64 = read_u64(d, 2);
    let n: usize = read_u16(page, 2) as usize;
    if slot >= n {
        return false;
    }
    let mut m = LeafPageMutator::<&[u8], &[u8]>::new(page);
    m.set_xmax(slot, xmax);
    m.set_lsn(lsn);
    true
}

fn redo_sibling(page: &mut [u8], d: &[u8], lsn: Lsn) -> (done: bool)
    requires
        leaf_wf(old(page)@),
    ensures
        match sibling_relinked(leaf_view(old(page)@), d@, lsn) {
            Some(v) => done && leaf_wf(final(page)@) && leaf_view(final(page)@) == v,
            None => !done && final(page)@ == old(page)@,
        },
{
    if d.len() != 9 {
        return false;
    }
    let role: u8 = d[0];
    let other: u64 = read_u64(d, 1);
    if role != UNLINK_ROLE_LEFT && role != UNLINK_ROLE_RIGHT {
        return false;
    }
    let mut m = LeafPageMutator::<&[u8], &[u8]>::new(page);
    if role == UNLINK_ROLE_LEFT {
        m.set_rightlink(Some(other));
    } else {
        m.set_prev_page(Some(other));
    }
    m.set_lsn(lsn);
    true
}

/// The length of the high key is the one that the page's header gives.
proof fn lemma_int_room(page: Seq<u8>)
    requires
        int_wf(page),
    ensures
        int_room(int_view(page)) == PAGE_SIZE - int_used(int_view(page).keys)
            - crate::page::internal::int_hkl(page),
{
    crate::page::internal::lemma_int_used(page);
}

fn redo_downlink(page: &mut [u8], d: &[u8], lsn: Lsn) -> (done: bool)
    requires
        int_wf(old(page)@),
    ensures
        match downlink_inserted(int_view(old(page)@), d@, lsn) {
            Some(v) => done && int_wf(final(page)@) && int_view(final(page)@) == v,
            None => !done && final(page)@ == old(page)@,
        },
{
    if d.len() < 12 {
        return false;
    }
    let at: usize = read_u16(d, 0) as usize;
    let slen: usize = read_u16(d, 2) as usize;
    let child: u64 = read_u64(d, 4);
    let n: usize = read_u16(page, 2) as usize;
    if 12 + slen != d.len() || at > n {
        return false;
    }
    let sep: &[u8] = vstd::slice::slice_subrange(d, 12, d.len());
    proof {
        lemma_int_room(page@);
    }
    let mut m = InternalPageMutator::<&[u8]>::new(page);
    match m.insert_bytes(at, sep, child) {
        Ok(()) => {},
        Err(_) => {
            return false;
        },
    }
    m.set_lsn(lsn);
    true
}

fn redo_removal(page: &mut [u8], d: &[u8], lsn: Lsn) -> (done: bool)
    requires
        int_wf(old(page)@),
    ensures
        match downlink_removed(int_view(old(page)@), d@, lsn) {
            Some(v) => done && int_wf(final(page)@) && int_view(final(page)@) == v,
            None => !done && final(page)@ == old(page)@,
        },
{
    if d.len() != 4 {
        return false;
    }
    let at: usize = read_u16(d, 1) as usize;
    let n: usize = read_u16(page, 2) as usize;
    if d[0] != UNLINK_ROLE_PARENT || at >= n || (d[3] != UNLINK_KEEP_RIGHT && d[3]
        != UNLINK_KEEP_LEFT) {
        return false;
    }
    let keep: ChildSide = if d[3] == UNLINK_KEEP_RIGHT {
        ChildSide::Right
    } else {
        ChildSide::Left
    };
    let mut m = InternalPageMutator::<&[u8]>::new(page);
    m.remove_key_at(at, keep);
    m.set_lsn(lsn);
    true
}

fn redo_root(page: &mut [u8], d: &[u8], lsn: Lsn) -> (done: bool)
    requires
        old(page)@.len() == PAGE_SIZE,
        !leaf_wf(old(page)@),
        !int_wf(old(page)@),
    ensures
        match root_changed(plain(old(page)@), d@, lsn) {
            Some(p) => done && final(page)@.len() == PAGE_SIZE && state_of(final(page)@)
                == PageState::Raw(p),
            None => !done && final(page)@ == old(page)@,
        },
{
    proof {
        lemma_same_meta(page@);
    }
    if d.len() != 8 || crate::page::meta::read_root(page).is_none() {
        return false;
    }
    let ghost a = page@;
    let root: u64 = read_u64(d, 0);
    crate::page::meta::set_root(page, root);
    crate::page::meta::set_lsn(page, lsn);
    proof {
        let b = with_lsn(with_root(a, root), lsn);
        assert(page@ == b);
        assert(b[0] == META);
        assert(plain(b) =~= with_lsn(with_root(plain(a), root), lsn)) by {
            reveal(plain);
        }
    }
    true
}

/// Sets or clears a flag.
fn redo_flag(page: &mut [u8], kind: WalRecordType, lsn: Lsn, leaf: bool) -> (done: bool)
    requires
        if leaf {
            leaf_wf(old(page)@)
        } else {
            int_wf(old(page)@)
        },
    ensures
        final(page)@.len() == PAGE_SIZE,
        match changed(kind, None, lsn, state_of(old(page)@)) {
            Some(st) => done && state_of(final(page)@) == st,
            None => !done && final(page)@ == old(page)@,
        },
{
    let ghost a = page@;
    let ghost f = a[1];
    match kind {
        WalRecordType::InsertDownLink | WalRecordType::NewRoot => {
            crate::page::clear_incomplete_split(page);
        },
        WalRecordType::MarkHalfDead => {
            if !leaf {
                return false;
            }
            crate::page::set_half_dead(page);
        },
        _ => {
            return false;
        },
    }
    if leaf {
        proof {
            lemma_leaf_flags(a, page@[1]);
        }
        LeafPageMutator::<&[u8], &[u8]>::new(page).set_lsn(lsn);
    } else {
        proof {
            lemma_int_flags(a, page@[1]);
        }
        InternalPageMutator::<&[u8]>::new(page).set_lsn(lsn);
    }
    true
}

/// Repeats a block of a record on its page. Says whether the block fitted; where it did
/// not, the page stays as it was.
pub fn redo_page(page: &mut [u8], kind: WalRecordType, block: &LoggedBlock, lsn: Lsn) -> (done: bool)
    requires
        old(page)@.len() == PAGE_SIZE,
    ensures
        final(page)@.len() == PAGE_SIZE,
        match redone(kind, block.block(), lsn, state_of(old(page)@)) {
            Some(st) => done && state_of(final(page)@) == st,
            None => !done && final(page)@ == old(page)@,
        },
{
    proof {
        lemma_state(page@);
    }
    if lsn <= crate::page::page_lsn(page) {
        return true;
    }
    let ghost a = page@;
    if let Some(image) = &block.fpi {
        if image.len() != PAGE_SIZE {
            return false;
        }
        write_bytes(page, 0, image.as_slice());
        crate::page::set_lsn(page, lsn);
        assert(put(a, 0, image@) =~= image@);
        return true;
    }
    let leaf: bool = is_leaf(page);
    let internal: bool = is_internal(page);
    match &block.data {
        Some(data) => {
            let d: &[u8] = data.as_slice();
            if leaf {
                match kind {
                    WalRecordType::Insert => redo_insert(page, d, lsn),
                    WalRecordType::SetXMax => redo_xmax(page, d, lsn),
                    WalRecordType::UnlinkPage => redo_sibling(page, d, lsn),
                    _ => false,
                }
            } else if internal {
                match kind {
                    WalRecordType::InsertDownLink => redo_downlink(page, d, lsn),
                    WalRecordType::UnlinkPage => redo_removal(page, d, lsn),
                    _ => false,
                }
            } else {
                match kind {
                    WalRecordType::NewRoot => redo_root(page, d, lsn),
                    _ => false,
                }
            }
        },
        None => if leaf || internal {
            redo_flag(page, kind, lsn, leaf)
        } else {
            false
        },
    }
}

/// A page never loses a change: what is repeated on it leaves it with a log sequence number
/// that is no lower than the record's and than the one it had.
pub proof fn law_redo_moves_forward(kind: WalRecordType, b: BlockView, lsn: Lsn, st: PageState)
    requires
        st matches PageState::Raw(p) ==> p.len() == PAGE_SIZE,
        redone(kind, b, lsn, st) is Some,
    ensures
        redone(kind, b, lsn, st)->0.lsn() >= lsn,
        redone(kind, b, lsn, st)->0.lsn() >= st.lsn(),
        redone(kind, b, lsn, st)->0 matches PageState::Raw(p) ==> p.len() == PAGE_SIZE,
{
    let r = redone(kind, b, lsn, st)->0;
    if lsn > st.lsn() {
        match b.fpi {
            Some(image) => {
                lemma_state(with_lsn(image, lsn));
                crate::page::law_lsn(image, lsn);
                lemma_plain(with_lsn(image, lsn));
            },
            None => {
                if st is Raw {
                    let p = st->Raw_0;
                    let q = with_root(p, u64_at(b.data->0, 0));
                    crate::page::law_lsn(q, lsn);
                }
            },
        }
    }
}

/// Repeating a record that a page has seen changes nothing.
pub proof fn law_redo_twice_is_once(kind: WalRecordType, b: BlockView, lsn: Lsn, st: PageState)
    requires
        st matches PageState::Raw(p) ==> p.len() == PAGE_SIZE,
        redone(kind, b, lsn, st) is Some,
    ensures
        redone(kind, b, lsn, redone(kind, b, lsn, st)->0) == redone(kind, b, lsn, st),
{
    law_redo_moves_forward(kind, b, lsn, st);
}

/// The record that is logged when a row is inserted repeats that insertion.
pub proof fn law_logged_insert_is_redone(
    v: LeafView,
    page_id: PageId,
    slot: u16,
    key: Seq<u8>,
    val: Seq<u8>,
    xmin: u64,
    lsn: Lsn,
)
    requires
        v.lsn < lsn,
        slot <= v.rows.len(),
        key.len() <= 0xffff,
        val.len() <= 0xffff,
        row_need(key, val) <= v.free,
    ensures
        redone(
            WalRecordType::Insert,
            data_block(page_id, insert_payload(slot, key, val, xmin)),
            lsn,
            PageState::Leaf(v),
        ) == Some(
            PageState::Leaf(
                LeafView {
                    lsn,
                    rows: v.rows.insert(slot as int, Version { key, val, xmin, xmax: 0 }),
                    free: v.free - row_need(key, val),
                    ..v
                },
            ),
        ),
{
    law_insert_payload(slot, key, val, xmin);
}

/// The record that is logged when a row is deleted repeats that deletion.
pub proof fn law_logged_delete_is_redone(v: LeafView, page_id: PageId, slot: u16, xmax: u64, lsn: Lsn)
    requires
        v.lsn < lsn,
        slot < v.rows.len(),
    ensures
        redone(
            WalRecordType::SetXMax,
            data_block(page_id, xmax_payload(slot, xmax)),
            lsn,
            PageState::Leaf(v),
        ) == Some(
            PageState::Leaf(
                LeafView {
                    lsn,
                    rows: v.rows.update(
                        slot as int,
                        Version { xmax, ..v.rows[slot as int] },
                    ),
                    ..v
                },
            ),
        ),
{
    law_xmax_payload(slot, xmax);
}

/// The record that is logged when a downlink is inserted repeats that insertion.
pub proof fn law_logged_downlink_is_redone(
    v: InternalView,
    page_id: PageId,
    at: u16,
    sep: Seq<u8>,
    child: PageId,
    lsn: Lsn,
)
    requires
        v.lsn < lsn,
        at <= v.keys.len(),
        sep.len() <= 0xffff,
        12 + sep.len() <= int_room(v),
    ensures
        redone(
            WalRecordType::InsertDownLink,
            data_block(page_id, downlink_payload(at, sep, child)),
            lsn,
            PageState::Internal(v),
        ) == Some(
            PageState::Internal(
                InternalView {
                    lsn,
                    keys: v.keys.insert(at as int, sep),
                    children: v.children.insert(at + 1, child),
                    ..v
                },
            ),
        ),
{
    law_downlink_payload(at, sep, child);
}

/// The image of a page that a record holds replaces the page, whatever state it was in.
pub proof fn law_logged_image_is_redone(
    kind: WalRecordType,
    page_id: PageId,
    image: Seq<u8>,
    lsn: Lsn,
    st: PageState,
)
    requires
        st.lsn() < lsn,
        image.len() == PAGE_SIZE,
    ensures
        redone(kind, image_block(page_id, image), lsn, st) == Some(state_of(with_lsn(image, lsn))),
{
}

} // verus!
