//! The format of log records.
//!
//! A record starts with its log sequence number (8 bytes), its length (4), its type
//! (1), the number of its blocks (1), the transaction (8) and the length of its main
//! data (2). The blocks follow, then the main data, then the checksum (4) of all that
//! precedes it. A block holds a page id (8), flags (1), the length of its data (2), an
//! image of the page where the flags say so, and the data.

use crate::bytes::{
    lemma_stands_split, lemma_stands_u16, lemma_stands_u32, lemma_stands_u64, push_bytes, push_u16,
    push_u32, push_u64, read_u16, read_u32, read_u64, stands_at, u16_at, u16_bytes, u32_at,
    u32_bytes, u64_at, u64_bytes,
};
use crate::crc::{crc32, crc32_of};
use crate::error::WalError;
use crate::page::{Lsn, PageId, PAGE_SIZE};
use vstd::prelude::*;
use vstd::slice::slice_subrange;

verus! {

broadcast use crate::bytes::group_int_bytes;

/// The operation that a record stands for.
#[derive(Debug, Clone, Copy, PartialEq, Eq, Structural)]
pub enum WalRecordType {
    Insert,
    SetXMax,
    Commit,
    Abort,
    LeafSplit,
    InternalSPlit,
    InsertDownLink,
    NewRoot,
    PageCompact,
    MarkHalfDead,
    UnlinkPage,
    Checkpoint,
}

impl WalRecordType {
    /// The byte that stands for the type.
    pub open spec fn code(self) -> u8 {
        match self {
            WalRecordType::Insert => 0,
            WalRecordType::SetXMax => 1,
            WalRecordType::Commit => 2,
            WalRecordType::Abort => 3,
            WalRecordType::LeafSplit => 4,
            WalRecordType::InternalSPlit => 5,
            WalRecordType::InsertDownLink => 6,
            WalRecordType::NewRoot => 7,
            WalRecordType::PageCompact => 8,
            WalRecordType::MarkHalfDead => 9,
            WalRecordType::UnlinkPage => 10,
            WalRecordType::Checkpoint => 11,
        }
    }

    /// The byte that stands for the type.
    pub fn to_byte(self) -> (b: u8)
        ensures
            b == self.code(),
    {
        match self {
            WalRecordType::Insert => 0,
            WalRecordType::SetXMax => 1,
            WalRecordType::Commit => 2,
            WalRecordType::Abort => 3,
            WalRecordType::LeafSplit => 4,
            WalRecordType::InternalSPlit => 5,
            WalRecordType::InsertDownLink => 6,
            WalRecordType::NewRoot => 7,
            WalRecordType::PageCompact => 8,
            WalRecordType::MarkHalfDead => 9,
            WalRecordType::UnlinkPage => 10,
            WalRecordType::Checkpoint => 11,
        }
    }

    /// The type that a byte stands for.
    pub fn try_from(value: u8) -> (r: Result<Self, WalError>)
        ensures
            match r {
                Ok(t) => t.code() == value,
                Err(e) => value > 11 && e == WalError::InvalidEntryType(value),
            },
    {
        if value == 0 {
            Ok(WalRecordType::Insert)
        } else if value == 1 {
            Ok(WalRecordType::SetXMax)
        } else if value == 2 {
            Ok(WalRecordType::Commit)
        } else if value == 3 {
            Ok(WalRecordType::Abort)
        } else if value == 4 {
            Ok(WalRecordType::LeafSplit)
        } else if value == 5 {
            Ok(WalRecordType::InternalSPlit)
        } else if value == 6 {
            Ok(WalRecordType::InsertDownLink)
        } else if value == 7 {
            Ok(WalRecordType::NewRoot)
        } else if value == 8 {
            Ok(WalRecordType::PageCompact)
        } else if value == 9 {
            Ok(WalRecordType::MarkHalfDead)
        } else if value == 10 {
            Ok(WalRecordType::UnlinkPage)
        } else if value == 11 {
            Ok(WalRecordType::Checkpoint)
        } else {
            Err(WalError::InvalidEntryType(value))
        }
    }
}

/// Block flag: the block carries an image of the page.
pub const BLK_HAS_FPI: u8 = 1;

/// Block flag: the block carries data.
pub const BLK_HAS_DATA: u8 = 2;

/// Role of a block of an unlink record: the left sibling.
pub const UNLINK_ROLE_LEFT: u8 = 0;

/// Role of a block of an unlink record: the right sibling.
pub const UNLINK_ROLE_RIGHT: u8 = 1;

/// Role of a block of an unlink record: the parent.
pub const UNLINK_ROLE_PARENT: u8 = 2;

/// The parent keeps the child before the removed separator.
pub const UNLINK_KEEP_LEFT: u8 = 0;

/// The parent keeps the child after the removed separator.
pub const UNLINK_KEEP_RIGHT: u8 = 1;

/// A page that a record names, with what the record holds of it.
#[derive(Debug)]
pub struct Block<'a> {
    pub page_id: PageId,
    pub blk_flags: u8,
    /// An image of the whole page.
    pub fpi: Option<&'a [u8]>,
    pub data: Option<&'a [u8]>,
}

/// A record as it is read from the log.
#[derive(Debug)]
pub struct WalRecord<'a> {
    pub lsn: Lsn,
    pub rec_len: u32,
    pub entry_type: WalRecordType,
    pub txn_id: u64,
    pub blocks: Vec<Block<'a>>,
    pub main_data: Option<&'a [u8]>,
}

/// What a block holds.
#[verifier::ext_equal]
pub ghost struct BlockView {
    pub page_id: PageId,
    pub flags: u8,
    pub fpi: Option<Seq<u8>>,
    pub data: Option<Seq<u8>>,
}

/// What a record holds.
#[verifier::ext_equal]
pub ghost struct RecordView {
    pub lsn: Lsn,
    pub rec_len: u32,
    pub kind: WalRecordType,
    pub txn_id: u64,
    pub blocks: Seq<BlockView>,
    pub main: Option<Seq<u8>>,
}

/// The bytes of an optional part.
pub open spec fn part(o: Option<Seq<u8>>) -> Seq<u8> {
    match o {
        Some(b) => b,
        None => Seq::empty(),
    }
}

/// The bytes of an optional slice.
pub open spec fn seq_of(o: Option<&[u8]>) -> Option<Seq<u8>> {
    match o {
        Some(b) => Some(b@),
        None => None,
    }
}

impl<'a> Block<'a> {
    /// What the block holds.
    pub open spec fn block(&self) -> BlockView {
        BlockView {
            page_id: self.page_id,
            flags: self.blk_flags,
            fpi: seq_of(self.fpi),
            data: seq_of(self.data),
        }
    }
}

/// What the blocks hold.
pub open spec fn block_views(blocks: Seq<Block<'_>>) -> Seq<BlockView> {
    Seq::new(blocks.len(), |i: int| blocks[i].block())
}

impl<'a> WalRecord<'a> {
    /// What the record holds.
    pub open spec fn record(&self) -> RecordView {
        RecordView {
            lsn: self.lsn,
            rec_len: self.rec_len,
            kind: self.entry_type,
            txn_id: self.txn_id,
            blocks: block_views(self.blocks@),
            main: seq_of(self.main_data),
        }
    }
}

/// The bytes of a block.
pub open spec fn block_bytes(b: BlockView) -> Seq<u8> {
    u64_bytes(b.page_id) + seq![b.flags] + u16_bytes(part(b.data).len() as u16) + part(b.fpi)
        + part(b.data)
}

/// The bytes of the blocks behind each other.
pub open spec fn blocks_bytes(bs: Seq<BlockView>) -> Seq<u8>
    decreases bs.len(),
{
    if bs.len() == 0 {
        Seq::empty()
    } else {
        blocks_bytes(bs.drop_last()) + block_bytes(bs.last())
    }
}

/// The bytes of a record up to its blocks.
pub open spec fn header_bytes(r: RecordView) -> Seq<u8> {
    u64_bytes(r.lsn) + u32_bytes(r.rec_len) + seq![r.kind.code()] + seq![r.blocks.len() as u8]
        + u64_bytes(r.txn_id) + u16_bytes(part(r.main).len() as u16)
}

/// The bytes of a record that its checksum covers.
pub open spec fn body_bytes(r: RecordView) -> Seq<u8> {
    header_bytes(r) + blocks_bytes(r.blocks) + part(r.main)
}

/// The bytes of a record with the given checksum.
pub open spec fn sealed_bytes(r: RecordView, crc: u32) -> Seq<u8> {
    body_bytes(r) + u32_bytes(crc)
}

/// The bytes of a record.
pub open spec fn record_bytes(r: RecordView) -> Seq<u8> {
    sealed_bytes(r, crc32_of(body_bytes(r)))
}

/// The length of a block's bytes.
pub open spec fn block_size(b: BlockView) -> int {
    (11 + part(b.fpi).len() + part(b.data).len()) as int
}

/// The length of the blocks' bytes.
pub open spec fn blocks_size(bs: Seq<BlockView>) -> int
    decreases bs.len(),
{
    if bs.len() == 0 {
        0
    } else {
        blocks_size(bs.drop_last()) + block_size(bs.last())
    }
}

/// The length of a record's bytes.
pub open spec fn record_size(bs: Seq<BlockView>, main: Option<Seq<u8>>) -> int {
    28 + blocks_size(bs) + part(main).len()
}

/// The length is that of the bytes.
pub proof fn lemma_blocks_size(bs: Seq<BlockView>)
    ensures
        blocks_bytes(bs).len() == blocks_size(bs),
        0 <= 11 * bs.len() <= blocks_size(bs),
    decreases bs.len(),
{
    if bs.len() > 0 {
        lemma_blocks_size(bs.drop_last());
    }
}

/// The length is that of the bytes.
pub proof fn lemma_record_size(r: RecordView, crc: u32)
    ensures
        sealed_bytes(r, crc).len() == record_size(r.blocks, r.main),
        record_bytes(r).len() == record_size(r.blocks, r.main),
        header_bytes(r).len() == 24,
{
    lemma_blocks_size(r.blocks);
}

/// A block that can be read back: it has a page image exactly where its flags say so,
/// its data is not empty and fits the length field.
pub open spec fn block_readable(b: BlockView) -> bool {
    &&& b.flags % 2 == 1 <==> b.fpi is Some
    &&& b.fpi matches Some(f) ==> f.len() == PAGE_SIZE
    &&& b.data matches Some(d) ==> 0 < d.len() <= 0xffff
}

/// A record that can be read back.
pub open spec fn record_readable(r: RecordView) -> bool {
    &&& r.blocks.len() <= 255
    &&& forall|i: int| 0 <= i < r.blocks.len() ==> block_readable(#[trigger] r.blocks[i])
    &&& r.main matches Some(d) ==> 0 < d.len() <= 0xffff
}

/// The non-empty bytes of a range, or `None`.
pub open spec fn opt_range(s: Seq<u8>, lo: int, len: int) -> Option<Seq<u8>> {
    if len > 0 {
        Some(s.subrange(lo, lo + len))
    } else {
        None
    }
}

/// The block at `p` and where it ends, or `None` where the bytes end before it.
pub open spec fn parse_block(s: Seq<u8>, p: int) -> Option<(BlockView, int)> {
    if p + 11 > s.len() {
        None
    } else {
        let flags = s[p + 8];
        let dlen = u16_at(s, p + 9) as int;
        let f = if flags % 2 == 1 {
            PAGE_SIZE as int
        } else {
            0
        };
        if p + 11 + f + dlen > s.len() {
            None
        } else {
            Some(
                (
                    BlockView {
                        page_id: u64_at(s, p),
                        flags,
                        fpi: opt_range(s, p + 11, f),
                        data: opt_range(s, p + 11 + f, dlen),
                    },
                    p + 11 + f + dlen,
                ),
            )
        }
    }
}

/// The `k` blocks from `p` on and where the last of them ends, or `None` where the
/// bytes end before it.
pub open spec fn parse_blocks(s: Seq<u8>, p: int, k: int) -> Option<(Seq<BlockView>, int)>
    decreases k,
{
    if k <= 0 {
        Some((Seq::empty(), p))
    } else {
        match parse_blocks(s, p, k - 1) {
            None => None,
            Some((bs, q)) => match parse_block(s, q) {
                None => None,
                Some((b, e)) => Some((bs.push(b), e)),
            },
        }
    }
}

/// What a reader finds at a position of a segment.
pub ghost enum Found {
    /// The segment ends here.
    End,
    /// The segment ends inside the record.
    Short,
    /// The type byte stands for no type; it was the last byte read.
    BadType { code: u8, end: int },
    /// The checksum is not that of the record's bytes.
    BadSum { lsn: u64, expected: u32, actual: u32, end: int },
    /// A record, and where it ends.
    Record { record: RecordView, end: int },
}

/// The type whose code is `b`.
pub open spec fn kind_of(b: u8) -> WalRecordType
    recommends
        b <= 11,
{
    choose|t: WalRecordType| t.code() == b
}

/// What a reader finds at `p`.
pub open spec fn found_at(s: Seq<u8>, p: int) -> Found {
    if p >= s.len() {
        Found::End
    } else if p + 13 > s.len() {
        Found::Short
    } else if s[p + 12] > 11 {
        Found::BadType { code: s[p + 12], end: p + 13 }
    } else if p + 24 > s.len() {
        Found::Short
    } else {
        let mlen = u16_at(s, p + 22) as int;
        match parse_blocks(s, p + 24, s[p + 13] as int) {
            None => Found::Short,
            Some((blocks, q)) => if q + mlen + 4 > s.len() {
                Found::Short
            } else {
                let expected = u32_at(s, q + mlen);
                let actual = crc32_of(s.subrange(p, q + mlen));
                if expected != actual {
                    Found::BadSum { lsn: u64_at(s, p), expected, actual, end: q + mlen + 4 }
                } else {
                    Found::Record {
                        record: RecordView {
                            lsn: u64_at(s, p),
                            rec_len: u32_at(s, p + 8),
                            kind: kind_of(s[p + 12]),
                            txn_id: u64_at(s, p + 14),
                            blocks,
                            main: opt_range(s, q, mlen),
                        },
                        end: q + mlen + 4,
                    }
                }
            },
        }
    }
}

/// Types with equal codes are equal.
pub proof fn lemma_kind_of(t: WalRecordType)
    ensures
        kind_of(t.code()) == t,
        t.code() <= 11,
{
    let u = kind_of(t.code());
    assert(u.code() == t.code());
}

/// A block is read where its bytes stand.
proof fn lemma_parse_block(s: Seq<u8>, p: int, b: BlockView)
    requires
        stands_at(s, p, block_bytes(b)),
        block_readable(b),
    ensures
        parse_block(s, p) == Some((b, p + block_size(b))),
{
    let f = part(b.fpi);
    let d = part(b.data);
    let a1 = u64_bytes(b.page_id);
    let a2 = a1 + seq![b.flags];
    let a3 = a2 + u16_bytes(d.len() as u16);
    let a4 = a3 + f;
    lemma_stands_split(s, p, a4, d);
    lemma_stands_split(s, p, a3, f);
    lemma_stands_split(s, p, a2, u16_bytes(d.len() as u16));
    lemma_stands_split(s, p, a1, seq![b.flags]);
    lemma_stands_u64(s, p, b.page_id);
    assert(s[p + 8] == b.flags) by {
        assert(s.subrange(p + 8, p + 9)[0] == seq![b.flags][0]);
    }
    lemma_stands_u16(s, p + 9, d.len() as u16);
    assert(a4.len() == 11 + f.len());
}

/// Blocks are read where their bytes stand.
proof fn lemma_parse_blocks(s: Seq<u8>, p: int, bs: Seq<BlockView>)
    requires
        stands_at(s, p, blocks_bytes(bs)),
        forall|i: int| 0 <= i < bs.len() ==> block_readable(#[trigger] bs[i]),
    ensures
        parse_blocks(s, p, bs.len() as int) == Some((bs, p + blocks_size(bs))),
    decreases bs.len(),
{
    if bs.len() == 0 {
        assert(bs =~= Seq::<BlockView>::empty());
    } else {
        let init = bs.drop_last();
        lemma_stands_split(s, p, blocks_bytes(init), block_bytes(bs.last()));
        assert forall|i: int| 0 <= i < init.len() implies block_readable(#[trigger] init[i]) by {
            assert(block_readable(bs[i]));
        }
        lemma_parse_blocks(s, p, init);
        lemma_blocks_size(init);
        assert(block_readable(bs[bs.len() - 1]));
        lemma_parse_block(s, p + blocks_size(init), bs.last());
        assert(init.push(bs.last()) =~= bs);
    }
}

/// A record is read back where its bytes stand, whatever precedes and follows it.
pub proof fn law_record_is_read_back(s: Seq<u8>, p: int, r: RecordView)
    requires
        stands_at(s, p, record_bytes(r)),
        record_readable(r),
    ensures
        found_at(s, p) == (Found::Record { record: r, end: p + record_size(r.blocks, r.main) }),
{
    let m = part(r.main);
    let body = body_bytes(r);
    let crc = crc32_of(body);
    lemma_record_size(r, crc);
    lemma_blocks_size(r.blocks);
    lemma_stands_split(s, p, body, u32_bytes(crc));
    let h = header_bytes(r);
    let hb = h + blocks_bytes(r.blocks);
    lemma_stands_split(s, p, hb, m);
    lemma_stands_split(s, p, h, blocks_bytes(r.blocks));
    let h1 = u64_bytes(r.lsn);
    let h2 = h1 + u32_bytes(r.rec_len);
    let h3 = h2 + seq![r.kind.code()];
    let h4 = h3 + seq![r.blocks.len() as u8];
    let h5 = h4 + u64_bytes(r.txn_id);
    lemma_stands_split(s, p, h5, u16_bytes(m.len() as u16));
    lemma_stands_split(s, p, h4, u64_bytes(r.txn_id));
    lemma_stands_split(s, p, h3, seq![r.blocks.len() as u8]);
    lemma_stands_split(s, p, h2, seq![r.kind.code()]);
    lemma_stands_split(s, p, h1, u32_bytes(r.rec_len));
    lemma_stands_u64(s, p, r.lsn);
    lemma_stands_u32(s, p + 8, r.rec_len);
    assert(s[p + 12] == r.kind.code()) by {
        assert(s.subrange(p + 12, p + 13)[0] == seq![r.kind.code()][0]);
    }
    assert(s[p + 13] == r.blocks.len() as u8) by {
        assert(s.subrange(p + 13, p + 14)[0] == seq![r.blocks.len() as u8][0]);
    }
    lemma_stands_u64(s, p + 14, r.txn_id);
    lemma_stands_u16(s, p + 22, m.len() as u16);
    lemma_kind_of(r.kind);
    lemma_parse_blocks(s, p + 24, r.blocks);
    let q = p + 24 + blocks_size(r.blocks);
    lemma_stands_u32(s, q + m.len(), crc);
    assert(s.subrange(p, q + m.len()) == body);
    match r.main {
        Some(d) => {
            assert(opt_range(s, q, m.len() as int) == Some(d));
        },
        None => {},
    }
}

/// The length of a record with these blocks and this main data.
pub fn size_of_record(blocks: &[Block<'_>], main_data: Option<&[u8]>) -> (size: usize)
    requires
        record_size(block_views(blocks@), seq_of(main_data)) <= usize::MAX,
    ensures
        size == record_size(block_views(blocks@), seq_of(main_data)),
{
    let ghost bs = block_views(blocks@);
    let mut size: usize = 8 + 4 + 1 + 1 + 8 + 2 + 4;
    let mut i: usize = 0;
    while i < blocks.len()
        invariant
            i <= blocks@.len(),
            bs == block_views(blocks@),
            28 + blocks_size(bs) <= usize::MAX,
            size == 28 + blocks_size(bs.take(i as int)),
        decreases blocks@.len() - i,
    {
        proof {
            assert(bs.take(i + 1).drop_last() =~= bs.take(i as int));
            lemma_blocks_size_prefix(bs, i + 1);
        }
        size = size + 8 + 1 + 2;
        if let Some(fpi) = blocks[i].fpi {
            size = size + fpi.len();
        }
        if let Some(data) = blocks[i].data {
            size = size + data.len();
        }
        i = i + 1;
    }
    proof {
        assert(bs.take(i as int) =~= bs);
    }
    if let Some(data) = main_data {
        size = size + data.len();
    }
    size
}

/// The first blocks take no more bytes than all of them.
proof fn lemma_blocks_size_prefix(bs: Seq<BlockView>, i: int)
    requires
        0 <= i <= bs.len(),
    ensures
        0 <= blocks_size(bs.take(i)) <= blocks_size(bs),
    decreases bs.len() - i,
{
    lemma_blocks_size(bs.take(i));
    if i == bs.len() {
        assert(bs.take(i) =~= bs);
    } else {
        lemma_blocks_size_prefix(bs, i + 1);
        assert(bs.take(i + 1).drop_last() =~= bs.take(i));
    }
}

/// Appends the bytes of a block.
fn push_block(out: &mut Vec<u8>, block: &Block<'_>)
    ensures
        final(out)@ == old(out)@ + block_bytes(block.block()),
{
    let ghost start = out@;
    push_u64(out, block.page_id);
    out.push(block.blk_flags);
    let data_len: usize = match block.data {
        Some(d) => d.len(),
        None => 0,
    };
    push_u16(out, data_len as u16);
    if let Some(fpi) = block.fpi {
        push_bytes(out, fpi);
    }
    if let Some(data) = block.data {
        push_bytes(out, data);
    }
    proof {
        assert(out@ =~= start + block_bytes(block.block()));
    }
}

/// The bytes of a record that its checksum covers.
pub fn encode_body(
    lsn: Lsn,
    rec_len: u32,
    entry_type: WalRecordType,
    txn_id: u64,
    blocks: &[Block<'_>],
    main_data: Option<&[u8]>,
) -> (out: Vec<u8>)
    ensures
        out@ == body_bytes(
            RecordView {
                lsn,
                rec_len,
                kind: entry_type,
                txn_id,
                blocks: block_views(blocks@),
                main: seq_of(main_data),
            },
        ),
{
    let ghost r = RecordView {
        lsn,
        rec_len,
        kind: entry_type,
        txn_id,
        blocks: block_views(blocks@),
        main: seq_of(main_data),
    };
    let ghost bs = r.blocks;
    let mut out: Vec<u8> = Vec::new();
    push_u64(&mut out, lsn);
    push_u32(&mut out, rec_len);
    out.push(entry_type.to_byte());
    out.push(blocks.len() as u8);
    push_u64(&mut out, txn_id);
    let main_len: usize = match main_data {
        Some(d) => d.len(),
        None => 0,
    };
    push_u16(&mut out, main_len as u16);
    assert(out@ =~= header_bytes(r));
    let mut i: usize = 0;
    assert(bs.take(0) =~= Seq::<BlockView>::empty());
    assert(out@ =~= header_bytes(r) + blocks_bytes(bs.take(0)));
    while i < blocks.len()
        invariant
            i <= blocks@.len(),
            bs == block_views(blocks@),
            out@ == header_bytes(r) + blocks_bytes(bs.take(i as int)),
        decreases blocks@.len() - i,
    {
        push_block(&mut out, &blocks[i]);
        proof {
            assert(bs.take(i + 1).drop_last() =~= bs.take(i as int));
            assert(header_bytes(r) + blocks_bytes(bs.take(i as int)) + block_bytes(bs[i as int])
                =~= header_bytes(r) + (blocks_bytes(bs.take(i as int)) + block_bytes(
                bs[i as int],
            )));
        }
        i = i + 1;
    }
    proof {
        assert(bs.take(i as int) =~= bs);
    }
    if let Some(data) = main_data {
        push_bytes(&mut out, data);
    } else {
        assert(out@ =~= out@ + Seq::<u8>::empty());
    }
    out
}

/// Appends the checksum to the bytes that it covers.
pub fn seal(body: Vec<u8>, crc: u32) -> (out: Vec<u8>)
    ensures
        out@ == body@ + u32_bytes(crc),
{
    let mut out = body;
    push_u32(&mut out, crc);
    out
}

/// The bytes of a record.
pub fn encode_record(
    lsn: Lsn,
    rec_len: u32,
    entry_type: WalRecordType,
    txn_id: u64,
    blocks: &[Block<'_>],
    main_data: Option<&[u8]>,
) -> (out: Vec<u8>)
    ensures
        out@ == record_bytes(
            RecordView {
                lsn,
                rec_len,
                kind: entry_type,
                txn_id,
                blocks: block_views(blocks@),
                main: seq_of(main_data),
            },
        ),
{
    let body: Vec<u8> = encode_body(lsn, rec_len, entry_type, txn_id, blocks, main_data);
    let crc: u32 = crc32(body.as_slice());
    seal(body, crc)
}

/// The bytes `lo..lo + len`, or `None` where there are none.
fn range_of<'a>(data: &'a [u8], lo: usize, len: usize) -> (r: Option<&'a [u8]>)
    requires
        lo + len <= data@.len(),
        lo + len <= usize::MAX,
    ensures
        seq_of(r) == opt_range(data@, lo as int, len as int),
{
    if len > 0 {
        Some(slice_subrange(data, lo, lo + len))
    } else {
        None
    }
}

/// Reads the block at `p`.
fn read_block<'a>(data: &'a [u8], p: usize) -> (r: Option<(Block<'a>, usize)>)
    requires
        p <= data.len(),
    ensures
        match parse_block(data@, p as int) {
            None => r is None,
            Some((b, e)) => r matches Some((block, end)) && block.block() == b && end == e && e
                <= data@.len(),
        },
{
    let n: usize = data.len();
    if n - p < 11 {
        return None;
    }
    let page_id: u64 = read_u64(data, p);
    let blk_flags: u8 = data[p + 8];
    let data_len: usize = read_u16(data, p + 9) as usize;
    let fpi_len: usize = if blk_flags % 2 == 1 {
        PAGE_SIZE
    } else {
        0
    };
    if n - p - 11 < fpi_len || n - p - 11 - fpi_len < data_len {
        return None;
    }
    let fpi = range_of(data, p + 11, fpi_len);
    let payload = range_of(data, p + 11 + fpi_len, data_len);
    Some((Block { page_id, blk_flags, fpi, data: payload }, p + 11 + fpi_len + data_len))
}

/// Reads the `count` blocks from `p` on.
fn read_blocks<'a>(data: &'a [u8], p: usize, count: u8) -> (r: Option<(Vec<Block<'a>>, usize)>)
    requires
        p <= data.len(),
    ensures
        match parse_blocks(data@, p as int, count as int) {
            None => r is None,
            Some((bs, e)) => r matches Some((blocks, end)) && block_views(blocks@) == bs && end == e
                && e <= data@.len(),
        },
{
    let mut blocks: Vec<Block<'a>> = Vec::new();
    let mut q: usize = p;
    let mut i: u8 = 0;
    assert(block_views(blocks@) =~= Seq::<BlockView>::empty());
    while i < count
        invariant
            i <= count,
            q <= data.len(),
            parse_blocks(data@, p as int, i as int) == Some((block_views(blocks@), q as int)),
        decreases count - i,
    {
        match read_block(data, q) {
            None => {
                proof {
                    lemma_parse_blocks_stuck(data@, p as int, i + 1, count as int);
                }
                return None;
            },
            Some((block, end)) => {
                let ghost before = blocks@;
                blocks.push(block);
                assert(block_views(blocks@) =~= block_views(before).push(block.block()));
                q = end;
            },
        }
        i = i + 1;
    }
    Some((blocks, q))
}

/// Blocks behind one that cannot be read cannot be read either.
proof fn lemma_parse_blocks_stuck(s: Seq<u8>, p: int, i: int, k: int)
    requires
        0 <= i <= k,
        parse_blocks(s, p, i) is None,
    ensures
        parse_blocks(s, p, k) is None,
    decreases k,
{
    if i < k {
        lemma_parse_blocks_stuck(s, p, i, k - 1);
    }
}

/// What reading at a position gives: nothing at the end of a segment, or a failure, or
/// a record; the last two with the position behind the bytes read.
pub enum ReadOutcome<'a> {
    End,
    Failed { error: WalError, end: usize },
    Record { record: WalRecord<'a>, end: usize },
}

/// The outcome tells what a reader finds. A record that the segment cuts short ends
/// with the segment.
pub open spec fn tells(r: ReadOutcome<'_>, f: Found, len: int) -> bool {
    match f {
        Found::End => r is End,
        Found::Short => r matches ReadOutcome::Failed { error, end } && error == WalError::Io(
            crate::error::IoError::UnexpectedEof,
        ) && end == len,
        Found::BadType { code, end: e } => r matches ReadOutcome::Failed { error, end } && error
            == WalError::InvalidEntryType(code) && end == e,
        Found::BadSum { lsn, expected, actual, end: e } => r matches ReadOutcome::Failed {
            error,
            end,
        } && error == (WalError::ChecksumMismatch { lsn, expected, actual }) && end == e,
        Found::Record { record: v, end: e } => r matches ReadOutcome::Record { record, end }
            && record.record() == v && end == e,
    }
}

/// Accepts a record whose stored checksum is the computed one.
pub fn settle<'a>(record: WalRecord<'a>, end: usize, expected: u32, actual: u32) -> (r: ReadOutcome<
    'a,
>)
    ensures
        expected == actual ==> r == (ReadOutcome::Record { record, end }),
        expected != actual ==> r == (ReadOutcome::Failed {
            error: WalError::ChecksumMismatch { lsn: record.lsn, expected, actual },
            end,
        }),
{
    if actual != expected {
        return ReadOutcome::Failed {
            error: WalError::ChecksumMismatch { lsn: record.lsn, expected, actual },
            end,
        };
    }
    ReadOutcome::Record { record, end }
}

/// Reads the record at `pos` of a segment and checks it.
pub fn read_record<'a>(data: &'a [u8], pos: usize) -> (r: ReadOutcome<'a>)
    requires
        pos <= data.len(),
    ensures
        tells(r, found_at(data@, pos as int), data@.len() as int),
        r matches ReadOutcome::Failed { error, end } ==> pos < end <= data@.len(),
        r matches ReadOutcome::Record { record, end } ==> pos < end <= data@.len(),
{
    let n: usize = data.len();
    let eof = WalError::Io(crate::error::IoError::UnexpectedEof);
    if pos >= n {
        return ReadOutcome::End;
    }
    if n - pos < 13 {
        return ReadOutcome::Failed { error: eof, end: n };
    }
    let lsn: u64 = read_u64(data, pos);
    let rec_len: u32 = read_u32(data, pos + 8);
    let entry_type = match WalRecordType::try_from(data[pos + 12]) {
        Ok(t) => t,
        Err(e) => {
            return ReadOutcome::Failed { error: e, end: pos + 13 };
        },
    };
    proof {
        lemma_kind_of(entry_type);
    }
    if n - pos < 24 {
        return ReadOutcome::Failed { error: eof, end: n };
    }
    let nblocks: u8 = data[pos + 13];
    let txn_id: u64 = read_u64(data, pos + 14);
    let main_len: usize = read_u16(data, pos + 22) as usize;
    let (blocks, q) = match read_blocks(data, pos + 24, nblocks) {
        None => {
            return ReadOutcome::Failed { error: eof, end: n };
        },
        Some(b) => b,
    };
    proof {
        lemma_parse_blocks_end(data@, pos + 24, nblocks as int);
    }
    if n - q < main_len || n - q - main_len < 4 {
        return ReadOutcome::Failed { error: eof, end: n };
    }
    let main_data = range_of(data, q, main_len);
    let expected: u32 = read_u32(data, q + main_len);
    let actual: u32 = crc32(slice_subrange(data, pos, q + main_len));
    let record = WalRecord { lsn, rec_len, entry_type, txn_id, blocks, main_data };
    settle(record, q + main_len + 4, expected, actual)
}

/// Blocks end behind where they start.
proof fn lemma_parse_blocks_end(s: Seq<u8>, p: int, k: int)
    ensures
        parse_blocks(s, p, k) matches Some((bs, e)) ==> p <= e,
    decreases k,
{
    if k > 0 {
        lemma_parse_blocks_end(s, p, k - 1);
    }
}

} // verus!
