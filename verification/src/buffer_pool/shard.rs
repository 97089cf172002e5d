//! A shard of the buffer pool: a fixed number of frames, each of which holds a page or
//! is free.

use crate::buffer_pool::ledger::{
    lemma_least_update, lemma_least_without, search, stalled, Found, Ledger, Search,
};
use crate::buffer_pool::replacer::ClockReplacer;
use crate::bytes::u64_at;
use crate::constants::INVALID_FRAME_ID;
use crate::disk::{DiskManager, DiskView};
use crate::error::{BufferPoolError, DiskError, InternalFault};
use crate::page::{
    intact, law_sealed_is_intact, law_sealed_is_same_page, lemma_plain, page_lsn, plain, sealed,
    stamp_checksum, verify_checksum, zero_page, Lsn, PAGE_SIZE,
};
use crate::wal::{
    flushed_up_to, lemma_log_chain, lemma_log_still, lemma_ready, log_step, Wal, WalView,
};
use std::collections::HashMap;
use vstd::prelude::*;
use vstd::std_specs::hash::group_hash_axioms;

verus! {

broadcast use group_hash_axioms;

/// The bytes of one page.
pub struct PageData(pub Vec<u8>);

impl PageData {
    /// A page of zeros.
    pub fn new() -> (p: Self)
        ensures
            p.0@ == zero_page(),
    {
        let p = PageData(vec![0u8; PAGE_SIZE]);
        assert(p.0@ =~= zero_page());
        p
    }
}

impl Default for PageData {
    fn default() -> (p: Self)
        ensures
            p.0@ == zero_page(),
    {
        Self::new()
    }
}

/// What the pool knows of a frame.
#[derive(Debug, Clone, Copy)]
pub struct FrameMetadata {
    /// The page in the frame, or the id of no page.
    pub page_id: u64,
    pub pin_count: u64,
    pub is_dirty: bool,
    /// The page's bytes are not there yet.
    pub loading: bool,
    /// The log sequence number of the first change since the page was last written.
    pub rec_lsn: Option<Lsn>,
}

/// The bookkeeping of a shard.
pub struct ShardInner {
    pub metadata: Vec<FrameMetadata>,
    pub page_table: HashMap<u64, usize>,
    pub free_list: Vec<usize>,
    pub replacer: ClockReplacer,
    pub min_rec_lsn: Option<Lsn>,
}

/// A shard.
pub struct BufferPoolShard {
    pub pages: Vec<PageData>,
    pub inner: ShardInner,
    pub last_checkpoint_redo_point: Lsn,
}

/// The least log sequence number at which a dirty frame among the first `n` was first
/// changed.
pub open spec fn least_rec_lsn(frames: Seq<FrameMetadata>, n: int) -> Option<Lsn>
    decreases n,
{
    if n <= 0 {
        None
    } else {
        let rest = least_rec_lsn(frames, n - 1);
        let m = frames[n - 1];
        if !m.is_dirty || m.rec_lsn is None {
            rest
        } else if rest is None || m.rec_lsn->0 < rest->0 {
            m.rec_lsn
        } else {
            rest
        }
    }
}

/// The least number is that of a dirty frame, and no dirty frame has a lesser one: repeating
/// the log from there on repeats every change that the data file may lack.
pub proof fn law_least_rec_lsn(frames: Seq<FrameMetadata>, n: int)
    requires
        0 <= n <= frames.len(),
    ensures
        forall|f: int|
            0 <= f < n && (#[trigger] frames[f]).is_dirty && frames[f].rec_lsn is Some ==> (
            least_rec_lsn(frames, n) matches Some(x) && x <= frames[f].rec_lsn->0),
        least_rec_lsn(frames, n) matches Some(x) ==> exists|f: int|
            0 <= f < n && (#[trigger] frames[f]).is_dirty && frames[f].rec_lsn == Some(x),
    decreases n,
{
    if n > 0 {
        law_least_rec_lsn(frames, n - 1);
        let m = frames[n - 1];
    }
}

/// The number of pins on the first `n` frames.
pub open spec fn pins_of(frames: Seq<FrameMetadata>, n: int) -> int
    decreases n,
{
    if n <= 0 {
        0
    } else {
        pins_of(frames, n - 1) + frames[n - 1].pin_count
    }
}

/// The number of dirty frames among the first `n`.
pub open spec fn dirty_of(frames: Seq<FrameMetadata>, n: int) -> int
    decreases n,
{
    if n <= 0 {
        0
    } else {
        dirty_of(frames, n - 1) + (if frames[n - 1].is_dirty {
            1int
        } else {
            0
        })
    }
}

/// Changing one frame changes the sums by what changed in it.
pub proof fn lemma_sums_update(frames: Seq<FrameMetadata>, f: int, m: FrameMetadata, n: int)
    requires
        0 <= f < frames.len(),
        0 <= n <= frames.len(),
    ensures
        pins_of(frames.update(f, m), n) == pins_of(frames, n) + (if f < n {
            m.pin_count - frames[f].pin_count
        } else {
            0
        }),
        dirty_of(frames.update(f, m), n) == dirty_of(frames, n) + (if f < n {
            (if m.is_dirty {
                1int
            } else {
                0
            }) - (if frames[f].is_dirty {
                1int
            } else {
                0
            })
        } else {
            0
        }),
        dirty_of(frames, n) >= 0,
        pins_of(frames, n) >= 0,
    decreases n,
{
    if n > 0 {
        lemma_sums_update(frames, f, m, n - 1);
    }
}

/// Where every frame is pinned, there are at least as many pins as frames.
pub proof fn lemma_all_pinned(frames: Seq<FrameMetadata>, n: int)
    requires
        0 <= n <= frames.len(),
        forall|i: int| 0 <= i < n ==> (#[trigger] frames[i]).pin_count > 0,
    ensures
        pins_of(frames, n) >= n,
    decreases n,
{
    if n > 0 {
        lemma_all_pinned(frames, n - 1);
    }
}

impl ShardInner {
    /// The page is in a frame.
    pub open spec fn resident(&self, id: u64) -> bool {
        self.page_table@.dom().contains(id)
    }

    /// The bookkeeping of one frame is consistent.
    pub open spec fn frame_wf(&self, f: int) -> bool {
        let m = self.metadata@[f];
        &&& m.page_id != INVALID_FRAME_ID ==> self.page_table@.dom().contains(m.page_id)
            && self.page_table@[m.page_id] == f
        &&& m.page_id == INVALID_FRAME_ID ==> m.pin_count == 0 && !m.is_dirty
            && self.free_list@.contains(f as usize)
        &&& !m.is_dirty ==> m.rec_lsn is None
        &&& self.replacer@.evictable[f] == (m.page_id != INVALID_FRAME_ID && m.pin_count == 0)
    }

    /// The page table and the frames agree; free frames are listed once; a frame may be
    /// evicted where it holds a page that nobody has pinned; a page that is clean has no
    /// record that it waits for, and the least of those of the dirty pages is known.
    pub open spec fn wf(&self) -> bool {
        &&& self.tables_wf()
        &&& forall|f: int| 0 <= f < self.metadata@.len() ==> #[trigger] self.frame_wf(f)
    }

    /// Like `wf`, but the clock may not know yet that the frame may be evicted.
    pub open spec fn wf_but(&self, f: int) -> bool {
        let m = self.metadata@[f];
        &&& self.tables_wf()
        &&& 0 <= f < self.metadata@.len()
        &&& m.page_id != INVALID_FRAME_ID
        &&& !m.is_dirty ==> m.rec_lsn is None
        &&& self.page_table@.dom().contains(m.page_id)
        &&& self.page_table@[m.page_id] == f
        &&& self.replacer@.evictable[f] ==> m.pin_count == 0
        &&& m.pin_count > 0 ==> !self.replacer@.evictable[f]
        &&& forall|g: int|
            0 <= g < self.metadata@.len() && g != f ==> #[trigger] self.frame_wf(g)
    }

    /// The page table and the frames agree, and free frames are listed once.
    pub open spec fn tables_wf(&self) -> bool {
        &&& self.replacer.wf()
        &&& self.replacer@.used.len() == self.metadata@.len()
        &&& self.metadata@.len() <= usize::MAX
        &&& self.min_rec_lsn == least_rec_lsn(self.metadata@, self.metadata@.len() as int)
        &&& forall|id: u64| #[trigger]
            self.page_table@.dom().contains(id) ==> id != INVALID_FRAME_ID && 0
                <= self.page_table@[id] < self.metadata@.len()
                && self.metadata@[self.page_table@[id] as int].page_id == id
        &&& self.free_list@.no_duplicates()
        &&& forall|i: int|
            0 <= i < self.free_list@.len() ==> (#[trigger] self.free_list@[i])
                < self.metadata@.len() && self.metadata@[self.free_list@[i] as int].page_id
                == INVALID_FRAME_ID
    }

    /// The bookkeeping as a value.
    pub open spec fn ledger(&self) -> Ledger {
        Ledger {
            frames: self.metadata@,
            table: self.page_table@,
            free: self.free_list@,
            clock: self.replacer@,
            least: self.min_rec_lsn,
        }
    }

    /// What is known of the page's frame.
    pub open spec fn meta(&self, id: u64) -> FrameMetadata {
        self.metadata@[self.page_table@[id] as int]
    }

    /// How often the page is pinned.
    pub open spec fn pins(&self, id: u64) -> int {
        if self.resident(id) {
            self.meta(id).pin_count as int
        } else {
            0
        }
    }
}

impl BufferPoolShard {
    /// The bookkeeping is consistent, and every frame has the size of a page.
    pub open spec fn wf(&self) -> bool {
        &&& self.inner.wf()
        &&& self.pages@.len() == self.inner.metadata@.len()
        &&& forall|f: int|
            0 <= f < self.pages@.len() ==> (#[trigger] self.pages@[f]).0@.len() == PAGE_SIZE
    }

    /// No page is being loaded.
    pub open spec fn settled(&self) -> bool {
        forall|f: int|
            0 <= f < self.inner.metadata@.len() ==> !(#[trigger] self.inner.metadata@[f]).loading
    }

    /// The bytes in the page's frame.
    pub open spec fn cached(&self, id: u64) -> Seq<u8> {
        self.pages@[self.inner.page_table@[id] as int].0@
    }

    /// The page's bytes are in a frame.
    pub open spec fn loaded(&self, id: u64) -> bool {
        self.inner.resident(id) && !self.inner.meta(id).loading
    }

    /// The page, wherever it is.
    pub open spec fn page(&self, disk: DiskView, id: u64) -> Seq<u8> {
        if self.loaded(id) {
            plain(self.cached(id))
        } else {
            plain(disk.content(id))
        }
    }

    /// A frame that is not dirty holds what is on disk.
    pub open spec fn clean(&self, disk: DiskView) -> bool {
        forall|id: u64| #[trigger]
            self.inner.resident(id) && !self.inner.meta(id).loading && !self.inner.meta(id).is_dirty
                ==> plain(self.cached(id)) == plain(disk.content(id))
    }

    /// The number of pins on the shard's frames.
    pub open spec fn pin_total(&self) -> int {
        pins_of(self.inner.metadata@, self.inner.metadata@.len() as int)
    }

    /// Every page in the shard has an id below the limit.
    pub open spec fn below(&self, limit: u64) -> bool {
        forall|id: u64| #[trigger] self.inner.resident(id) ==> id < limit
    }
}

/// The data file is in order and its pages have the right size.
pub open spec fn disk_ok(d: &DiskManager) -> bool {
    d.wf() && d@.page_size == PAGE_SIZE
}

/// The log is in order and no flush of it is under way.
pub open spec fn wal_ok(w: &Wal) -> bool {
    w.wf() && !w@.flushing
}

/// The data file has the page, and its bytes are not damaged.
pub open spec fn stored(d: DiskView, id: u64) -> bool {
    id < d.count && intact(d.content(id))
}

/// The page can be read back whatever happens to its frame: it is dirty there, or the data
/// file has it.
pub open spec fn safe(s: BufferPoolShard, d: DiskView, id: u64) -> bool {
    s.inner.resident(id) && s.inner.meta(id).is_dirty || stored(d, id)
}

/// Only the bookkeeping changed, if anything did.
pub open spec fn same_bytes(a: BufferPoolShard, b: BufferPoolShard) -> bool {
    &&& b.pages@ == a.pages@
    &&& b.last_checkpoint_redo_point == a.last_checkpoint_redo_point
}

/// Every page that could be read back still can.
pub open spec fn still_safe(
    a: BufferPoolShard,
    da: DiskView,
    b: BufferPoolShard,
    db: DiskView,
) -> bool {
    forall|id: u64| safe(a, da, id) ==> #[trigger] safe(b, db, id)
}

/// A step of the pool leaves the data file usable, and what was written undamaged stays so.
pub open spec fn disk_step(before: DiskView, after: DiskView) -> bool {
    &&& after.broken == before.broken
    &&& after.page_size == before.page_size
    &&& before.count <= after.count
    &&& forall|id: u64| stored(before, id) ==> #[trigger] stored(after, id)
}

impl ShardInner {
    /// A frame for a page: a free one, or the one that the clock chooses.
    pub fn find_victim_frame_id(&mut self) -> (r: Result<usize, BufferPoolError>)
        requires
            old(self).wf(),
        ensures
            ({
                let (v, after) = old(self).ledger().victim();
                &&& final(self).ledger() == after
                &&& match v {
                    Some(i) => r matches Ok(f) && f == i,
                    None => r == Err::<usize, BufferPoolError>(BufferPoolError::NoEvictableFrames),
                }
            }),
            final(self).metadata@ == old(self).metadata@,
            final(self).page_table@ == old(self).page_table@,
            final(self).min_rec_lsn == old(self).min_rec_lsn,
            final(self).replacer.wf(),
            final(self).replacer@.used.len() == old(self).replacer@.used.len(),
            if old(self).free_list@.len() > 0 {
                &&& r == Ok::<usize, BufferPoolError>(old(self).free_list@.last())
                &&& final(self).free_list@ == old(self).free_list@.drop_last()
                &&& final(self).replacer@ == old(self).replacer@
            } else {
                &&& final(self).free_list@ == old(self).free_list@
                &&& r is Ok <==> old(self).replacer@.has_victim()
                &&& r is Err ==> r == Err::<usize, BufferPoolError>(
                    BufferPoolError::NoEvictableFrames,
                ) && final(self).replacer@.evictable == old(self).replacer@.evictable
                &&& r matches Ok(f) ==> f < old(self).metadata@.len()
                    && old(self).replacer@.evictable[f as int]
                    && final(self).replacer@.evictable == old(self).replacer@.evictable.update(
                    f as int,
                    false,
                )
            },
            r is Err ==> final(self).wf(),
    {
        let popped = self.free_list.pop();
        let r = if let Some(id) = popped {
            Ok(id)
        } else {
            self.replacer.victim()
        };
        proof {
            assert(self.ledger() =~= old(self).ledger().victim().1);
            if r is Err {
                assert(self.free_list@ =~= old(self).free_list@);
                assert forall|f: int| 0 <= f < self.metadata@.len() implies #[trigger] self.frame_wf(
                    f,
                ) by {
                    assert(old(self).frame_wf(f));
                }
            }
        }
        r
    }

    /// Notes that the frame of a resident page was changed.
    fn set_meta(&mut self, f: usize, m: FrameMetadata)
        requires
            f < old(self).metadata@.len(),
        ensures
            final(self).metadata@ == old(self).metadata@.update(f as int, m),
            final(self).page_table == old(self).page_table,
            final(self).free_list == old(self).free_list,
            final(self).replacer == old(self).replacer,
            final(self).min_rec_lsn == old(self).min_rec_lsn,
    {
        self.metadata.set(f, m);
    }

    /// The least log sequence number at which a dirty page was first changed.
    fn find_least_rec_lsn(&self) -> (least: Option<Lsn>)
        ensures
            least == least_rec_lsn(self.metadata@, self.metadata@.len() as int),
    {
        let mut least: Option<Lsn> = None;
        let mut i: usize = 0;
        while i < self.metadata.len()
            invariant
                i <= self.metadata@.len(),
                least == least_rec_lsn(self.metadata@, i as int),
            decreases self.metadata@.len() - i,
        {
            let m = self.metadata[i];
            if m.is_dirty {
                if let Some(lsn) = m.rec_lsn {
                    least = match least {
                        Some(l) => if lsn < l {
                            Some(lsn)
                        } else {
                            Some(l)
                        },
                        None => Some(lsn),
                    };
                }
            }
            i = i + 1;
        }
        least
    }
}

/// The bookkeeping after the page lost a pin.
pub open spec fn released(m: FrameMetadata, is_dirty: bool) -> FrameMetadata {
    FrameMetadata {
        pin_count: (m.pin_count - 1) as u64,
        is_dirty: m.is_dirty || is_dirty,
        ..m
    }
}

/// Everything but one frame's metadata and its evictability is as before.
proof fn lemma_frame_change(a: ShardInner, b: ShardInner, f: int, m: FrameMetadata)
    requires
        a.wf() && a.metadata@[f].page_id != INVALID_FRAME_ID || a.wf_but(f),
        0 <= f < a.metadata@.len(),
        m.page_id == a.metadata@[f].page_id,
        m.page_id != INVALID_FRAME_ID,
        !m.is_dirty ==> m.rec_lsn is None,
        b.metadata@ == a.metadata@.update(f, m),
        b.page_table@ == a.page_table@,
        b.free_list@ == a.free_list@,
        b.min_rec_lsn == least_rec_lsn(b.metadata@, b.metadata@.len() as int),
        b.replacer.wf(),
        b.replacer@.evictable == a.replacer@.evictable.update(f, m.pin_count == 0),
        b.replacer@.used.len() == a.replacer@.used.len(),
    ensures
        b.wf(),
{
    if a.wf() {
        assert(a.frame_wf(f));
    }
    assert forall|g: int| 0 <= g < b.metadata@.len() implies #[trigger] b.frame_wf(g) by {
        if g != f {
            assert(a.frame_wf(g));
        }
    }
    assert forall|i: int| 0 <= i < b.free_list@.len() implies (#[trigger] b.free_list@[i])
        < b.metadata@.len() && b.metadata@[b.free_list@[i] as int].page_id == INVALID_FRAME_ID by {
        assert(a.free_list@[i] < a.metadata@.len());
    }
}

/// What is known of a frame that no page was in yet.
pub open spec fn free_frame() -> FrameMetadata {
    FrameMetadata {
        page_id: INVALID_FRAME_ID,
        pin_count: 0,
        is_dirty: false,
        loading: false,
        rec_lsn: None,
    }
}

/// The bookkeeping of a shard of free frames.
pub open spec fn empty_ledger(size: nat) -> Ledger {
    Ledger {
        frames: Seq::new(size, |i: int| free_frame()),
        table: Map::empty(),
        free: Seq::new(size, |i: int| (size - 1 - i) as usize),
        clock: crate::buffer_pool::replacer::ClockView {
            hand: 0,
            used: Seq::new(size, |i: int| false),
            evictable: Seq::new(size, |i: int| false),
        },
        least: None,
    }
}

impl BufferPoolShard {
    /// A shard of `size` free frames.
    pub fn new(size: usize) -> (s: Self)
        requires
            2 * size <= usize::MAX,
        ensures
            s.wf(),
            s.settled(),
            s.pages@.len() == size,
            s.inner.page_table@ == Map::<u64, usize>::empty(),
            s.pin_total() == 0,
            s.inner.min_rec_lsn is None,
            s.inner.ledger() == empty_ledger(size as nat),
            forall|f: int| 0 <= f < size ==> (#[trigger] s.pages@[f]).0@ == zero_page(),
            s.last_checkpoint_redo_point == 0,
    {
        let mut metadata: Vec<FrameMetadata> = Vec::new();
        let mut free_list: Vec<usize> = Vec::new();
        let mut pages: Vec<PageData> = Vec::new();
        let mut frame_id: usize = 0;
        while frame_id < size
            invariant
                frame_id <= size,
                metadata@.len() == frame_id,
                free_list@.len() == frame_id,
                pages@.len() == frame_id,
                pins_of(metadata@, frame_id as int) == 0,
                least_rec_lsn(metadata@, frame_id as int) is None,
                forall|i: int| 0 <= i < frame_id ==> #[trigger] metadata@[i] == free_frame(),
                forall|i: int| 0 <= i < frame_id ==> #[trigger] free_list@[i] == size - 1 - i,
                forall|i: int| 0 <= i < frame_id ==> (#[trigger] pages@[i]).0@ == zero_page(),
            decreases size - frame_id,
        {
            let ghost before = metadata@;
            metadata.push(
                FrameMetadata {
                    page_id: INVALID_FRAME_ID,
                    pin_count: 0,
                    is_dirty: false,
                    loading: false,
                    rec_lsn: None,
                },
            );
            proof {
                lemma_pins_prefix(before, metadata@, frame_id as int);
                lemma_least_prefix(before, metadata@, frame_id as int);
            }
            free_list.push(size - 1 - frame_id);
            pages.push(PageData::new());
            frame_id = frame_id + 1;
        }
        let s = BufferPoolShard {
            pages,
            inner: ShardInner {
                metadata,
                page_table: HashMap::new(),
                free_list,
                replacer: ClockReplacer::new(size),
                min_rec_lsn: None,
            },
            last_checkpoint_redo_point: 0,
        };
        proof {
            let l = s.inner.free_list@;
            assert forall|f: int| 0 <= f < size implies #[trigger] s.inner.frame_wf(f) by {
                assert(l[size - 1 - f] == f);
                assert(l.contains(f as usize));
            }
            assert(l.no_duplicates());
            assert(s.inner.ledger() =~= empty_ledger(size as nat));
        }
        s
    }

    /// Takes a pin off the page, and marks it dirty where asked. A page that is not here
    /// or not pinned is left alone.
    pub fn unpin_page(&mut self, page_id: u64, is_dirty: bool)
        requires
            old(self).wf(),
        ensures
            final(self).wf(),
            final(self).pages@ == old(self).pages@,
            final(self).inner.page_table@ == old(self).inner.page_table@,
            final(self).last_checkpoint_redo_point == old(self).last_checkpoint_redo_point,
            final(self).inner.min_rec_lsn == old(self).inner.min_rec_lsn,
            final(self).inner.ledger() == old(self).inner.ledger().released(page_id, is_dirty),
            final(self).inner.metadata@ == (if old(self).inner.pins(page_id) > 0 {
                old(self).inner.metadata@.update(
                    old(self).inner.page_table@[page_id] as int,
                    released(old(self).inner.meta(page_id), is_dirty),
                )
            } else {
                old(self).inner.metadata@
            }),
    {
        if let Some(r) = self.inner.page_table.get(&page_id) {
            let f: usize = *r;
            let ghost before = self.inner;
            let mut m = self.inner.metadata[f];
            assert(before.frame_wf(f as int));
            if m.pin_count > 0 {
                m.pin_count = m.pin_count - 1;
                m.is_dirty = m.is_dirty || is_dirty;
                self.inner.set_meta(f, m);
                if m.pin_count == 0 {
                    self.inner.replacer.unpin(f);
                }
                proof {
                    assert(self.inner.replacer@.evictable =~= before.replacer@.evictable.update(
                        f as int,
                        m.pin_count == 0,
                    ));
                    lemma_least_update(
                        before.metadata@,
                        f as int,
                        m,
                        before.metadata@.len() as int,
                    );
                    lemma_frame_change(before, self.inner, f as int, m);
                    assert(self.inner.ledger() =~= before.ledger().released(page_id, is_dirty));
                }
            }
        }
    }

    /// Writes the frame's page to the data file, behind the log: every record up to the
    /// page's log sequence number is durable first. The bytes written carry a checksum.
    pub fn write_frame_to_disk(
        &self,
        frame_id: usize,
        page_id: u64,
        disk: &mut DiskManager,
        wal: &mut Wal,
    ) -> (r: Result<(), BufferPoolError>)
        requires
            frame_id < self.pages@.len(),
            self.pages@[frame_id as int].0@.len() == PAGE_SIZE,
            page_id < u64::MAX,
            disk_ok(old(disk)),
            wal_ok(old(wal)),
        ensures
            disk_ok(final(disk)),
            wal_ok(final(wal)),
            log_step(old(wal)@, final(wal)@),
            match r {
                Ok(()) => {
                    &&& old(disk)@.broken is None
                    &&& final(disk).syncs() == old(disk).syncs()
                    &&& final(disk)@ == old(disk)@.put(page_id, sealed(self.pages@[frame_id as int].0@))
                    &&& final(wal)@.written_up_to(
                        u64_at(self.pages@[frame_id as int].0@, 16),
                    )
                },
                Err(BufferPoolError::Wal(_)) => final(disk)@ == old(disk)@ && final(wal)@.error is Some,
                Err(e) => final(disk)@ == old(disk)@ && old(disk)@.broken is Some && e
                    == BufferPoolError::Disk(DiskError::Io(old(disk)@.broken->0)),
            },
            final(disk).syncs() == old(disk).syncs(),
            old(wal)@.ready() ==> final(wal)@ == flushed_up_to(
                old(wal)@,
                u64_at(self.pages@[frame_id as int].0@, 16),
            ).1,
    {
        proof {
            if wal@.ready() {
                lemma_ready(wal@);
            }
        }
        let mut buf: Vec<u8> = vstd::slice::slice_to_vec(self.pages[frame_id].0.as_slice());
        let lsn: Lsn = page_lsn(buf.as_slice());
        match wal.flush_up_to(lsn) {
            Ok(()) => {},
            Err(e) => {
                return Err(BufferPoolError::Wal(e));
            },
        }
        proof {
            law_sealed_is_intact(buf@);
        }
        stamp_checksum(buf.as_mut_slice());
        match disk.write_page(page_id, buf.as_slice()) {
            Ok(()) => Ok(()),
            Err(e) => Err(BufferPoolError::Disk(e)),
        }
    }
}

/// Two shards hold the same pages under the same pins.
pub open spec fn same_frames(a: BufferPoolShard, b: BufferPoolShard) -> bool {
    &&& b.pages@ == a.pages@
    &&& b.inner.page_table@ == a.inner.page_table@
    &&& b.last_checkpoint_redo_point == a.last_checkpoint_redo_point
    &&& b.inner.metadata@.len() == a.inner.metadata@.len()
    &&& b.pin_total() == a.pin_total()
    &&& forall|f: int|
        0 <= f < a.inner.metadata@.len() ==> {
            &&& (#[trigger] b.inner.metadata@[f]).page_id == a.inner.metadata@[f].page_id
            &&& b.inner.metadata@[f].pin_count == a.inner.metadata@[f].pin_count
            &&& b.inner.metadata@[f].loading == a.inner.metadata@[f].loading
        }
}

/// Pages that are not in the shard keep their bytes on disk, and only pages of the shard
/// were written, behind the log.
pub open spec fn disk_kept(s: BufferPoolShard, before: DiskView, after: DiskView, w: WalView) -> bool {
    &&& disk_step(before, after)
    &&& forall|id: u64|
        !s.inner.resident(id) ==> #[trigger] after.content(id) == before.content(id)
    &&& forall|id: u64| #[trigger]
        after.content(id) == before.content(id) || plain(after.content(id)) == plain(s.cached(id))
            && w.written_up_to(u64_at(s.cached(id), 16))
    &&& forall|n: u64| #![trigger s.below(n)] s.below(n) && before.count <= n ==> after.count <= n
}

/// The error says that the data file or the log cannot be used, and that is so.
pub open spec fn storage_error(e: BufferPoolError, disk: DiskView, wal: WalView) -> bool {
    match e {
        BufferPoolError::Wal(_) => wal.error is Some,
        BufferPoolError::Disk(d) => disk.broken matches Some(x) && d == DiskError::Io(x),
        _ => false,
    }
}

proof fn lemma_put_kept(s: BufferPoolShard, d: DiskView, id: u64, data: Seq<u8>, w: WalView)
    requires
        d.wf(),
        id < u64::MAX,
        s.inner.resident(id),
        plain(data) == plain(s.cached(id)),
        intact(data),
        w.written_up_to(u64_at(s.cached(id), 16)),
    ensures
        disk_kept(s, d, d.put(id, data), w),
        stored(d.put(id, data), id),
{
    assert forall|n: u64| #![trigger s.below(n)] s.below(n) && d.count <= n implies d.put(
        id,
        data,
    ).count <= n by {
        assert(s.inner.resident(id));
    }
}

proof fn lemma_disk_kept_same(
    a: BufferPoolShard,
    b: BufferPoolShard,
    d: DiskView,
    e: DiskView,
    w: WalView,
)
    requires
        disk_kept(a, d, e, w),
        a.inner.page_table@ == b.inner.page_table@,
        a.pages@ == b.pages@,
    ensures
        disk_kept(b, d, e, w),
{
    assert forall|n: u64| #![trigger b.below(n)] b.below(n) && d.count <= n implies e.count
        <= n by {
        assert forall|x: u64| #[trigger] a.inner.resident(x) implies x < n by {
            assert(b.inner.resident(x));
        }
        assert(a.below(n));
    }
    assert forall|id: u64| !b.inner.resident(id) implies #[trigger] e.content(id) == d.content(
        id,
    ) by {
        assert(!a.inner.resident(id));
    }
}

proof fn lemma_disk_kept_chain(
    s: BufferPoolShard,
    a: DiskView,
    b: DiskView,
    c: DiskView,
    wb: WalView,
    wc: WalView,
)
    requires
        disk_kept(s, a, b, wb),
        log_step(wb, wc),
        disk_kept(s, b, c, wc),
    ensures
        disk_kept(s, a, c, wc),
{
    assert forall|id: u64| #[trigger] c.content(id) == a.content(id) || plain(c.content(id))
        == plain(s.cached(id)) && wc.written_up_to(u64_at(s.cached(id), 16)) by {
        if c.content(id) == b.content(id) && b.content(id) != a.content(id) {
            assert(wb.written_up_to(u64_at(s.cached(id), 16)));
        }
    }
    assert forall|id: u64| !s.inner.resident(id) implies #[trigger] c.content(id) == a.content(
        id,
    ) by {
        assert(b.content(id) == a.content(id));
    }
}

impl BufferPoolShard {
    /// Writes a dirty page to the data file; where asked, makes it durable at once. Says
    /// whether there was anything to write.
    fn flush_page_inner(
        &mut self,
        page_id: u64,
        sync_data: bool,
        disk: &mut DiskManager,
        wal: &mut Wal,
    ) -> (r: Result<bool, BufferPoolError>)
        requires
            old(self).inner.wf() || old(self).inner.resident(page_id) && old(self).inner.meta(
                page_id,
            ).is_dirty && old(self).inner.wf_but(old(self).inner.page_table@[page_id] as int),
            old(self).pages@.len() == old(self).inner.metadata@.len(),
            forall|f: int|
                0 <= f < old(self).pages@.len() ==> (#[trigger] old(self).pages@[f]).0@.len()
                    == PAGE_SIZE,
            old(self).inner.pins(page_id) < u64::MAX,
            old(self).clean(old(disk)@),
            disk_ok(old(disk)),
            wal_ok(old(wal)),
        ensures
            final(self).wf(),
            disk_ok(final(disk)),
            wal_ok(final(wal)),
            log_step(old(wal)@, final(wal)@),
            final(self).clean(final(disk)@),
            same_frames(*old(self), *final(self)),
            disk_kept(*old(self), old(disk)@, final(disk)@, final(wal)@),
            still_safe(*old(self), old(disk)@, *final(self), final(disk)@),
            if old(self).inner.resident(page_id) && old(self).inner.meta(page_id).is_dirty {
                let f = old(self).inner.page_table@[page_id] as int;
                let m = old(self).inner.metadata@[f];
                &&& old(wal)@.ready() ==> final(wal)@ == flushed_up_to(
                    old(wal)@,
                    u64_at(old(self).cached(page_id), 16),
                ).1
                &&& match r {
                    Ok(wrote) => {
                        &&& wrote
                        &&& old(disk)@.broken is None
                        &&& final(disk).syncs() == (if sync_data && old(disk).syncs() < u64::MAX {
                            (old(disk).syncs() + 1) as u64
                        } else {
                            old(disk).syncs()
                        })
                        &&& final(disk)@ == old(disk)@.put(page_id, sealed(old(self).cached(page_id)))
                        &&& final(wal)@.written_up_to(
                            crate::bytes::u64_at(old(self).cached(page_id), 16),
                        )
                        &&& final(self).inner.metadata@ == old(self).inner.metadata@.update(
                            f,
                            FrameMetadata { is_dirty: false, rec_lsn: None, ..m },
                        )
                        &&& final(self).inner.ledger() == old(self).inner.ledger().written(f)
                    },
                    Err(e) => {
                        &&& storage_error(e, final(disk)@, final(wal)@)
                        &&& final(self).inner.ledger() == old(self).inner.ledger().idle(f)
                        &&& final(disk).syncs() == old(disk).syncs()
                        &&& final(disk)@ == old(disk)@
                        &&& final(self).inner.metadata@ == old(self).inner.metadata@
                        &&& final(self).inner.min_rec_lsn == old(self).inner.min_rec_lsn
                    },
                }
            } else {
                &&& r == Ok::<bool, BufferPoolError>(false)
                &&& *final(disk) == *old(disk)
                &&& final(disk)@ == old(disk)@
                &&& final(wal)@ == old(wal)@
                &&& final(self).inner.ledger() == old(self).inner.ledger()
            },
    {
        proof {
            lemma_log_still(wal@);
        }
        let f: usize = match self.inner.page_table.get(&page_id) {
            Some(r) => *r,
            None => {
                return Ok(false);
            },
        };
        let m = self.inner.metadata[f];
        if !m.is_dirty {
            return Ok(false);
        }
        let ghost before = self.inner;
        proof {
            if before.wf() {
                assert(before.frame_wf(f as int));
            }
        }
        self.inner.set_meta(
            f,
            FrameMetadata { is_dirty: false, pin_count: m.pin_count + 1, ..m },
        );
        let mut res = self.write_frame_to_disk(f, page_id, disk, wal);
        if res.is_ok() && sync_data {
            match disk.sync_data() {
                Ok(()) => {},
                Err(e) => {
                    res = Err(BufferPoolError::Disk(e));
                },
            }
        }
        if m.pin_count == 0 {
            self.inner.replacer.unpin(f);
        }
        proof {
            law_sealed_is_same_page(self.pages@[f as int].0@);
            law_sealed_is_intact(self.pages@[f as int].0@);
            if wal@.written_up_to(u64_at(old(self).cached(page_id), 16)) {
                lemma_put_kept(
                    *old(self),
                    old(disk)@,
                    page_id,
                    sealed(old(self).cached(page_id)),
                    wal@,
                );
            }
        }
        match res {
            Err(e) => {
                self.inner.set_meta(f, m);
                proof {
                    assert(self.inner.metadata@ =~= before.metadata@);
                    assert(self.inner.replacer@.evictable =~= before.replacer@.evictable.update(
                        f as int,
                        m.pin_count == 0,
                    ));
                    assert(before.metadata@ =~= before.metadata@.update(f as int, m));
                    lemma_frame_change(before, self.inner, f as int, m);
                    assert(self.inner.ledger() =~= before.ledger().idle(f as int));
                    assert(disk@ == old(disk)@);
                    assert forall|id: u64| #[trigger]
                        self.inner.resident(id) && !self.inner.meta(id).loading
                            && !self.inner.meta(id).is_dirty implies plain(self.cached(id))
                        == plain(disk@.content(id)) by {
                        assert(old(self).inner.resident(id));
                    }
                }
                Err(e)
            },
            Ok(()) => {
                let done = FrameMetadata { is_dirty: false, rec_lsn: None, ..m };
                self.inner.set_meta(f, done);
                if m.rec_lsn == self.inner.min_rec_lsn {
                    self.inner.min_rec_lsn = self.inner.find_least_rec_lsn();
                }
                proof {
                    assert(self.inner.metadata@ =~= before.metadata@.update(f as int, done));
                    lemma_least_without(before.metadata@, f as int, done);
                    assert(self.inner.ledger() =~= before.ledger().written(f as int));
                    assert(self.inner.replacer@.evictable =~= before.replacer@.evictable.update(
                        f as int,
                        m.pin_count == 0,
                    ));
                    lemma_frame_change(before, self.inner, f as int, done);
                    lemma_sums_update(
                        before.metadata@,
                        f as int,
                        done,
                        before.metadata@.len() as int,
                    );
                    assert forall|id: u64| #[trigger]
                        self.inner.resident(id) && !self.inner.meta(id).loading
                            && !self.inner.meta(id).is_dirty implies plain(self.cached(id))
                        == plain(disk@.content(id)) by {
                        if id != page_id {
                            assert(old(self).inner.resident(id));
                            assert(before.page_table@[id] != f);
                            assert(disk@.content(id) == old(disk)@.content(id));
                        }
                    }
                    assert forall|id: u64| safe(*old(self), old(disk)@, id) implies #[trigger] safe(
                        *self,
                        disk@,
                        id,
                    ) by {
                        if id != page_id && old(self).inner.resident(id) {
                            assert(before.page_table@[id] != f);
                        }
                        if stored(old(disk)@, id) {
                            assert(stored(disk@, id));
                        }
                    }
                }
                Ok(true)
            },
        }
    }
}

/// Every frame has room for a page.
pub open spec fn frames_sized(s: BufferPoolShard) -> bool {
    &&& s.pages@.len() == s.inner.metadata@.len()
    &&& forall|f: int| 0 <= f < s.pages@.len() ==> (#[trigger] s.pages@[f]).0@.len() == PAGE_SIZE
}

/// Two shards with their data files hold the same pages.
pub open spec fn same_pages(
    a: BufferPoolShard,
    da: DiskView,
    b: BufferPoolShard,
    db: DiskView,
) -> bool {
    forall|id: u64| #[trigger] b.page(db, id) == a.page(da, id)
}

/// Every page of the data file is as it was, or was written as the shard holds it, behind
/// the log: no record up to its number waits.
pub open spec fn written_back(
    s: BufferPoolShard,
    before: DiskView,
    after: DiskView,
    w: WalView,
) -> bool {
    forall|id: u64| #[trigger]
        after.content(id) == before.content(id) || plain(after.content(id)) == s.page(before, id)
            && w.written_up_to(u64_at(s.page(before, id), 16))
}

/// Flushing changes no page.
proof fn lemma_flush_keeps_pages(
    a: BufferPoolShard,
    da: DiskView,
    b: BufferPoolShard,
    db: DiskView,
    w: WalView,
)
    requires
        a.inner.tables_wf(),
        a.settled(),
        same_frames(a, b),
        disk_kept(a, da, db, w),
        frames_sized(a),
    ensures
        same_pages(a, da, b, db),
        written_back(a, da, db, w),
        b.settled(),
        forall|id: u64| #[trigger] b.inner.pins(id) == a.inner.pins(id),
{
    assert forall|id: u64| #[trigger] b.page(db, id) == a.page(da, id) by {
        if a.inner.resident(id) {
            assert(a.inner.metadata@[a.inner.page_table@[id] as int].page_id == id);
        } else {
            assert(db.content(id) == da.content(id));
        }
    }
    assert forall|id: u64| #[trigger] db.content(id) == da.content(id) || plain(db.content(id))
        == a.page(da, id) && w.written_up_to(u64_at(a.page(da, id), 16)) by {
        if a.inner.resident(id) {
            assert(a.inner.metadata@[a.inner.page_table@[id] as int].page_id == id);
            lemma_plain(a.cached(id));
        } else {
            assert(db.content(id) == da.content(id));
        }
    }
}

/// No page came into the shard but the given one. Where all pages were below a limit that
/// is above that page, they still are.
pub open spec fn bounded(
    a: BufferPoolShard,
    da: DiskView,
    b: BufferPoolShard,
    db: DiskView,
    id: u64,
) -> bool {
    &&& forall|x: u64| #[trigger] b.inner.resident(x) ==> a.inner.resident(x) || x == id
    &&& forall|n: u64|
        #![trigger b.below(n)]
        a.below(n) && id < n && da.count <= n ==> b.below(n) && db.count <= n
}

/// Where the shard took the page into a frame, this is the frame's bookkeeping.
pub open spec fn taken(page_id: u64, m: FrameMetadata) -> FrameMetadata {
    FrameMetadata { page_id, pin_count: 1, is_dirty: false, loading: true, ..m }
}

/// The bookkeeping after the frame was given to another page.
proof fn lemma_take(a: ShardInner, b: ShardInner, f: int, id: u64)
    requires
        a.tables_wf(),
        0 <= f < a.metadata@.len(),
        id != INVALID_FRAME_ID,
        !a.resident(id),
        !a.metadata@[f].is_dirty,
        a.metadata@[f].pin_count == 0,
        !a.free_list@.contains(f as usize),
        forall|g: int| 0 <= g < a.metadata@.len() && g != f ==> #[trigger] a.frame_wf(g),
        a.metadata@[f].page_id != INVALID_FRAME_ID ==> a.page_table@.dom().contains(
            a.metadata@[f].page_id,
        ) && a.page_table@[a.metadata@[f].page_id] == f,
        b.metadata@ == a.metadata@.update(f, taken(id, a.metadata@[f])),
        b.page_table@ == a.page_table@.remove(a.metadata@[f].page_id).insert(id, f as usize),
        b.free_list@ == a.free_list@,
        b.min_rec_lsn == a.min_rec_lsn,
        a.metadata@[f].rec_lsn is None,
        b.replacer.wf(),
        b.replacer@.evictable == a.replacer@.evictable.update(f, false),
        b.replacer@.used.len() == a.replacer@.used.len(),
    ensures
        b.wf(),
        pins_of(b.metadata@, b.metadata@.len() as int) == pins_of(
            a.metadata@,
            a.metadata@.len() as int,
        ) + 1,
{
    lemma_least_update(a.metadata@, f, taken(id, a.metadata@[f]), a.metadata@.len() as int);
    lemma_sums_update(a.metadata@, f, taken(id, a.metadata@[f]), a.metadata@.len() as int);
    assert forall|g: int| 0 <= g < b.metadata@.len() implies #[trigger] b.frame_wf(g) by {
        if g != f {
            assert(a.frame_wf(g));
            let p = a.metadata@[g].page_id;
            if p != INVALID_FRAME_ID {
                assert(p != id);
                assert(p != a.metadata@[f].page_id);
            }
        }
    }
    assert forall|x: u64| #[trigger] b.page_table@.dom().contains(x) implies x != INVALID_FRAME_ID
        && 0 <= b.page_table@[x] < b.metadata@.len() && b.metadata@[b.page_table@[x] as int].page_id
        == x by {
        if x != id {
            assert(a.page_table@.dom().contains(x));
            assert(a.page_table@[x] != f);
        }
    }
    assert forall|i: int| 0 <= i < b.free_list@.len() implies (#[trigger] b.free_list@[i])
        < b.metadata@.len() && b.metadata@[b.free_list@[i] as int].page_id == INVALID_FRAME_ID by {
        assert(a.free_list@[i] < a.metadata@.len());
        assert(a.free_list@[i] != f) by {
            if a.free_list@[i] == f {
                assert(a.free_list@.contains(f as usize));
            }
        }
    }
}

/// What flushing a page does to the bookkeeping: a dirty page that was written is clean, one
/// that was not stays dirty, and either was used just now.
pub open spec fn flushed(a: BufferPoolShard, id: u64, ok: bool, b: BufferPoolShard) -> bool {
    let l = a.inner.ledger();
    b.inner.ledger() == (if !(l.holds(id) && l.meta(id).is_dirty) {
        l
    } else if ok {
        l.written(l.frame(id))
    } else {
        l.idle(l.frame(id))
    })
}

/// The dirty ones of the first `n` frames.
pub open spec fn dirty_frames(frames: Seq<FrameMetadata>, n: int) -> Seq<int>
    decreases n,
{
    if n <= 0 {
        Seq::empty()
    } else if frames[n - 1].is_dirty {
        dirty_frames(frames, n - 1).push(n - 1)
    } else {
        dirty_frames(frames, n - 1)
    }
}

/// The data file once the pages in these frames of the shard were written to it, in order.
pub open spec fn saved(d: DiskView, s: BufferPoolShard, frames: Seq<int>) -> DiskView
    decreases frames.len(),
{
    if frames.len() == 0 {
        d
    } else {
        let f = frames.last();
        saved(d, s, frames.drop_last()).put(
            s.inner.metadata@[f].page_id,
            sealed(s.pages@[f].0@),
        )
    }
}

/// The log once it was flushed for each of these frames of the shard, in order: up to the log
/// sequence number of the frame's page.
pub open spec fn logged(w: WalView, s: BufferPoolShard, frames: Seq<int>) -> WalView
    decreases frames.len(),
{
    if frames.len() == 0 {
        w
    } else {
        flushed_up_to(
            logged(w, s, frames.drop_last()),
            u64_at(s.pages@[frames.last()].0@, 16),
        ).1
    }
}

/// The number, counted up by `n`, up to the largest number.
pub open spec fn counted_up(k: u64, n: int) -> u64 {
    if k + n < u64::MAX {
        (k + n) as u64
    } else {
        u64::MAX
    }
}

/// The search for a frame for the page.
pub open spec fn searched(s: BufferPoolShard, id: u64) -> Search {
    search(s.inner.ledger(), id, s.inner.metadata@.len())
}

/// The search ended as described: the victims on the way were written behind the log, each
/// made durable.
pub open spec fn searched_all(
    a: BufferPoolShard,
    da: DiskManager,
    wa: WalView,
    db: DiskManager,
    wb: WalView,
    id: u64,
) -> bool {
    &&& wa.ready() ==> wb == logged(wa, a, searched(a, id).written)
    &&& db@ == saved(da@, a, searched(a, id).written)
    &&& db.syncs() == counted_up(da.syncs(), searched(a, id).written.len() as int)
}

/// The search ended because a victim could not be written.
pub open spec fn search_stalled(
    a: BufferPoolShard,
    da: DiskManager,
    b: BufferPoolShard,
    db: DiskManager,
    id: u64,
) -> bool {
    &&& b.pages@ == a.pages@
    &&& exists|k: nat| #[trigger]
        stalled(a.inner.ledger(), k).0 == b.inner.ledger() && {
            &&& k < searched(a, id).written.len()
            &&& db@ == saved(da@, a, stalled(a.inner.ledger(), k).1)
            &&& db.syncs() == counted_up(da.syncs(), k as int)
        }
}

/// What a page's way into a frame comes to, where its bytes come from the data file or, for
/// a new page, are zeros.
#[verifier::opaque]
pub open spec fn brought(
    a: BufferPoolShard,
    da: DiskManager,
    wa: WalView,
    b: BufferPoolShard,
    db: DiskManager,
    wb: WalView,
    id: u64,
    fresh: bool,
    r: Result<(), BufferPoolError>,
) -> bool {
    let s = searched(a, id);
    match r {
        Ok(()) => {
            &&& searched_all(a, da, wa, db, wb, id)
            &&& match s.found {
                Found::Hit(f) => b.inner.ledger() == s.ledger && b.pages@ == a.pages@,
                Found::Miss(f) => {
                    &&& b.inner.ledger() == s.ledger.loaded(f)
                    &&& b.pages@ == a.pages@.update(f, b.pages@[f])
                    &&& b.pages@[f].0@ == (if fresh {
                        zero_page()
                    } else {
                        db@.content(id)
                    })
                },
                Found::Nothing => false,
            }
        },
        Err(e) => if e == BufferPoolError::NoEvictableFrames {
            &&& searched_all(a, da, wa, db, wb, id)
            &&& s.found is Nothing
            &&& b.inner.ledger() == s.ledger
            &&& b.pages@ == a.pages@
        } else {
            ||| search_stalled(a, da, b, db, id)
            ||| {
                &&& searched_all(a, da, wa, db, wb, id)
                &&& s.found matches Found::Miss(f) && b.inner.ledger() == s.ledger.vacated(f)
                &&& b.pages@ == a.pages@
            }
        },
    }
}

impl BufferPoolShard {
    /// Writes a dirty page and makes it durable.
    pub fn flush_page(&mut self, page_id: u64, disk: &mut DiskManager, wal: &mut Wal) -> (r: Result<
        bool,
        BufferPoolError,
    >)
        requires
            old(self).wf(),
            old(self).inner.pins(page_id) < u64::MAX,
            old(self).clean(old(disk)@),
            old(self).settled(),
            disk_ok(old(disk)),
            wal_ok(old(wal)),
        ensures
            final(self).wf(),
            disk_ok(final(disk)),
            wal_ok(final(wal)),
            log_step(old(wal)@, final(wal)@),
            final(self).clean(final(disk)@),
            final(self).settled(),
            same_frames(*old(self), *final(self)),
            same_pages(*old(self), old(disk)@, *final(self), final(disk)@),
            written_back(*old(self), old(disk)@, final(disk)@, final(wal)@),
            disk_kept(*old(self), old(disk)@, final(disk)@, final(wal)@),
            still_safe(*old(self), old(disk)@, *final(self), final(disk)@),
            match r {
                Ok(wrote) => {
                    &&& wrote == (old(self).inner.resident(page_id) && old(self).inner.meta(
                        page_id,
                    ).is_dirty)
                    &&& wrote ==> final(disk)@ == old(disk)@.put(
                        page_id,
                        sealed(old(self).cached(page_id)),
                    ) && !final(self).inner.meta(page_id).is_dirty && final(wal)@.written_up_to(
                        crate::bytes::u64_at(old(self).cached(page_id), 16),
                    )
                    &&& !wrote ==> final(disk)@ == old(disk)@ && final(wal)@ == old(wal)@
                },
                Err(e) => storage_error(e, final(disk)@, final(wal)@) && final(disk)@ == old(disk)@,
            },
            flushed(*old(self), page_id, r is Ok, *final(self)),
            r is Err ==> old(self).inner.resident(page_id) && old(self).inner.meta(
                page_id,
            ).is_dirty,
            old(wal)@.ready() && old(self).inner.resident(page_id) && old(self).inner.meta(
                page_id,
            ).is_dirty ==> final(wal)@ == flushed_up_to(
                old(wal)@,
                u64_at(old(self).cached(page_id), 16),
            ).1,
            final(disk).syncs() == (if r == Ok::<bool, BufferPoolError>(true) {
                counted_up(old(disk).syncs(), 1)
            } else {
                old(disk).syncs()
            }),
    {
        let r = self.flush_page_inner(page_id, true, disk, wal);
        proof {
            lemma_flush_keeps_pages(*old(self), old(disk)@, *self, disk@, wal@);
        }
        r
    }

    /// Writes a dirty page and leaves it to the caller to make it durable.
    pub fn flush_page_without_sync(
        &mut self,
        page_id: u64,
        disk: &mut DiskManager,
        wal: &mut Wal,
    ) -> (r: Result<bool, BufferPoolError>)
        requires
            old(self).wf(),
            old(self).inner.pins(page_id) < u64::MAX,
            old(self).clean(old(disk)@),
            old(self).settled(),
            disk_ok(old(disk)),
            wal_ok(old(wal)),
        ensures
            final(self).wf(),
            disk_ok(final(disk)),
            wal_ok(final(wal)),
            log_step(old(wal)@, final(wal)@),
            final(self).clean(final(disk)@),
            final(self).settled(),
            same_frames(*old(self), *final(self)),
            same_pages(*old(self), old(disk)@, *final(self), final(disk)@),
            written_back(*old(self), old(disk)@, final(disk)@, final(wal)@),
            disk_kept(*old(self), old(disk)@, final(disk)@, final(wal)@),
            still_safe(*old(self), old(disk)@, *final(self), final(disk)@),
            match r {
                Ok(wrote) => {
                    let f = old(self).inner.page_table@[page_id] as int;
                    &&& wrote == (old(self).inner.resident(page_id) && old(self).inner.meta(
                        page_id,
                    ).is_dirty)
                    &&& wrote ==> final(disk)@ == old(disk)@.put(
                        page_id,
                        sealed(old(self).cached(page_id)),
                    ) && final(self).inner.metadata@ == old(self).inner.metadata@.update(
                        f,
                        FrameMetadata {
                            is_dirty: false,
                            rec_lsn: None,
                            ..old(self).inner.metadata@[f]
                        },
                    ) && old(disk)@.broken is None
                    &&& !wrote ==> final(disk)@ == old(disk)@ && final(wal)@ == old(wal)@
                        && final(self).inner.metadata@ == old(self).inner.metadata@
                },
                Err(e) => storage_error(e, final(disk)@, final(wal)@) && final(disk)@ == old(disk)@,
            },
            flushed(*old(self), page_id, r is Ok, *final(self)),
            r is Err ==> old(self).inner.resident(page_id) && old(self).inner.meta(
                page_id,
            ).is_dirty,
            old(wal)@.ready() && old(self).inner.resident(page_id) && old(self).inner.meta(
                page_id,
            ).is_dirty ==> final(wal)@ == flushed_up_to(
                old(wal)@,
                u64_at(old(self).cached(page_id), 16),
            ).1,
            final(disk).syncs() == old(disk).syncs(),
    {
        let r = self.flush_page_inner(page_id, false, disk, wal);
        proof {
            lemma_flush_keeps_pages(*old(self), old(disk)@, *self, disk@, wal@);
        }
        r
    }

    /// Takes a frame for the page and pins it. Says which frame, and whether the page
    /// still has to be loaded into it; then the caller loads it and calls
    /// [`BufferPoolShard::finish_load`]. A page that leaves its frame for this is written
    /// to the data file first, where it is dirty.
    pub fn acquire_frame(&mut self, page_id: u64, disk: &mut DiskManager, wal: &mut Wal) -> (r:
        Result<(usize, bool), BufferPoolError>)
        requires
            old(self).wf(),
            old(self).settled(),
            old(self).clean(old(disk)@),
            page_id != INVALID_FRAME_ID,
            old(self).inner.pins(page_id) < u64::MAX,
            disk_ok(old(disk)),
            wal_ok(old(wal)),
        ensures
            final(self).wf(),
            disk_ok(final(disk)),
            wal_ok(final(wal)),
            log_step(old(wal)@, final(wal)@),
            final(self).clean(final(disk)@),
            final(self).pages@ == old(self).pages@,
            final(self).last_checkpoint_redo_point == old(self).last_checkpoint_redo_point,
            ({
                let s = searched(*old(self), page_id);
                match r {
                    Ok((f, load)) => {
                        &&& searched_all(
                            *old(self),
                            *old(disk),
                            old(wal)@,
                            *final(disk),
                            final(wal)@,
                            page_id,
                        )
                        &&& s.found == (if load {
                            Found::Miss(f as int)
                        } else {
                            Found::Hit(f as int)
                        })
                        &&& final(self).inner.ledger() == s.ledger
                    },
                    Err(BufferPoolError::NoEvictableFrames) => {
                        &&& searched_all(
                            *old(self),
                            *old(disk),
                            old(wal)@,
                            *final(disk),
                            final(wal)@,
                            page_id,
                        )
                        &&& s.found is Nothing
                        &&& final(self).inner.ledger() == s.ledger
                    },
                    Err(_) => search_stalled(
                        *old(self),
                        *old(disk),
                        *final(self),
                        *final(disk),
                        page_id,
                    ),
                }
            }),
            same_pages(*old(self), old(disk)@, *final(self), final(disk)@),
            written_back(*old(self), old(disk)@, final(disk)@, final(wal)@),
            disk_step(old(disk)@, final(disk)@),
            still_safe(*old(self), old(disk)@, *final(self), final(disk)@),
            bounded(*old(self), old(disk)@, *final(self), final(disk)@, page_id),
            forall|id: u64|
                id != page_id ==> #[trigger] final(self).inner.pins(id) == old(self).inner.pins(id),
            match r {
                Ok((f, load)) => {
                    &&& final(self).inner.resident(page_id)
                    &&& final(self).inner.page_table@[page_id] == f
                    &&& f < final(self).pages@.len()
                    &&& load == !old(self).inner.resident(page_id)
                    &&& load == final(self).inner.meta(page_id).loading
                    &&& load ==> !final(self).inner.meta(page_id).is_dirty
                    &&& final(self).inner.pins(page_id) == old(self).inner.pins(page_id) + 1
                    &&& final(self).pin_total() == old(self).pin_total() + 1
                    &&& forall|g: int|
                        0 <= g < final(self).inner.metadata@.len() && g != f ==> !(
                        #[trigger] final(self).inner.metadata@[g]).loading
                },
                Err(e) => {
                    &&& final(self).settled()
                    &&& final(self).inner.pins(page_id) == old(self).inner.pins(page_id)
                    &&& final(self).pin_total() == old(self).pin_total()
                    &&& storage_error(e, final(disk)@, final(wal)@) || e
                        == BufferPoolError::NoEvictableFrames && old(self).pin_total()
                        >= old(self).pages@.len()
                },
            },
    {
        let ghost start = *self;
        let ghost start_disk = disk@;
        let ghost mut done: Seq<int> = Seq::empty();
        let ghost mut left: nat = self.inner.metadata@.len();
        proof {
            lemma_log_still(wal@);
            lemma_dirty_bound(self.inner.metadata@, self.inner.metadata@.len() as int);
            assert(Seq::<int>::empty() + searched(start, page_id).written =~= searched(
                start,
                page_id,
            ).written);
            assert forall|k: nat| #[trigger] stalled(start.inner.ledger(), k) == (
                stalled(start.inner.ledger(), k).0,
                done + stalled(start.inner.ledger(), k).1,
            ) by {
                assert(done + stalled(start.inner.ledger(), k).1 =~= stalled(
                    start.inner.ledger(),
                    k,
                ).1);
            }
        }
        loop
            invariant
                dirty_of(self.inner.metadata@, self.inner.metadata@.len() as int) <= left,
                ({
                    let all = searched(start, page_id);
                    let rest = search(self.inner.ledger(), page_id, left);
                    &&& all.found == rest.found
                    &&& all.ledger == rest.ledger
                    &&& all.written == done + rest.written
                }),
                forall|k: nat| #[trigger]
                    stalled(self.inner.ledger(), k) == (
                        stalled(start.inner.ledger(), (k + done.len()) as nat).0,
                        stalled(self.inner.ledger(), k).1,
                    ) && stalled(start.inner.ledger(), (k + done.len()) as nat).1 == done
                        + stalled(self.inner.ledger(), k).1,
                disk@ == saved(start_disk, start, done),
                disk.syncs() == counted_up(old(disk).syncs(), done.len() as int),
                old(wal)@.ready() ==> wal@ == logged(old(wal)@, start, done),
                self.wf(),
                self.settled(),
                self.clean(disk@),
                page_id != INVALID_FRAME_ID,
                start == *old(self),
                start_disk == old(disk)@,
                start.inner.pins(page_id) < u64::MAX,
                disk_ok(disk),
                wal_ok(wal),
                log_step(old(wal)@, wal@),
                same_frames(start, *self),
                start.wf(),
                start.settled(),
                disk_kept(start, start_disk, disk@, wal@),
                still_safe(start, start_disk, *self, disk@),
            decreases dirty_of(self.inner.metadata@, self.inner.metadata@.len() as int),
        {
            proof {
                lemma_flush_keeps_pages(start, start_disk, *self, disk@, wal@);
            }
            let ghost here = *self;
            if let Some(r) = self.inner.page_table.get(&page_id) {
                let f: usize = *r;
                let mut m = self.inner.metadata[f];
                assert(here.inner.resident(page_id));
                assert(here.inner.frame_wf(f as int));
                assert(here.inner.pins(page_id) == start.inner.pins(page_id));
                m.pin_count = m.pin_count + 1;
                self.inner.set_meta(f, m);
                self.inner.replacer.pin(f);
                proof {
                    assert(self.inner.replacer@.evictable =~= here.inner.replacer@.evictable.update(
                        f as int,
                        m.pin_count == 0,
                    ));
                    lemma_least_update(
                        here.inner.metadata@,
                        f as int,
                        m,
                        here.inner.metadata@.len() as int,
                    );
                    lemma_frame_change(here.inner, self.inner, f as int, m);
                    lemma_sums_update(
                        here.inner.metadata@,
                        f as int,
                        m,
                        here.inner.metadata@.len() as int,
                    );
                    assert(self.inner.ledger() =~= here.inner.ledger().pinned(page_id));
                    assert(done + Seq::<int>::empty() =~= done);
                    lemma_pinned(here, *self, f as int, m, disk@, page_id);
                    lemma_chain(start, start_disk, here, disk@, *self, page_id, wal@);
                }
                return Ok((f, false));
            }
            let frame_id: usize = match self.inner.find_victim_frame_id() {
                Ok(f) => f,
                Err(e) => {
                    proof {
                        assert(done + Seq::<int>::empty() =~= done);
                        assert forall|i: int| 0 <= i < here.inner.metadata@.len() implies (
                        #[trigger] here.inner.metadata@[i]).pin_count > 0 by {
                            assert(here.inner.frame_wf(i));
                            if here.inner.metadata@[i].page_id != INVALID_FRAME_ID
                                && here.inner.metadata@[i].pin_count == 0 {
                                assert(here.inner.replacer@.evictable[i]);
                                assert(here.inner.replacer@.has_victim());
                            }
                        }
                        lemma_all_pinned(
                            here.inner.metadata@,
                            here.inner.metadata@.len() as int,
                        );
                        lemma_same_meta(here, *self, disk@, page_id);
                        lemma_chain(start, start_disk, here, disk@, *self, page_id, wal@);
                    }
                    return Err(e);
                },
            };
            let ghost chosen = self.inner;
            proof {
                lemma_victim(here.inner, chosen, frame_id);
            }
            let m = self.inner.metadata[frame_id];
            if m.is_dirty && m.page_id != INVALID_FRAME_ID {
                proof {
                    lemma_dirty_victim(here, *self, disk@, frame_id as int);
                    lemma_chosen_safe(here, *self, disk@);
                    lemma_safe_chain(start, start_disk, here, disk@, *self, disk@);
                }
                let old_page_id: u64 = m.page_id;
                let ghost mid = *self;
                let ghost mid_disk = disk@;
                let ghost mid_wal = wal@;
                let flushed = self.flush_page_inner(old_page_id, true, disk, wal);
                proof {
                    lemma_disk_kept_same(mid, start, mid_disk, disk@, wal@);
                    lemma_log_chain(old(wal)@, mid_wal, wal@);
                    lemma_safe_chain(start, start_disk, mid, mid_disk, *self, disk@);
                    lemma_dirty_counts(
                        mid.inner.metadata@,
                        frame_id as int,
                        mid.inner.metadata@.len() as int,
                    );
                    lemma_disk_kept_chain(start, start_disk, mid_disk, disk@, mid_wal, wal@);
                    lemma_flush_keeps_pages(start, start_disk, *self, disk@, wal@);
                    if flushed is Ok {
                        lemma_sums_update(
                            mid.inner.metadata@,
                            frame_id as int,
                            FrameMetadata { is_dirty: false, rec_lsn: None, ..m },
                            mid.inner.metadata@.len() as int,
                        );
                        lemma_sums_update(
                            self.inner.metadata@,
                            frame_id as int,
                            m,
                            mid.inner.metadata@.len() as int,
                        );
                        assert(self.inner.metadata@ == mid.inner.metadata@.update(
                            frame_id as int,
                            FrameMetadata { is_dirty: false, rec_lsn: None, ..m },
                        ));
                    }
                }
                match flushed {
                    Ok(_) => {
                        proof {
                            let f = frame_id as int;
                            lemma_step_on(start, here.inner.ledger(), f, done, page_id, left);
                            assert(done.push(f).drop_last() =~= done);
                            done = done.push(f);
                            left = (left - 1) as nat;
                        }
                        continue;
                    },
                    Err(e) => {
                        proof {
                            let l = here.inner.ledger();
                            assert(stalled(l, 0) == (self.inner.ledger(), Seq::<int>::empty()));
                            assert(stalled(start.inner.ledger(), done.len()).0
                                == self.inner.ledger());
                            assert(done + Seq::<int>::empty() =~= done);
                            assert(search(l, page_id, left).written.len() > 0);
                            lemma_chain(start, start_disk, *self, disk@, *self, page_id, wal@);
                        }
                        return Err(e);
                    },
                }
            }
            if m.page_id != INVALID_FRAME_ID {
                self.inner.page_table.remove(&m.page_id);
            }
            self.inner.set_meta(
                frame_id,
                FrameMetadata { page_id, pin_count: 1, is_dirty: false, loading: true, ..m },
            );
            self.inner.page_table.insert(page_id, frame_id);
            self.inner.replacer.pin(frame_id);
            proof {
                assert(self.inner.replacer@.evictable =~= chosen.replacer@.evictable.update(
                    frame_id as int,
                    false,
                ));
                assert(chosen.page_table@.remove(INVALID_FRAME_ID) =~= chosen.page_table@ || m.page_id
                    != INVALID_FRAME_ID);
                assert(here.inner.frame_wf(frame_id as int));
                lemma_least_update(
                    chosen.metadata@,
                    frame_id as int,
                    taken(page_id, m),
                    chosen.metadata@.len() as int,
                );
                assert(self.inner.ledger() =~= chosen.ledger().taken(frame_id as int, page_id));
                assert(done + Seq::<int>::empty() =~= done);
                lemma_take(chosen, self.inner, frame_id as int, page_id);
                lemma_taken(here, *self, frame_id as int, page_id, disk@);
                lemma_chain(start, start_disk, here, disk@, *self, page_id, wal@);
            }
            return Ok((frame_id, true));
        }
    }
}

/// There are no more dirty frames than frames.
proof fn lemma_dirty_bound(frames: Seq<FrameMetadata>, n: int)
    requires
        0 <= n <= frames.len(),
    ensures
        0 <= dirty_of(frames, n) <= n,
    decreases n,
{
    if n > 0 {
        lemma_dirty_bound(frames, n - 1);
    }
}

/// A dirty frame is one of the dirty frames.
proof fn lemma_dirty_counts(frames: Seq<FrameMetadata>, f: int, n: int)
    requires
        0 <= f < n <= frames.len(),
        frames[f].is_dirty,
    ensures
        dirty_of(frames, n) >= 1,
    decreases n,
{
    lemma_dirty_bound(frames, n - 1);
    if f < n - 1 {
        lemma_dirty_counts(frames, f, n - 1);
    }
}

/// One victim more was written.
proof fn lemma_step_on(
    start: BufferPoolShard,
    l: Ledger,
    f: int,
    done: Seq<int>,
    id: u64,
    left: nat,
)
    requires
        !l.holds(id),
        l.victim().0 == Some(f),
        l.victim().1.frames[f].is_dirty,
        left > 0,
        searched(start, id).found == search(l, id, left).found,
        searched(start, id).ledger == search(l, id, left).ledger,
        searched(start, id).written == done + search(l, id, left).written,
        forall|k: nat| #[trigger]
            stalled(l, k) == (
                stalled(start.inner.ledger(), (k + done.len()) as nat).0,
                stalled(l, k).1,
            ) && stalled(start.inner.ledger(), (k + done.len()) as nat).1 == done + stalled(l, k).1,
    ensures
        ({
            let next = l.victim().1.written(f);
            let rest = search(next, id, (left - 1) as nat);
            &&& searched(start, id).found == rest.found
            &&& searched(start, id).ledger == rest.ledger
            &&& searched(start, id).written == done.push(f) + rest.written
            &&& forall|k: nat| #[trigger]
                stalled(next, k) == (
                    stalled(start.inner.ledger(), (k + done.push(f).len()) as nat).0,
                    stalled(next, k).1,
                ) && stalled(start.inner.ledger(), (k + done.push(f).len()) as nat).1 == done.push(
                    f,
                ) + stalled(next, k).1
        }),
{
    let next = l.victim().1.written(f);
    let rest = search(next, id, (left - 1) as nat);
    assert(done + (seq![f] + rest.written) =~= done.push(f) + rest.written);
    assert forall|k: nat| #[trigger]
        stalled(next, k) == (
            stalled(start.inner.ledger(), (k + done.push(f).len()) as nat).0,
            stalled(next, k).1,
        ) && stalled(start.inner.ledger(), (k + done.push(f).len()) as nat).1 == done.push(f)
            + stalled(next, k).1 by {
        let k1 = (k + 1) as nat;
        assert(stalled(l, k1) == (stalled(next, k).0, seq![f] + stalled(next, k).1));
        assert(done + (seq![f] + stalled(next, k).1) =~= done.push(f) + stalled(next, k).1);
        assert(k1 + done.len() == k + done.push(f).len());
    }
}

/// Two steps that lose no page are one.
proof fn lemma_safe_chain(
    a: BufferPoolShard,
    da: DiskView,
    b: BufferPoolShard,
    db: DiskView,
    c: BufferPoolShard,
    dc: DiskView,
)
    requires
        still_safe(a, da, b, db),
        still_safe(b, db, c, dc),
    ensures
        still_safe(a, da, c, dc),
{
    assert forall|id: u64| safe(a, da, id) implies #[trigger] safe(c, dc, id) by {
        assert(safe(b, db, id));
    }
}

/// A frame was chosen, and what the tables say is as before.
proof fn lemma_chosen_safe(a: BufferPoolShard, b: BufferPoolShard, d: DiskView)
    requires
        b.inner.page_table@ == a.inner.page_table@,
        b.inner.metadata@ == a.inner.metadata@,
    ensures
        still_safe(a, d, b, d),
{
}

/// One step kept all pages, and the pins of all pages but one.
spec fn stepped(a: BufferPoolShard, b: BufferPoolShard, d: DiskView, id: u64) -> bool {
    &&& same_pages(a, d, b, d)
    &&& b.clean(d)
    &&& forall|x: u64| x != id ==> #[trigger] b.inner.pins(x) == a.inner.pins(x)
    &&& forall|x: u64| #[trigger] b.inner.resident(x) ==> a.inner.resident(x) || x == id
    &&& forall|n: u64| #![trigger b.below(n)] a.below(n) && id < n ==> b.below(n)
    &&& still_safe(a, d, b, d)
}

proof fn lemma_chain(
    a: BufferPoolShard,
    da: DiskView,
    b: BufferPoolShard,
    d: DiskView,
    c: BufferPoolShard,
    id: u64,
    w: WalView,
)
    requires
        a.inner.tables_wf(),
        a.settled(),
        frames_sized(a),
        same_frames(a, b),
        disk_kept(a, da, d, w),
        still_safe(a, da, b, d),
        b.clean(d),
        b == c || stepped(b, c, d, id),
    ensures
        still_safe(a, da, c, d),
        same_pages(a, da, c, d),
        written_back(a, da, d, w),
        forall|x: u64| x != id ==> #[trigger] c.inner.pins(x) == a.inner.pins(x),
        b.inner.pins(id) == a.inner.pins(id),
        bounded(a, da, c, d, id),
{
    lemma_flush_keeps_pages(a, da, b, d, w);
    assert forall|x: u64| safe(a, da, x) implies #[trigger] safe(c, d, x) by {
        assert(safe(b, d, x));
    }
    assert forall|x: u64| #[trigger] c.page(d, x) == a.page(da, x) by {
        assert(b.page(d, x) == a.page(da, x));
    }
    assert forall|x: u64| x != id implies #[trigger] c.inner.pins(x) == a.inner.pins(x) by {
        assert(b.inner.pins(x) == a.inner.pins(x));
    }
    assert forall|n: u64|
        #![trigger c.below(n)]
        a.below(n) && id < n && da.count <= n implies c.below(n) && d.count <= n by {
        assert(b.below(n)) by {
            assert forall|x: u64| #[trigger] b.inner.resident(x) implies x < n by {
                assert(a.inner.resident(x));
            }
        }
    }
}

proof fn lemma_pinned(
    a: BufferPoolShard,
    b: BufferPoolShard,
    f: int,
    m: FrameMetadata,
    d: DiskView,
    id: u64,
)
    requires
        a.inner.tables_wf(),
        a.clean(d),
        a.inner.resident(id),
        a.inner.page_table@[id] == f,
        b.pages@ == a.pages@,
        b.inner.page_table@ == a.inner.page_table@,
        b.inner.metadata@ == a.inner.metadata@.update(f, m),
        m.loading == a.inner.metadata@[f].loading,
        a.inner.metadata@[f].is_dirty ==> m.is_dirty,
    ensures
        stepped(a, b, d, id),
{
    assert forall|x: u64| #[trigger] b.page(d, x) == a.page(d, x) by {}
    assert forall|x: u64| #[trigger]
        b.inner.resident(x) && !b.inner.meta(x).loading && !b.inner.meta(x).is_dirty implies plain(
        b.cached(x),
    ) == plain(d.content(x)) by {
        assert(a.inner.resident(x));
    }
    assert forall|n: u64| #![trigger b.below(n)] a.below(n) && id < n implies b.below(n) by {
        assert forall|x: u64| #[trigger] b.inner.resident(x) implies x < n by {
            assert(a.inner.resident(x));
        }
    }
}

proof fn lemma_same_meta(a: BufferPoolShard, b: BufferPoolShard, d: DiskView, id: u64)
    requires
        a.inner.tables_wf(),
        a.clean(d),
        b.pages@ == a.pages@,
        b.inner.page_table@ == a.inner.page_table@,
        b.inner.metadata@ == a.inner.metadata@,
    ensures
        stepped(a, b, d, id),
        b.inner.pins(id) == a.inner.pins(id),
{
    assert forall|x: u64| #[trigger] b.page(d, x) == a.page(d, x) by {}
    assert forall|x: u64| #[trigger]
        b.inner.resident(x) && !b.inner.meta(x).loading && !b.inner.meta(x).is_dirty implies plain(
        b.cached(x),
    ) == plain(d.content(x)) by {
        assert(a.inner.resident(x));
    }
    assert forall|n: u64| #![trigger b.below(n)] a.below(n) && id < n implies b.below(n) by {
        assert forall|x: u64| #[trigger] b.inner.resident(x) implies x < n by {
            assert(a.inner.resident(x));
        }
    }
}

/// A dirty frame that was chosen can be flushed.
proof fn lemma_dirty_victim(a: BufferPoolShard, b: BufferPoolShard, d: DiskView, f: int)
    requires
        a.wf(),
        a.clean(d),
        b.pages@ == a.pages@,
        b.inner.page_table@ == a.inner.page_table@,
        b.inner.metadata@ == a.inner.metadata@,
        b.inner.tables_wf(),
        0 <= f < b.inner.metadata@.len(),
        b.inner.metadata@[f].pin_count == 0,
        forall|g: int|
            0 <= g < b.inner.metadata@.len() && g != f ==> #[trigger] b.inner.frame_wf(g),
        b.inner.metadata@[f].page_id != INVALID_FRAME_ID,
    ensures
        b.inner.wf_but(f),
        b.inner.resident(b.inner.metadata@[f].page_id),
        b.inner.page_table@[b.inner.metadata@[f].page_id] == f,
        b.clean(d),
{
    assert(a.inner.frame_wf(f));
    lemma_same_meta(a, b, d, 0);
}

/// A clean page left its frame to another one.
proof fn lemma_taken(a: BufferPoolShard, b: BufferPoolShard, f: int, id: u64, d: DiskView)
    requires
        a.wf(),
        a.settled(),
        a.clean(d),
        b.wf(),
        0 <= f < a.inner.metadata@.len(),
        !a.inner.resident(id),
        id != INVALID_FRAME_ID,
        !a.inner.metadata@[f].is_dirty,
        a.inner.metadata@[f].pin_count == 0,
        b.pages@ == a.pages@,
        b.inner.metadata@ == a.inner.metadata@.update(f, taken(id, a.inner.metadata@[f])),
        b.inner.page_table@ == a.inner.page_table@.remove(a.inner.metadata@[f].page_id).insert(
            id,
            f as usize,
        ),
    ensures
        stepped(a, b, d, id),
{
    let out = a.inner.metadata@[f].page_id;
    assert(a.inner.frame_wf(f));
    assert forall|x: u64| safe(a, d, x) implies #[trigger] safe(b, d, x) by {
        if a.inner.resident(x) && a.inner.meta(x).is_dirty {
            assert(a.inner.page_table@[x] != f);
            assert(a.inner.metadata@[a.inner.page_table@[x] as int].page_id == x);
        }
    }
    assert forall|x: u64| #[trigger] b.page(d, x) == a.page(d, x) by {
        if x == id {
        } else if x == out && out != INVALID_FRAME_ID {
            assert(a.inner.resident(x));
        } else if a.inner.resident(x) {
            assert(a.inner.page_table@[x] != f);
        }
    }
    assert forall|x: u64| x != id implies #[trigger] b.inner.pins(x) == a.inner.pins(x) by {
        if a.inner.resident(x) {
            assert(a.inner.metadata@[a.inner.page_table@[x] as int].page_id == x);
        }
    }
    assert forall|x: u64| #[trigger]
        b.inner.resident(x) && !b.inner.meta(x).loading && !b.inner.meta(x).is_dirty implies plain(
        b.cached(x),
    ) == plain(d.content(x)) by {
        if x != id {
            assert(a.inner.resident(x));
            assert(a.inner.page_table@[x] != f);
        }
    }
    assert forall|n: u64| #![trigger b.below(n)] a.below(n) && id < n implies b.below(n) by {
        assert forall|x: u64| #[trigger] b.inner.resident(x) implies x < n by {
            if x != id {
                assert(a.inner.resident(x));
            }
        }
    }
}

/// A frame chosen for another page: nobody has it pinned, and nothing else changed.
proof fn lemma_victim(a: ShardInner, b: ShardInner, f: usize)
    requires
        a.wf(),
        b.metadata@ == a.metadata@,
        b.page_table@ == a.page_table@,
        b.min_rec_lsn == a.min_rec_lsn,
        b.replacer.wf(),
        b.replacer@.used.len() == a.replacer@.used.len(),
        if a.free_list@.len() > 0 {
            f == a.free_list@.last() && b.free_list@ == a.free_list@.drop_last() && b.replacer@
                == a.replacer@
        } else {
            b.free_list@ == a.free_list@ && f < a.metadata@.len() && a.replacer@.evictable[f as int]
                && b.replacer@.evictable == a.replacer@.evictable.update(f as int, false)
        },
    ensures
        f < b.metadata@.len(),
        b.tables_wf(),
        b.metadata@[f as int].pin_count == 0,
        !b.free_list@.contains(f),
        !b.replacer@.evictable[f as int],
        forall|g: int| 0 <= g < b.metadata@.len() && g != f ==> #[trigger] b.frame_wf(g),
        b.metadata@[f as int].page_id != INVALID_FRAME_ID ==> b.page_table@.dom().contains(
            b.metadata@[f as int].page_id,
        ) && b.page_table@[b.metadata@[f as int].page_id] == f,
        b.metadata@[f as int].page_id == INVALID_FRAME_ID ==> !b.metadata@[f as int].is_dirty,
{
    let n = a.free_list@.len() as int;
    if n > 0 {
        assert(a.free_list@[n - 1] == f);
        assert(f < a.metadata@.len());
        assert(a.frame_wf(f as int));
        assert(!b.free_list@.contains(f)) by {
            if b.free_list@.contains(f) {
                let i = choose|i: int| 0 <= i < b.free_list@.len() && b.free_list@[i] == f;
                assert(a.free_list@[i] == f);
            }
        }
        assert forall|g: int| 0 <= g < b.metadata@.len() && g != f implies #[trigger] b.frame_wf(
            g,
        ) by {
            assert(a.frame_wf(g));
            if a.metadata@[g].page_id == INVALID_FRAME_ID {
                let i = choose|i: int| 0 <= i < n && a.free_list@[i] == g as usize;
                assert(b.free_list@[i] == g as usize);
            }
        }
        assert(b.free_list@.no_duplicates());
        assert forall|i: int| 0 <= i < b.free_list@.len() implies (#[trigger] b.free_list@[i])
            < b.metadata@.len() && b.metadata@[b.free_list@[i] as int].page_id
            == INVALID_FRAME_ID by {
            assert(a.free_list@[i] < a.metadata@.len());
        }
    } else {
        assert(a.frame_wf(f as int));
        assert forall|g: int| 0 <= g < b.metadata@.len() && g != f implies #[trigger] b.frame_wf(
            g,
        ) by {
            assert(a.frame_wf(g));
        }
    }
}

/// The bookkeeping after a frame became free.
pub open spec fn emptied(m: FrameMetadata) -> FrameMetadata {
    FrameMetadata {
        page_id: INVALID_FRAME_ID,
        pin_count: 0,
        is_dirty: false,
        loading: false,
        rec_lsn: None,
    }
}

proof fn lemma_empty(a: ShardInner, b: ShardInner, f: int, id: u64)
    requires
        a.wf(),
        a.resident(id),
        a.page_table@[id] == f,
        b.metadata@ == a.metadata@.update(f, emptied(a.metadata@[f])),
        b.page_table@ == a.page_table@.remove(id),
        b.free_list@ == a.free_list@.push(f as usize),
        b.min_rec_lsn == least_rec_lsn(b.metadata@, b.metadata@.len() as int),
        b.replacer.wf(),
        b.replacer@.evictable == a.replacer@.evictable.update(f, false),
        b.replacer@.used.len() == a.replacer@.used.len(),
    ensures
        b.wf(),
        pins_of(b.metadata@, b.metadata@.len() as int) == pins_of(
            a.metadata@,
            a.metadata@.len() as int,
        ) - a.metadata@[f].pin_count,
{
    lemma_sums_update(a.metadata@, f, emptied(a.metadata@[f]), a.metadata@.len() as int);
    let la = a.free_list@;
    let lb = b.free_list@;
    assert(a.frame_wf(f));
    assert(lb[la.len() as int] == f);
    assert(!la.contains(f as usize)) by {
        if la.contains(f as usize) {
            let i = choose|i: int| 0 <= i < la.len() && la[i] == f as usize;
            assert(la[i] < a.metadata@.len());
        }
    }
    assert(lb.no_duplicates()) by {
        assert forall|i: int, j: int| 0 <= i < lb.len() && 0 <= j < lb.len() && i != j implies lb[i]
            != lb[j] by {
            if i == la.len() {
                assert(la[j] != f);
            } else if j == la.len() {
                assert(la[i] != f);
            }
        }
    }
    assert forall|g: int| 0 <= g < b.metadata@.len() implies #[trigger] b.frame_wf(g) by {
        assert(a.frame_wf(g));
        if g != f {
            let p = a.metadata@[g].page_id;
            if p != INVALID_FRAME_ID {
                assert(p != id);
            } else {
                let i = choose|i: int| 0 <= i < la.len() && la[i] == g as usize;
                assert(lb[i] == g as usize);
            }
        }
    }
    assert forall|x: u64| #[trigger] b.page_table@.dom().contains(x) implies x != INVALID_FRAME_ID
        && 0 <= b.page_table@[x] < b.metadata@.len() && b.metadata@[b.page_table@[x] as int].page_id
        == x by {
        assert(a.page_table@.dom().contains(x));
        assert(a.page_table@[x] != f);
    }
    assert forall|i: int| 0 <= i < lb.len() implies (#[trigger] lb[i]) < b.metadata@.len()
        && b.metadata@[lb[i] as int].page_id == INVALID_FRAME_ID by {
        if i < la.len() {
            assert(la[i] < a.metadata@.len());
        }
    }
}

impl BufferPoolShard {
    /// Ends a load: the page is there, or its frame is free again.
    pub fn finish_load(&mut self, page_id: u64, frame_id: usize, success: bool)
        requires
            old(self).wf(),
            old(self).inner.resident(page_id),
            old(self).inner.page_table@[page_id] == frame_id,
        ensures
            final(self).wf(),
            final(self).pages@ == old(self).pages@,
            final(self).last_checkpoint_redo_point == old(self).last_checkpoint_redo_point,
            final(self).inner.ledger() == (if success {
                old(self).inner.ledger().loaded(frame_id as int)
            } else {
                old(self).inner.ledger().vacated(frame_id as int)
            }),
            ({
                let m = old(self).inner.meta(page_id);
                if success {
                    &&& final(self).inner.page_table@ == old(self).inner.page_table@
                    &&& final(self).inner.metadata@ == old(self).inner.metadata@.update(
                        frame_id as int,
                        FrameMetadata { loading: false, ..m },
                    )
                    &&& final(self).pin_total() == old(self).pin_total()
                } else {
                    &&& final(self).inner.page_table@ == old(self).inner.page_table@.remove(page_id)
                    &&& final(self).inner.metadata@ == old(self).inner.metadata@.update(
                        frame_id as int,
                        emptied(m),
                    )
                    &&& final(self).pin_total() == old(self).pin_total() - m.pin_count
                }
            }),
    {
        let ghost before = self.inner;
        assert(before.frame_wf(frame_id as int));
        let mut m = self.inner.metadata[frame_id];
        if success {
            m.loading = false;
            self.inner.set_meta(frame_id, m);
            proof {
                assert(before.replacer@.evictable =~= before.replacer@.evictable.update(
                    frame_id as int,
                    m.pin_count == 0,
                ));
                lemma_least_update(
                    before.metadata@,
                    frame_id as int,
                    m,
                    before.metadata@.len() as int,
                );
                assert(self.inner.ledger() =~= before.ledger().loaded(frame_id as int));
                lemma_frame_change(before, self.inner, frame_id as int, m);
                lemma_sums_update(
                    before.metadata@,
                    frame_id as int,
                    m,
                    before.metadata@.len() as int,
                );
            }
        } else {
            self.inner.page_table.remove(&page_id);
            let was: Option<Lsn> = m.rec_lsn;
            m.page_id = INVALID_FRAME_ID;
            m.pin_count = 0;
            m.is_dirty = false;
            m.loading = false;
            m.rec_lsn = None;
            self.inner.set_meta(frame_id, m);
            if was == self.inner.min_rec_lsn {
                self.inner.min_rec_lsn = self.inner.find_least_rec_lsn();
            }
            self.inner.replacer.pin(frame_id);
            self.inner.free_list.push(frame_id);
            proof {
                lemma_least_without(before.metadata@, frame_id as int, m);
                assert(self.inner.ledger() =~= before.ledger().vacated(frame_id as int));
                lemma_empty(before, self.inner, frame_id as int, page_id);
            }
        }
    }

    /// Brings the page into a frame and pins it.
    pub fn fetch(&mut self, page_id: u64, disk: &mut DiskManager, wal: &mut Wal) -> (r: Result<
        usize,
        BufferPoolError,
    >)
        requires
            old(self).wf(),
            old(self).settled(),
            old(self).clean(old(disk)@),
            page_id != INVALID_FRAME_ID,
            old(self).inner.pins(page_id) < u64::MAX,
            disk_ok(old(disk)),
            wal_ok(old(wal)),
        ensures
            final(self).wf(),
            final(self).settled(),
            disk_ok(final(disk)),
            wal_ok(final(wal)),
            log_step(old(wal)@, final(wal)@),
            final(self).clean(final(disk)@),
            final(self).pages@.len() == old(self).pages@.len(),
            final(self).last_checkpoint_redo_point == old(self).last_checkpoint_redo_point,
            brought(
                *old(self),
                *old(disk),
                old(wal)@,
                *final(self),
                *final(disk),
                final(wal)@,
                page_id,
                false,
                match r {
                    Ok(_) => Ok(()),
                    Err(e) => Err(e),
                },
            ),
            same_pages(*old(self), old(disk)@, *final(self), final(disk)@),
            written_back(*old(self), old(disk)@, final(disk)@, final(wal)@),
            disk_step(old(disk)@, final(disk)@),
            still_safe(*old(self), old(disk)@, *final(self), final(disk)@),
            bounded(*old(self), old(disk)@, *final(self), final(disk)@, page_id),
            forall|id: u64|
                id != page_id ==> #[trigger] final(self).inner.pins(id) == old(self).inner.pins(id),
            match r {
                Ok(f) => {
                    &&& final(self).inner.resident(page_id)
                    &&& final(self).inner.page_table@[page_id] == f
                    &&& f < final(self).pages@.len()
                    &&& final(self).inner.pins(page_id) == old(self).inner.pins(page_id) + 1
                    &&& final(self).pin_total() == old(self).pin_total() + 1
                },
                Err(e) => {
                    &&& final(self).inner.pins(page_id) == old(self).inner.pins(page_id)
                    &&& final(self).pin_total() == old(self).pin_total()
                    &&& storage_error(e, final(disk)@, final(wal)@) || unreadable(
                        e,
                        *final(self),
                        final(disk)@,
                        page_id,
                    ) || e == BufferPoolError::NoEvictableFrames && old(self).pin_total() >= old(self).pages@.len()
                },
            },
    {
        proof {
            reveal(brought);
        }
        let (f, load) = match self.acquire_frame(page_id, disk, wal) {
            Ok(p) => p,
            Err(e) => {
                return Err(e);
            },
        };
        if !load {
            return Ok(f);
        }
        let ghost taken_ = *self;
        let mut buf: Vec<u8> = vec![0u8; PAGE_SIZE];
        let read = disk.read_page(page_id, buf.as_mut_slice());
        let error: Option<BufferPoolError> = match read {
            Err(e) => Some(BufferPoolError::Disk(e)),
            Ok(()) => match verify_checksum(buf.as_slice()) {
                Ok(()) => None,
                Err((expected, actual)) => Some(
                    BufferPoolError::PageCorruption { page_id, expected, actual },
                ),
            },
        };
        match error {
            Some(e) => {
                self.finish_load(page_id, f, false);
                proof {
                    lemma_load_failed(taken_, *self, disk@, page_id);
                    lemma_safe_chain(*old(self), old(disk)@, taken_, disk@, *self, disk@);
                    assert forall|id: u64| #[trigger] self.page(disk@, id) == old(self).page(
                        old(disk)@,
                        id,
                    ) by {
                        assert(taken_.page(disk@, id) == old(self).page(old(disk)@, id));
                    }
                    assert forall|x: u64| #[trigger] self.inner.resident(x) implies old(self).inner.resident(x) || x == page_id by {
                        assert(taken_.inner.resident(x));
                    }
                    assert forall|n: u64|
                        #![trigger self.below(n)]
                        old(self).below(n) && page_id < n && old(disk)@.count <= n implies self.below(
                        n,
                    ) && disk@.count <= n by {
                        assert(taken_.below(n));
                    }
                }
                Err(e)
            },
            None => {
                let data = PageData(buf);
                self.pages.set(f, data);
                let ghost filled = *self;
                self.finish_load(page_id, f, true);
                proof {
                    assert(self.pages@ =~= old(self).pages@.update(
                        f as int,
                        self.pages@[f as int],
                    ));
                    lemma_loaded(taken_, filled, *self, disk@, page_id);
                    lemma_safe_chain(*old(self), old(disk)@, taken_, disk@, *self, disk@);
                    assert forall|id: u64| #[trigger] self.page(disk@, id) == old(self).page(
                        old(disk)@,
                        id,
                    ) by {
                        assert(taken_.page(disk@, id) == old(self).page(old(disk)@, id));
                    }
                    assert forall|x: u64| #[trigger] self.inner.resident(x) implies old(self).inner.resident(x) || x == page_id by {
                        assert(taken_.inner.resident(x));
                    }
                    assert forall|n: u64|
                        #![trigger self.below(n)]
                        old(self).below(n) && page_id < n && old(disk)@.count <= n implies self.below(
                        n,
                    ) && disk@.count <= n by {
                        assert(taken_.below(n));
                    }
                }
                Ok(f)
            },
        }
    }
}

/// The error says that the page cannot be read back, and that is so: it is in no frame,
/// and the data file ends before it or holds damaged bytes for it.
pub open spec fn unreadable(
    e: BufferPoolError,
    s: BufferPoolShard,
    disk: DiskView,
    page_id: u64,
) -> bool {
    &&& !s.inner.resident(page_id)
    &&& match e {
        BufferPoolError::Disk(d) => {
            &&& page_id >= disk.count
            &&& d == DiskError::Io(crate::error::IoError::UnexpectedEof)
        },
        BufferPoolError::PageCorruption { page_id: p, .. } => {
            &&& p == page_id
            &&& !intact(disk.content(page_id))
        },
        _ => false,
    }
}

proof fn lemma_load_failed(a: BufferPoolShard, b: BufferPoolShard, d: DiskView, id: u64)
    requires
        a.wf(),
        b.wf(),
        a.clean(d),
        a.inner.resident(id),
        a.inner.meta(id).loading,
        b.pages@ == a.pages@,
        b.inner.page_table@ == a.inner.page_table@.remove(id),
        b.inner.metadata@ == a.inner.metadata@.update(
            a.inner.page_table@[id] as int,
            emptied(a.inner.meta(id)),
        ),
        forall|g: int|
            0 <= g < a.inner.metadata@.len() && g != a.inner.page_table@[id] ==> !(
            #[trigger] a.inner.metadata@[g]).loading,
    ensures
        b.settled(),
        b.clean(d),
        same_pages(a, d, b, d),
        forall|x: u64| x != id ==> #[trigger] b.inner.pins(x) == a.inner.pins(x),
        forall|x: u64| #[trigger] b.inner.resident(x) ==> a.inner.resident(x),
        forall|n: u64| #![trigger b.below(n)] a.below(n) ==> b.below(n),
        !a.inner.meta(id).is_dirty ==> still_safe(a, d, b, d),
{
    let f = a.inner.page_table@[id] as int;
    assert forall|x: u64| x != id && a.inner.resident(x) implies a.inner.page_table@[x] != f by {}
    assert forall|x: u64|
        !a.inner.meta(id).is_dirty && safe(a, d, x) implies #[trigger] safe(b, d, x) by {
        if x != id && a.inner.resident(x) {
            assert(a.inner.page_table@[x] != f);
        }
    }
    assert forall|x: u64| #[trigger] b.page(d, x) == a.page(d, x) by {
        if x != id && a.inner.resident(x) {
            assert(a.inner.page_table@[x] != f);
        }
    }
    assert forall|x: u64| #[trigger]
        b.inner.resident(x) && !b.inner.meta(x).loading && !b.inner.meta(x).is_dirty implies plain(
        b.cached(x),
    ) == plain(d.content(x)) by {
        assert(a.inner.resident(x));
        assert(a.inner.page_table@[x] != f);
    }
    assert forall|n: u64| #![trigger b.below(n)] a.below(n) implies b.below(n) by {
        assert forall|x: u64| #[trigger] b.inner.resident(x) implies x < n by {
            assert(a.inner.resident(x));
        }
    }
}

proof fn lemma_loaded(
    a: BufferPoolShard,
    m: BufferPoolShard,
    b: BufferPoolShard,
    d: DiskView,
    id: u64,
)
    requires
        a.wf(),
        b.wf(),
        a.clean(d),
        a.inner.resident(id),
        a.inner.meta(id).loading,
        m.inner == a.inner,
        m.pages@.len() == a.pages@.len(),
        forall|g: int|
            0 <= g < a.pages@.len() && g != a.inner.page_table@[id] ==> m.pages@[g] == a.pages@[g],
        plain(m.pages@[a.inner.page_table@[id] as int].0@) == plain(d.content(id)),
        b.pages@ == m.pages@,
        b.inner.page_table@ == a.inner.page_table@,
        b.inner.metadata@ == a.inner.metadata@.update(
            a.inner.page_table@[id] as int,
            FrameMetadata { loading: false, ..a.inner.meta(id) },
        ),
        forall|g: int|
            0 <= g < a.inner.metadata@.len() && g != a.inner.page_table@[id] ==> !(
            #[trigger] a.inner.metadata@[g]).loading,
    ensures
        b.settled(),
        b.clean(d),
        same_pages(a, d, b, d),
        forall|x: u64| #[trigger] b.inner.pins(x) == a.inner.pins(x),
        forall|x: u64| #[trigger] b.inner.resident(x) ==> a.inner.resident(x),
        forall|n: u64| #![trigger b.below(n)] a.below(n) ==> b.below(n),
        still_safe(a, d, b, d),
{
    let f = a.inner.page_table@[id] as int;
    assert forall|x: u64| safe(a, d, x) implies #[trigger] safe(b, d, x) by {
        if x != id && a.inner.resident(x) {
            assert(a.inner.page_table@[x] != f);
        }
    }
    assert forall|x: u64| #[trigger] b.page(d, x) == a.page(d, x) by {
        if x != id && a.inner.resident(x) {
            assert(a.inner.page_table@[x] != f);
        }
    }
    assert forall|x: u64| #[trigger]
        b.inner.resident(x) && !b.inner.meta(x).loading && !b.inner.meta(x).is_dirty implies plain(
        b.cached(x),
    ) == plain(d.content(x)) by {
        assert(a.inner.resident(x));
        if x != id {
            assert(a.inner.page_table@[x] != f);
        }
    }
    assert forall|n: u64| #![trigger b.below(n)] a.below(n) implies b.below(n) by {
        assert forall|x: u64| #[trigger] b.inner.resident(x) implies x < n by {
            assert(a.inner.resident(x));
        }
    }
}

impl BufferPoolShard {
    /// Takes a frame for a page that does not exist yet, fills it with zeros and pins it.
    pub fn create(&mut self, page_id: u64, disk: &mut DiskManager, wal: &mut Wal) -> (r: Result<
        usize,
        BufferPoolError,
    >)
        requires
            old(self).wf(),
            old(self).settled(),
            old(self).clean(old(disk)@),
            page_id != INVALID_FRAME_ID,
            !old(self).inner.resident(page_id),
            !old(disk)@.pages.dom().contains(page_id),
            old(self).below(page_id),
            old(disk)@.count <= page_id,
            disk_ok(old(disk)),
            wal_ok(old(wal)),
        ensures
            final(self).wf(),
            final(self).settled(),
            disk_ok(final(disk)),
            wal_ok(final(wal)),
            log_step(old(wal)@, final(wal)@),
            final(self).clean(final(disk)@),
            final(self).pages@.len() == old(self).pages@.len(),
            final(self).last_checkpoint_redo_point == old(self).last_checkpoint_redo_point,
            brought(
                *old(self),
                *old(disk),
                old(wal)@,
                *final(self),
                *final(disk),
                final(wal)@,
                page_id,
                true,
                match r {
                    Ok(_) => Ok(()),
                    Err(e) => Err(e),
                },
            ),
            same_pages(*old(self), old(disk)@, *final(self), final(disk)@),
            written_back(*old(self), old(disk)@, final(disk)@, final(wal)@),
            disk_step(old(disk)@, final(disk)@),
            still_safe(*old(self), old(disk)@, *final(self), final(disk)@),
            final(self).below((page_id + 1) as u64),
            forall|x: u64| #[trigger]
                final(self).inner.resident(x) ==> old(self).inner.resident(x) || x == page_id,
            final(disk)@.count <= page_id + 1,
            forall|id: u64|
                id != page_id ==> #[trigger] final(self).inner.pins(id) == old(self).inner.pins(id),
            match r {
                Ok(f) => {
                    &&& final(self).inner.resident(page_id)
                    &&& final(self).inner.page_table@[page_id] == f
                    &&& f < final(self).pages@.len()
                    &&& final(self).cached(page_id) == zero_page()
                    &&& final(self).inner.pins(page_id) == 1
                    &&& final(self).pin_total() == old(self).pin_total() + 1
                },
                Err(e) => {
                    &&& final(self).inner.pins(page_id) == 0
                    &&& final(self).pin_total() == old(self).pin_total()
                    &&& storage_error(e, final(disk)@, final(wal)@) || e
                        == BufferPoolError::NoEvictableFrames && old(self).pin_total()
                        >= old(self).pages@.len()
                },
            },
    {
        proof {
            reveal(brought);
        }
        let ghost limit: u64 = (page_id + 1) as u64;
        assert(old(self).below(limit)) by {
            assert forall|x: u64| #[trigger] old(self).inner.resident(x) implies x < limit by {
                assert(x < page_id);
            }
        }
        let (f, _load) = match self.acquire_frame(page_id, disk, wal) {
            Ok(p) => p,
            Err(e) => {
                assert(self.below(limit));
                return Err(e);
            },
        };
        assert(self.below(limit));
        let ghost taken_ = *self;
        let data = PageData::new();
        self.pages.set(f, data);
        let ghost filled = *self;
        self.finish_load(page_id, f, true);
        proof {
            assert(self.pages@ =~= old(self).pages@.update(f as int, self.pages@[f as int]));
            assert(taken_.page(disk@, page_id) == old(self).page(old(disk)@, page_id));
            assert(old(disk)@.content(page_id) =~= zero_page());
            lemma_loaded(taken_, filled, *self, disk@, page_id);
            lemma_safe_chain(*old(self), old(disk)@, taken_, disk@, *self, disk@);
            assert forall|id: u64| #[trigger] self.page(disk@, id) == old(self).page(
                old(disk)@,
                id,
            ) by {
                assert(taken_.page(disk@, id) == old(self).page(old(disk)@, id));
            }
            assert forall|x: u64| #[trigger] self.inner.resident(x) implies old(self).inner.resident(x) || x == page_id by {
                assert(taken_.inner.resident(x));
            }
        }
        Ok(f)
    }

    /// Writes all dirty pages, frame by frame, and makes them durable together.
    pub fn flush_all_pages(&mut self, disk: &mut DiskManager, wal: &mut Wal) -> (r: Result<
        (),
        BufferPoolError,
    >)
        requires
            old(self).wf(),
            old(self).settled(),
            old(self).clean(old(disk)@),
            forall|f: int|
                0 <= f < old(self).inner.metadata@.len() ==> (#[trigger] old(self).inner.metadata@[f]).pin_count < u64::MAX,
            disk_ok(old(disk)),
            wal_ok(old(wal)),
        ensures
            final(self).wf(),
            final(self).settled(),
            disk_ok(final(disk)),
            wal_ok(final(wal)),
            log_step(old(wal)@, final(wal)@),
            final(self).clean(final(disk)@),
            same_frames(*old(self), *final(self)),
            same_pages(*old(self), old(disk)@, *final(self), final(disk)@),
            written_back(*old(self), old(disk)@, final(disk)@, final(wal)@),
            disk_kept(*old(self), old(disk)@, final(disk)@, final(wal)@),
            still_safe(*old(self), old(disk)@, *final(self), final(disk)@),
            r is Ok ==> forall|f: int|
                0 <= f < final(self).inner.metadata@.len() ==> !(#[trigger] final(self).inner.metadata@[f]).is_dirty,
            r matches Err(e) ==> storage_error(e, final(disk)@, final(wal)@),
            ({
                let l = old(self).inner.ledger();
                let n = old(self).inner.metadata@.len() as int;
                match r {
                    Ok(()) => {
                        &&& final(self).inner.ledger() == l.all_written(n)
                        &&& final(disk)@ == saved(old(disk)@, *old(self), dirty_frames(l.frames, n))
                        &&& old(wal)@.ready() ==> final(wal)@ == logged(
                            old(wal)@,
                            *old(self),
                            dirty_frames(l.frames, n),
                        )
                        &&& final(disk).syncs() == (if dirty_frames(l.frames, n).len() > 0 {
                            counted_up(old(disk).syncs(), 1)
                        } else {
                            old(disk).syncs()
                        })
                    },
                    Err(_) => exists|k: int|
                        0 <= k < n && l.frames[k].is_dirty && final(self).inner.ledger() == (
                        #[trigger] l.all_written(k)).idle(k) && final(disk)@ == saved(
                            old(disk)@,
                            *old(self),
                            dirty_frames(l.frames, k),
                        ) && final(disk).syncs() == old(disk).syncs(),
                }
            }),
    {
        let mut written: Vec<u64> = Vec::new();
        let n_frames: usize = self.pages.len();
        let mut frame_id: usize = 0;
        proof {
            lemma_flush_keeps_pages(*old(self), old(disk)@, *self, disk@, wal@);
            lemma_log_still(wal@);
        }
        while frame_id < n_frames
            invariant
                frame_id <= n_frames,
                n_frames == self.pages@.len(),
                self.wf(),
                self.settled(),
                self.clean(disk@),
                old(self).wf(),
                old(self).settled(),
                disk_ok(disk),
                wal_ok(wal),
                log_step(old(wal)@, wal@),
                same_frames(*old(self), *self),
                disk_kept(*old(self), old(disk)@, disk@, wal@),
                still_safe(*old(self), old(disk)@, *self, disk@),
                forall|f: int|
                    0 <= f < self.inner.metadata@.len() ==> (#[trigger] self.inner.metadata@[f]).pin_count
                        < u64::MAX,
                forall|f: int|
                    0 <= f < frame_id ==> !(#[trigger] self.inner.metadata@[f]).is_dirty,
                written@.len() > 0 ==> disk@.broken is None,
                self.inner.ledger() == old(self).inner.ledger().all_written(frame_id as int),
                written@.len() == dirty_frames(old(self).inner.metadata@, frame_id as int).len(),
                disk@ == saved(
                    old(disk)@,
                    *old(self),
                    dirty_frames(old(self).inner.metadata@, frame_id as int),
                ),
                old(wal)@.ready() ==> wal@ == logged(
                    old(wal)@,
                    *old(self),
                    dirty_frames(old(self).inner.metadata@, frame_id as int),
                ),
                forall|g: int|
                    frame_id <= g < n_frames ==> #[trigger] self.inner.metadata@[g]
                        == old(self).inner.metadata@[g],
                disk.syncs() == old(disk).syncs(),
            decreases n_frames - frame_id,
        {
            let ghost here = *self;
            let ghost here_disk = disk@;
            let ghost here_wal = wal@;
            let m = self.inner.metadata[frame_id];
            assert(self.inner.frame_wf(frame_id as int));
            proof {
                let l = old(self).inner.ledger();
                assert(l.all_written(frame_id + 1) == (if m.is_dirty {
                    here.inner.ledger().written(frame_id as int)
                } else {
                    here.inner.ledger()
                }));
                let before = dirty_frames(old(self).inner.metadata@, frame_id as int);
                assert(before.push(frame_id as int).drop_last() =~= before);
            }
            if m.is_dirty && m.page_id != INVALID_FRAME_ID {
                assert(self.inner.resident(m.page_id));
                let flushed = self.flush_page_without_sync(m.page_id, disk, wal);
                proof {
                    lemma_disk_kept_same(here, *old(self), here_disk, disk@, wal@);
                    lemma_log_chain(old(wal)@, here_wal, wal@);
                    lemma_safe_chain(*old(self), old(disk)@, here, here_disk, *self, disk@);
                    lemma_disk_kept_chain(*old(self), old(disk)@, here_disk, disk@, here_wal, wal@);
                    lemma_flush_keeps_pages(*old(self), old(disk)@, *self, disk@, wal@);
                }
                match flushed {
                    Ok(wrote) => {
                        if wrote {
                            written.push(m.page_id);
                        }
                    },
                    Err(e) => {
                        assert(self.inner.ledger() == old(self).inner.ledger().all_written(
                            frame_id as int,
                        ).idle(frame_id as int));
                        return Err(e);
                    },
                }
            }
            frame_id = frame_id + 1;
        }
        proof {
            lemma_flush_keeps_pages(*old(self), old(disk)@, *self, disk@, wal@);
        }
        if written.len() > 0 {
            match disk.sync_data() {
                Ok(()) => {},
                Err(e) => {
                    return Err(BufferPoolError::Disk(e));
                },
            }
        }
        Ok(())
    }

    /// Takes the page out of the shard, written to the data file first where it is
    /// dirty. A page that somebody has pinned stays.
    pub fn delete_page(&mut self, page_id: u64, disk: &mut DiskManager, wal: &mut Wal) -> (r: Result<
        (),
        BufferPoolError,
    >)
        requires
            old(self).wf(),
            old(self).settled(),
            old(self).clean(old(disk)@),
            disk_ok(old(disk)),
            wal_ok(old(wal)),
        ensures
            final(self).wf(),
            final(self).settled(),
            disk_ok(final(disk)),
            wal_ok(final(wal)),
            log_step(old(wal)@, final(wal)@),
            final(self).clean(final(disk)@),
            final(self).pages@.len() == old(self).pages@.len(),
            same_pages(*old(self), old(disk)@, *final(self), final(disk)@),
            written_back(*old(self), old(disk)@, final(disk)@, final(wal)@),
            disk_step(old(disk)@, final(disk)@),
            still_safe(*old(self), old(disk)@, *final(self), final(disk)@),
            forall|x: u64| #[trigger]
                final(self).inner.resident(x) ==> old(self).inner.resident(x),
            forall|n: u64|
                #![trigger final(self).below(n)]
                old(self).below(n) && old(disk)@.count <= n ==> final(self).below(n)
                    && final(disk)@.count <= n,
            forall|id: u64| #[trigger] final(self).inner.pins(id) == old(self).inner.pins(id),
            final(self).pin_total() == old(self).pin_total(),
            final(self).pages@ == old(self).pages@,
            final(self).last_checkpoint_redo_point == old(self).last_checkpoint_redo_point,
            ({
                let l = old(self).inner.ledger();
                let f = l.frame(page_id);
                &&& final(self).inner.ledger() == (match r {
                    Ok(()) => if l.holds(page_id) {
                        l.vacated(f)
                    } else {
                        l
                    },
                    Err(BufferPoolError::PinCountError) => l,
                    Err(_) => l.idle(f),
                })
                &&& final(disk)@ == (if r is Ok && l.holds(page_id) && l.meta(page_id).is_dirty {
                    old(disk)@.put(page_id, sealed(old(self).cached(page_id)))
                } else {
                    old(disk)@
                })
                &&& final(disk).syncs() == old(disk).syncs()
                &&& old(wal)@.ready() ==> final(wal)@ == (if l.holds(page_id) && l.meta(
                    page_id,
                ).pin_count == 0 && l.meta(page_id).is_dirty {
                    flushed_up_to(old(wal)@, u64_at(old(self).cached(page_id), 16)).1
                } else {
                    old(wal)@
                })
            }),
            r is Ok <==> !final(self).inner.resident(page_id),
            r == Err::<(), BufferPoolError>(BufferPoolError::PinCountError) <==> old(self).inner.pins(page_id) > 0,
            r matches Err(e) ==> e == BufferPoolError::PinCountError || e
                == BufferPoolError::InternalError(InternalFault::FlushDuringDelete) && (final(disk)@.broken is Some || final(wal)@.error is Some),
    {
        proof {
            lemma_log_still(wal@);
        }
        let f: usize = match self.inner.page_table.get(&page_id) {
            Some(r) => *r,
            None => {
                return Ok(());
            },
        };
        let ghost start = *self;
        assert(start.inner.resident(page_id));
        assert(start.inner.frame_wf(f as int));
        let m = self.inner.metadata[f];
        if m.pin_count > 0 {
            return Err(BufferPoolError::PinCountError);
        }
        if m.is_dirty {
            let res = self.write_frame_to_disk(f, page_id, disk, wal);
            proof {
                law_sealed_is_same_page(self.pages@[f as int].0@);
                law_sealed_is_intact(self.pages@[f as int].0@);
                if wal@.written_up_to(u64_at(start.cached(page_id), 16)) {
                    lemma_put_kept(
                        start,
                        old(disk)@,
                        page_id,
                        sealed(start.cached(page_id)),
                        wal@,
                    );
                }
            }
            self.inner.replacer.unpin(f);
            if res.is_err() {
                proof {
                    assert(self.inner.replacer@.evictable =~= start.inner.replacer@.evictable.update(
                        f as int,
                        true,
                    ));
                    assert(start.inner.metadata@ =~= start.inner.metadata@.update(f as int, m));
                    lemma_frame_change(start.inner, self.inner, f as int, m);
                    assert(self.inner.ledger() =~= start.inner.ledger().idle(f as int));
                    lemma_same_meta(start, *self, disk@, page_id);
                    assert forall|n: u64|
                        #![trigger self.below(n)]
                        old(self).below(n) && old(disk)@.count <= n implies self.below(n)
                        && disk@.count <= n by {
                        assert forall|x: u64| #[trigger] self.inner.resident(x) implies x < n by {
                            assert(start.inner.resident(x));
                        }
                    }
                }
                return Err(BufferPoolError::InternalError(InternalFault::FlushDuringDelete));
            }
            let clean = FrameMetadata { is_dirty: false, rec_lsn: None, ..m };
            self.inner.set_meta(f, clean);
            if m.rec_lsn == self.inner.min_rec_lsn {
                self.inner.min_rec_lsn = self.inner.find_least_rec_lsn();
            }
            proof {
                lemma_least_without(start.inner.metadata@, f as int, clean);
                assert(self.inner.replacer@.evictable =~= start.inner.replacer@.evictable.update(
                    f as int,
                    true,
                ));
                lemma_frame_change(start.inner, self.inner, f as int, clean);
                lemma_sums_update(
                    start.inner.metadata@,
                    f as int,
                    clean,
                    start.inner.metadata@.len() as int,
                );
            }
        }
        let ghost here = *self;
        proof {
            lemma_flush_keeps_pages(start, old(disk)@, here, disk@, wal@);
            assert forall|id: u64| #[trigger]
                here.inner.resident(id) && !here.inner.meta(id).loading
                    && !here.inner.meta(id).is_dirty implies plain(here.cached(id)) == plain(
                disk@.content(id),
            ) by {
                assert(start.inner.resident(id));
                if id != page_id {
                    assert(start.inner.page_table@[id] != f);
                    assert(disk@.content(id) == old(disk)@.content(id));
                }
            }
        }
        let m2 = self.inner.metadata[f];
        self.inner.page_table.remove(&page_id);
        self.inner.set_meta(
            f,
            FrameMetadata {
                page_id: INVALID_FRAME_ID,
                pin_count: 0,
                is_dirty: false,
                ..m2
            },
        );
        self.inner.replacer.pin(f);
        self.inner.free_list.push(f);
        proof {
            assert(!here.inner.metadata@[f as int].loading);
            assert(here.inner.frame_wf(f as int));
            lemma_least_update(
                here.inner.metadata@,
                f as int,
                emptied(m2),
                here.inner.metadata@.len() as int,
            );
            assert(self.inner.metadata@ =~= start.inner.metadata@.update(f as int, emptied(m)));
            assert(self.inner.replacer@ =~= start.inner.replacer@.pinned(f as int));
            assert(self.inner.ledger() =~= start.inner.ledger().vacated(f as int));
            lemma_empty(here.inner, self.inner, f as int, page_id);
            assert forall|x: u64| safe(start, old(disk)@, x) implies #[trigger] safe(
                *self,
                disk@,
                x,
            ) by {
                if stored(old(disk)@, x) {
                    assert(stored(disk@, x));
                } else if x != page_id {
                    assert(start.inner.page_table@[x] != f);
                }
            }
            assert forall|x: u64| #[trigger] self.page(disk@, x) == old(self).page(
                old(disk)@,
                x,
            ) by {
                assert(here.page(disk@, x) == start.page(old(disk)@, x));
                if x == page_id {
                    assert(here.inner.resident(x));
                } else if here.inner.resident(x) {
                    assert(here.inner.page_table@[x] != f);
                }
            }
            assert forall|x: u64| #[trigger] self.inner.pins(x) == old(self).inner.pins(x) by {
                assert(here.inner.pins(x) == start.inner.pins(x));
                if here.inner.resident(x) && x != page_id {
                    assert(here.inner.page_table@[x] != f);
                }
            }
            assert forall|id: u64| #[trigger]
                self.inner.resident(id) && !self.inner.meta(id).loading
                    && !self.inner.meta(id).is_dirty implies plain(self.cached(id)) == plain(
                disk@.content(id),
            ) by {
                assert(here.inner.resident(id));
                assert(here.inner.page_table@[id] != f);
            }
            assert forall|n: u64|
                #![trigger self.below(n)]
                old(self).below(n) && old(disk)@.count <= n implies self.below(n) && disk@.count
                <= n by {
                assert forall|x: u64| #[trigger] self.inner.resident(x) implies x < n by {
                    assert(start.inner.resident(x));
                }
            }
        }
        Ok(())
    }

    /// Marks the page dirty by the change with the given log sequence number. Says
    /// whether the record of the change must carry an image of the page: where the page
    /// was clean, and no record since the last checkpoint had touched it.
    pub fn mark_dirty(&mut self, page_id: u64, lsn: Lsn, page_lsn_before: Lsn) -> (first: bool)
        requires
            old(self).wf(),
        ensures
            final(self).wf(),
            final(self).pages@ == old(self).pages@,
            final(self).inner.page_table@ == old(self).inner.page_table@,
            final(self).last_checkpoint_redo_point == old(self).last_checkpoint_redo_point,
            final(self).inner.ledger() == old(self).inner.ledger().marked(page_id, lsn),
            ({
                let m = old(self).inner.meta(page_id);
                let least = old(self).inner.min_rec_lsn;
                if old(self).inner.resident(page_id) && !m.is_dirty {
                    &&& final(self).inner.metadata@ == old(self).inner.metadata@.update(
                        old(self).inner.page_table@[page_id] as int,
                        FrameMetadata { is_dirty: true, rec_lsn: Some(lsn), ..m },
                    )
                    &&& final(self).inner.min_rec_lsn == (if least is None || lsn < least->0 {
                        Some(lsn)
                    } else {
                        least
                    })
                    &&& first == (page_lsn_before <= old(self).last_checkpoint_redo_point)
                } else {
                    &&& final(self).inner.metadata@ == old(self).inner.metadata@
                    &&& final(self).inner.min_rec_lsn == least
                    &&& !first
                }
            }),
    {
        if let Some(r) = self.inner.page_table.get(&page_id) {
            let f: usize = *r;
            let ghost before = self.inner;
            assert(before.frame_wf(f as int));
            let m = self.inner.metadata[f];
            if !m.is_dirty {
                let marked = FrameMetadata { is_dirty: true, rec_lsn: Some(lsn), ..m };
                self.inner.set_meta(f, marked);
                match self.inner.min_rec_lsn {
                    Some(least) => {
                        if lsn < least {
                            self.inner.min_rec_lsn = Some(lsn);
                        }
                    },
                    None => {
                        self.inner.min_rec_lsn = Some(lsn);
                    },
                }
                proof {
                    assert(before.replacer@.evictable =~= before.replacer@.evictable.update(
                        f as int,
                        m.pin_count == 0,
                    ));
                    lemma_least_update(
                        before.metadata@,
                        f as int,
                        marked,
                        before.metadata@.len() as int,
                    );
                    lemma_frame_change(before, self.inner, f as int, marked);
                    assert(self.inner.ledger() =~= before.ledger().marked(page_id, lsn));
                }
                return page_lsn_before <= self.last_checkpoint_redo_point;
            }
        }
        false
    }

    /// Puts new bytes into the frame of a pinned page.
    pub fn store(&mut self, page_id: u64, data: &[u8])
        requires
            old(self).wf(),
            old(self).inner.resident(page_id),
            data@.len() == PAGE_SIZE,
        ensures
            final(self).wf(),
            final(self).inner == old(self).inner,
            final(self).last_checkpoint_redo_point == old(self).last_checkpoint_redo_point,
            final(self).pages@.len() == old(self).pages@.len(),
            final(self).cached(page_id) == data@,
            forall|g: int|
                0 <= g < old(self).pages@.len() && g != old(self).inner.page_table@[page_id]
                    ==> final(self).pages@[g] == old(self).pages@[g],
    {
        if let Some(r) = self.inner.page_table.get(&page_id) {
            let f: usize = *r;
            let copy: Vec<u8> = vstd::slice::slice_to_vec(data);
            self.pages.set(f, PageData(copy));
        }
    }
}

proof fn lemma_least_prefix(a: Seq<FrameMetadata>, b: Seq<FrameMetadata>, n: int)
    requires
        0 <= n <= a.len() <= b.len(),
        forall|i: int| 0 <= i < n ==> a[i] == b[i],
    ensures
        least_rec_lsn(a, n) == least_rec_lsn(b, n),
    decreases n,
{
    if n > 0 {
        lemma_least_prefix(a, b, n - 1);
    }
}

proof fn lemma_pins_prefix(a: Seq<FrameMetadata>, b: Seq<FrameMetadata>, n: int)
    requires
        0 <= n <= a.len() <= b.len(),
        forall|i: int| 0 <= i < n ==> a[i] == b[i],
    ensures
        pins_of(a, n) == pins_of(b, n),
    decreases n,
{
    if n > 0 {
        lemma_pins_prefix(a, b, n - 1);
    }
}

} // verus!
