//! The buffer pool: shards of frames in front of the data file.
//!
//! A page is used through a guard. Fetching a page pins it, so that it stays in its frame,
//! and hands out a guard with its bytes; releasing the guard takes the pin off, and what
//! was written through the guard goes back into the frame.

use crate::buffer_pool::ledger::{lesser, Ledger};
use crate::buffer_pool::shard::{
    brought, counted_up, dirty_frames, disk_ok, disk_step, empty_ledger, flushed, safe, same_bytes,
    logged, same_frames, same_pages, saved, still_safe, stored, unreadable, wal_ok, written_back,
    BufferPoolShard,
};
use crate::bytes::u64_at;
use crate::constants::{INVALID_FRAME_ID, MAX_FRAMES, NUM_SHARDS, SHARD_MASK};
use crate::disk::{DiskManager, DiskView};
use crate::error::{BufferPoolError, InternalFault};
use crate::page::{intact, page_lsn, plain, sealed, zero_page, Lsn, PAGE_SIZE};
use crate::wal::{flushed_up_to, lemma_log_chain, lemma_log_still, log_step, Wal, WalView};
use vstd::prelude::*;

verus! {

/// Frames of one shard.
pub const SHARD_SIZE: usize = 10;

/// The buffer pool, with the data file and the log behind it.
pub struct BufferPoolManager {
    pub shards: Vec<BufferPoolShard>,
    pub next_page_id: u64,
    pub disk: DiskManager,
    pub wal: Wal,
}

/// A pinned page that is being read.
pub struct PageReadGuard {
    pub page_id: u64,
    pub data: Vec<u8>,
}

/// A pinned page that is being written.
pub struct PageWriteGuard {
    pub page_id: u64,
    pub data: Vec<u8>,
    /// The page was written through the guard.
    pub dirty: bool,
    /// The log sequence number that the change was marked with.
    pub record_lsn: Option<Lsn>,
}

impl View for PageReadGuard {
    type V = Seq<u8>;

    open spec fn view(&self) -> Seq<u8> {
        self.data@
    }
}

impl PageReadGuard {
    /// The page's bytes.
    pub fn memory(&self) -> (s: &[u8])
        ensures
            s@ == self@,
    {
        self.data.as_slice()
    }
}

impl View for PageWriteGuard {
    type V = Seq<u8>;

    open spec fn view(&self) -> Seq<u8> {
        self.data@
    }
}

impl PageWriteGuard {
    /// The page's bytes.
    pub fn memory(&self) -> (s: &[u8])
        ensures
            s@ == self@,
    {
        self.data.as_slice()
    }

    /// The page's bytes, for writing.
    pub fn memory_mut(&mut self) -> (s: &mut [u8])
        ensures
            s@ == old(self)@,
            final(self)@ == final(s)@,
            final(self).page_id == old(self).page_id,
            final(self).dirty,
            final(self).record_lsn == old(self).record_lsn,
    {
        self.dirty = true;
        self.data.as_mut_slice()
    }
}

/// The number of pins on the frames of the first `n` shards.
pub open spec fn pin_sum(shards: Seq<BufferPoolShard>, n: int) -> int
    decreases n,
{
    if n <= 0 {
        0
    } else {
        pin_sum(shards, n - 1) + shards[n - 1].pin_total()
    }
}

proof fn lemma_pin_sum_update(shards: Seq<BufferPoolShard>, k: int, s: BufferPoolShard, n: int)
    requires
        0 <= k < shards.len(),
        0 <= n <= shards.len(),
    ensures
        pin_sum(shards.update(k, s), n) == pin_sum(shards, n) + (if k < n {
            s.pin_total() - shards[k].pin_total()
        } else {
            0
        }),
    decreases n,
{
    if n > 0 {
        lemma_pin_sum_update(shards, k, s, n - 1);
    }
}

proof fn lemma_pin_total_positive(s: BufferPoolShard)
    requires
        s.wf(),
    ensures
        s.pin_total() >= 0,
{
    if s.inner.metadata@.len() > 0 {
        crate::buffer_pool::shard::lemma_sums_update(
            s.inner.metadata@,
            0,
            s.inner.metadata@[0],
            s.inner.metadata@.len() as int,
        );
    }
}

proof fn lemma_pin_sum_bound(shards: Seq<BufferPoolShard>, k: int, n: int)
    requires
        0 <= k < shards.len(),
        0 <= n <= shards.len(),
        forall|j: int| 0 <= j < shards.len() ==> (#[trigger] shards[j]).wf(),
    ensures
        pin_sum(shards, n) >= (if k < n {
            shards[k].pin_total()
        } else {
            0
        }),
    decreases n,
{
    if n > 0 {
        lemma_pin_sum_bound(shards, k, n - 1);
        lemma_pin_total_positive(shards[n - 1]);
    }
}

/// The shard that a page belongs to.
pub open spec fn shard_of(id: u64) -> int {
    id as int % 8
}

impl BufferPoolManager {
    /// One shard is in order.
    pub open spec fn shard_wf(&self, k: int) -> bool {
        let s = self.shards@[k];
        &&& s.wf()
        &&& s.settled()
        &&& s.clean(self.disk@)
        &&& s.pages@.len() == SHARD_SIZE
        &&& s.below(self.next_page_id)
        &&& forall|id: u64| #[trigger] s.inner.resident(id) ==> shard_of(id) == k
    }

    /// All shards are in order, each page is in its shard, and every page of the file has
    /// an id that was given out.
    pub open spec fn wf(&self) -> bool {
        &&& self.shards@.len() == NUM_SHARDS
        &&& forall|k: int| 0 <= k < self.shards@.len() ==> #[trigger] self.shard_wf(k)
        &&& disk_ok(&self.disk)
        &&& wal_ok(&self.wal)
        &&& self.disk@.count <= self.next_page_id
    }

    /// The page, wherever it is.
    pub open spec fn page(&self, id: u64) -> Seq<u8> {
        self.shards@[shard_of(id)].page(self.disk@, id)
    }

    /// How often the page is pinned.
    pub open spec fn pins(&self, id: u64) -> int {
        self.shards@[shard_of(id)].inner.pins(id)
    }

    /// The number of pins on all pages.
    pub open spec fn pin_total(&self) -> int {
        pin_sum(self.shards@, self.shards@.len() as int)
    }

    /// The page is in no frame, and the data file ends before it or holds damaged bytes.
    pub open spec fn lost(&self, id: u64) -> bool {
        &&& !self.shards@[shard_of(id)].inner.resident(id)
        &&& id >= self.disk@.count || !intact(self.disk@.content(id))
    }

    /// The data file or the log cannot be used, or a page cannot be read back.
    pub open spec fn faulty(&self) -> bool {
        ||| self.disk@.broken is Some
        ||| self.wal@.error is Some
        ||| self.next_page_id == u64::MAX
        ||| exists|id: u64| id < self.next_page_id && #[trigger] self.lost(id)
    }
}

/// The shard of the page.
pub open spec fn home(p: BufferPoolManager, id: u64) -> BufferPoolShard {
    p.shards@[shard_of(id)]
}

/// The bookkeeping of the page's shard.
pub open spec fn books(p: BufferPoolManager, id: u64) -> Ledger {
    home(p, id).inner.ledger()
}

/// Nothing happened to the shards but the page's.
pub open spec fn at_home(a: BufferPoolManager, b: BufferPoolManager, id: u64) -> bool {
    b.shards@ == a.shards@.update(shard_of(id), home(b, id))
}

/// What a page's way into a frame of its shard comes to.
pub open spec fn brought_home(
    a: BufferPoolManager,
    b: BufferPoolManager,
    id: u64,
    fresh: bool,
    r: Result<(), BufferPoolError>,
) -> bool {
    &&& at_home(a, b, id)
    &&& home(b, id).last_checkpoint_redo_point == home(a, id).last_checkpoint_redo_point
    &&& brought(home(a, id), a.disk, a.wal@, home(b, id), b.disk, b.wal@, id, fresh, r)
}

/// The data file once all dirty pages of the first `n` shards were written to it.
pub open spec fn saved_shards(d: DiskView, shards: Seq<BufferPoolShard>, n: int) -> DiskView
    decreases n,
{
    if n <= 0 {
        d
    } else {
        saved(
            saved_shards(d, shards, n - 1),
            shards[n - 1],
            dirty_frames(
                shards[n - 1].inner.metadata@,
                shards[n - 1].inner.metadata@.len() as int,
            ),
        )
    }
}

/// The log once it was flushed for all dirty pages of the first `n` shards.
pub open spec fn logged_shards(w: WalView, shards: Seq<BufferPoolShard>, n: int) -> WalView
    decreases n,
{
    if n <= 0 {
        w
    } else {
        logged(
            logged_shards(w, shards, n - 1),
            shards[n - 1],
            dirty_frames(
                shards[n - 1].inner.metadata@,
                shards[n - 1].inner.metadata@.len() as int,
            ),
        )
    }
}

/// How often a sync was asked for once the first `n` shards were flushed: once for each with
/// a dirty page.
pub open spec fn synced_shards(k: u64, shards: Seq<BufferPoolShard>, n: int) -> u64
    decreases n,
{
    if n <= 0 {
        k
    } else {
        let before = synced_shards(k, shards, n - 1);
        let m = shards[n - 1].inner.metadata@;
        if dirty_frames(m, m.len() as int).len() > 0 {
            counted_up(before, 1)
        } else {
            before
        }
    }
}

/// Every dirty page of the shard was written.
pub open spec fn all_flushed(s: BufferPoolShard, t: BufferPoolShard) -> bool {
    &&& same_bytes(s, t)
    &&& t.inner.ledger() == s.inner.ledger().all_written(s.inner.metadata@.len() as int)
}

/// The dirty pages of the first frames of the shard were written, up to one that could not be.
pub open spec fn partly_flushed(s: BufferPoolShard, t: BufferPoolShard, f: int) -> bool {
    &&& same_bytes(s, t)
    &&& 0 <= f < s.inner.metadata@.len()
    &&& s.inner.metadata@[f].is_dirty
    &&& t.inner.ledger() == s.inner.ledger().all_written(f).idle(f)
}

/// The first `n` shards were flushed, and nothing happened to those behind the next one.
#[verifier::opaque]
pub open spec fn shards_flushed(a: BufferPoolManager, b: BufferPoolManager, n: int) -> bool {
    forall|k: int|
        0 <= k < a.shards@.len() && k != n ==> if k < n {
            all_flushed(#[trigger] a.shards@[k], b.shards@[k])
        } else {
            b.shards@[k] == a.shards@[k]
        }
}

/// Every page below `next` can be read back whatever happens to its frame, but maybe one.
#[verifier::opaque]
pub open spec fn all_safe(
    shards: Seq<BufferPoolShard>,
    d: DiskView,
    next: u64,
    but: Option<u64>,
) -> bool {
    forall|id: u64| id < next && but != Some(id) ==> #[trigger] safe(shards[shard_of(id)], d, id)
}

impl BufferPoolManager {
    /// The data file and the log can be used, and every page can be read back, but maybe
    /// a new one that nothing was written to yet.
    pub open spec fn able_but(&self, but: Option<u64>) -> bool {
        &&& self.disk@.broken is None
        &&& self.wal@.ready()
        &&& all_safe(self.shards@, self.disk@, self.next_page_id, but)
    }

    /// The data file and the log can be used, and every page can be read back.
    pub open spec fn able(&self) -> bool {
        self.able_but(None)
    }
}

/// A pool that was able still is.
pub open spec fn upheld(a: BufferPoolManager, b: BufferPoolManager) -> bool {
    forall|but: Option<u64>| a.able_but(but) ==> #[trigger] b.able_but(but)
}

/// Pages, disk and log that were able still are, where one shard made a step.
proof fn lemma_upheld(a: BufferPoolManager, b: BufferPoolManager, k: int)
    requires
        a.shards@.len() == 8,
        0 <= k < 8,
        b.shards@ == a.shards@.update(k, b.shards@[k]),
        b.next_page_id == a.next_page_id,
        still_safe(a.shards@[k], a.disk@, b.shards@[k], b.disk@),
        disk_step(a.disk@, b.disk@),
        log_step(a.wal@, b.wal@),
    ensures
        upheld(a, b),
{
    reveal(all_safe);
    assert forall|but: Option<u64>| a.able_but(but) implies #[trigger] b.able_but(but) by {
        assert forall|id: u64| id < b.next_page_id && but != Some(id) implies #[trigger] safe(
            b.shards@[shard_of(id)],
            b.disk@,
            id,
        ) by {
            assert(safe(a.shards@[shard_of(id)], a.disk@, id));
            if shard_of(id) != k && stored(a.disk@, id) {
                assert(stored(b.disk@, id));
            }
        }
    }
}

/// An able pool lost no page.
pub proof fn lemma_able(p: BufferPoolManager, but: Option<u64>)
    requires
        p.able_but(but),
        but matches Some(x) ==> p.pins(x) > 0,
    ensures
        p.next_page_id < u64::MAX ==> !p.faulty(),
{
    reveal(all_safe);
    assert forall|id: u64| id < p.next_page_id implies !#[trigger] p.lost(id) by {
        if but != Some(id) {
            assert(safe(p.shards@[shard_of(id)], p.disk@, id));
        }
    }
}

/// A record was appended, or was not, and nothing else happened.
pub proof fn lemma_upheld_logged(a: BufferPoolManager, b: BufferPoolManager)
    requires
        b.shards == a.shards,
        b.disk == a.disk,
        b.next_page_id == a.next_page_id,
        a.wal@.ready() ==> b.wal@.ready(),
    ensures
        upheld(a, b),
{
}

/// The step kept every page.
pub open spec fn same_contents(a: BufferPoolManager, b: BufferPoolManager) -> bool {
    forall|id: u64| #[trigger] b.page(id) == a.page(id)
}

/// The step kept the pins of every page.
pub open spec fn same_pins(a: BufferPoolManager, b: BufferPoolManager) -> bool {
    &&& b.pin_total() == a.pin_total()
    &&& forall|id: u64| #[trigger] b.pins(id) == a.pins(id)
}

/// The step put one pin on the page and kept all others.
pub open spec fn pinned(a: BufferPoolManager, b: BufferPoolManager, page_id: u64) -> bool {
    &&& b.pin_total() == a.pin_total() + 1
    &&& b.pins(page_id) == a.pins(page_id) + 1
    &&& forall|id: u64| id != page_id ==> #[trigger] b.pins(id) == a.pins(id)
}

/// The step took one pin off the page and kept all others.
pub open spec fn unpinned(a: BufferPoolManager, b: BufferPoolManager, page_id: u64) -> bool {
    &&& b.pin_total() == a.pin_total() - 1
    &&& b.pins(page_id) == a.pins(page_id) - 1
    &&& forall|id: u64| id != page_id ==> #[trigger] b.pins(id) == a.pins(id)
}

/// Every page of the data file is as it was, or was written as the pool holds it, behind the
/// log: no record up to the page's number waits.
pub open spec fn written_as_held(a: BufferPoolManager, b: BufferPoolManager) -> bool {
    forall|id: u64|
        plain(#[trigger] b.disk@.content(id)) == plain(a.disk@.content(id)) || plain(
            b.disk@.content(id),
        ) == a.page(id) && b.wal@.written_up_to(u64_at(a.page(id), 16))
}

/// The step appended nothing to the log, did not mend or break the data file, and wrote
/// nothing else to it than pages as they are. Unless it made a page, a pool that was able
/// still is.
pub open spec fn same_storage(a: BufferPoolManager, b: BufferPoolManager) -> bool {
    &&& log_step(a.wal@, b.wal@)
    &&& disk_step(a.disk@, b.disk@)
    &&& written_as_held(a, b)
    &&& a.next_page_id <= b.next_page_id
    &&& a.next_page_id == b.next_page_id ==> upheld(a, b)
}

/// Two such steps are one.
pub proof fn lemma_storage_chain(a: BufferPoolManager, b: BufferPoolManager, c: BufferPoolManager)
    requires
        same_contents(a, b),
        same_storage(a, b),
        same_storage(b, c),
    ensures
        same_storage(a, c),
{
    lemma_log_chain(a.wal@, b.wal@, c.wal@);
    assert forall|id: u64| stored(a.disk@, id) implies #[trigger] stored(c.disk@, id) by {
        assert(stored(b.disk@, id));
    }
    assert forall|but: Option<u64>|
        a.next_page_id == c.next_page_id && a.able_but(but) implies #[trigger] c.able_but(but) by {
        assert(b.able_but(but));
    }
    assert forall|id: u64|
        plain(#[trigger] c.disk@.content(id)) == plain(a.disk@.content(id)) || plain(
            c.disk@.content(id),
        ) == a.page(id) && c.wal@.written_up_to(u64_at(a.page(id), 16)) by {
        assert(b.page(id) == a.page(id));
        assert(plain(b.disk@.content(id)) == plain(a.disk@.content(id)) || plain(
            b.disk@.content(id),
        ) == a.page(id) && b.wal@.written_up_to(u64_at(a.page(id), 16)));
    }
}

/// What a failure to get a frame for a page says.
pub open spec fn fault(e: BufferPoolError, before: BufferPoolManager, after: BufferPoolManager) -> bool {
    ||| after.faulty()
    ||| e == BufferPoolError::NoEvictableFrames && before.pin_total() >= SHARD_SIZE
}

proof fn lemma_shards_wf(a: BufferPoolManager)
    requires
        a.wf(),
    ensures
        forall|j: int| 0 <= j < a.shards@.len() ==> (#[trigger] a.shards@[j]).wf(),
{
    assert forall|j: int| 0 <= j < a.shards@.len() implies (#[trigger] a.shards@[j]).wf() by {
        assert(a.shard_wf(j));
    }
}

/// Pages that were not given out are pages of zeros.
pub proof fn lemma_beyond(p: BufferPoolManager, id: u64)
    requires
        p.wf(),
        p.next_page_id <= id,
    ensures
        p.page(id) == plain(zero_page()),
        p.disk@.content(id) == zero_page(),
{
    let k = shard_of(id);
    assert(p.shard_wf(k));
    assert(!p.shards@[k].inner.resident(id));
    assert(p.disk@.content(id) =~= zero_page());
}

/// Every page has the size of a page.
pub proof fn lemma_page_len(p: BufferPoolManager, id: u64)
    requires
        p.wf(),
    ensures
        p.page(id).len() == PAGE_SIZE,
{
    let k = shard_of(id);
    let s = p.shards@[k];
    assert(p.shard_wf(k));
    if s.loaded(id) {
        let f = s.inner.page_table@[id] as int;
        assert(s.inner.resident(id));
        assert(s.pages@[f].0@.len() == PAGE_SIZE);
        crate::page::lemma_plain(s.cached(id));
    } else {
        crate::page::lemma_plain(p.disk@.content(id));
    }
}

/// One shard made a step; the others saw nothing of it.
proof fn lemma_step(a: BufferPoolManager, b: BufferPoolManager, k: int, page_id: u64)
    requires
        a.wf(),
        0 <= k < 8,
        shard_of(page_id) == k,
        b.shards@ == a.shards@.update(k, b.shards@[k]),
        disk_ok(&b.disk),
        wal_ok(&b.wal),
        b.disk@.count <= b.next_page_id,
        a.next_page_id <= b.next_page_id,
        b.shards@[k].wf(),
        b.shards@[k].settled(),
        b.shards@[k].clean(b.disk@),
        b.shards@[k].pages@.len() == SHARD_SIZE,
        b.shards@[k].below(b.next_page_id),
        same_pages(a.shards@[k], a.disk@, b.shards@[k], b.disk@),
        written_back(a.shards@[k], a.disk@, b.disk@, b.wal@),
        forall|x: u64| #[trigger]
            b.shards@[k].inner.resident(x) ==> a.shards@[k].inner.resident(x) || x == page_id,
        forall|x: u64|
            x != page_id ==> #[trigger] b.shards@[k].inner.pins(x) == a.shards@[k].inner.pins(x),
    ensures
        b.wf(),
        same_contents(a, b),
        written_as_held(a, b),
        forall|id: u64| id != page_id ==> #[trigger] b.pins(id) == a.pins(id),
        b.pin_total() == a.pin_total() + b.shards@[k].pin_total() - a.shards@[k].pin_total(),
{
    assert(a.shard_wf(k));
    lemma_pin_sum_update(a.shards@, k, b.shards@[k], 8);
    assert forall|x: u64| shard_of(x) != k implies #[trigger] plain(b.disk@.content(x)) == plain(
        a.disk@.content(x),
    ) by {
        assert(b.shards@[k].page(b.disk@, x) == a.shards@[k].page(a.disk@, x));
        assert(!a.shards@[k].inner.resident(x));
        assert(!b.shards@[k].inner.resident(x));
    }
    assert forall|j: int| 0 <= j < b.shards@.len() implies #[trigger] b.shard_wf(j) by {
        assert(a.shard_wf(j));
        if j == k {
            assert forall|x: u64| #[trigger] b.shards@[k].inner.resident(x) implies shard_of(x)
                == k by {
                if x != page_id {
                    assert(a.shards@[k].inner.resident(x));
                }
            }
        } else {
            let s = a.shards@[j];
            assert(b.shards@[j] == s);
            assert forall|x: u64| #[trigger]
                s.inner.resident(x) && !s.inner.meta(x).loading && !s.inner.meta(x).is_dirty implies plain(
                s.cached(x),
            ) == plain(b.disk@.content(x)) by {
                assert(shard_of(x) == j);
                assert(plain(b.disk@.content(x)) == plain(a.disk@.content(x)));
            }
            assert forall|x: u64| #[trigger] s.inner.resident(x) implies x < b.next_page_id by {
                assert(x < a.next_page_id);
            }
        }
    }
    assert forall|id: u64|
        plain(#[trigger] b.disk@.content(id)) == plain(a.disk@.content(id)) || plain(
            b.disk@.content(id),
        ) == a.page(id) && b.wal@.written_up_to(u64_at(a.page(id), 16)) by {
        if shard_of(id) != k {
            assert(!a.shards@[k].inner.resident(id));
        }
    }
    assert forall|id: u64| #[trigger] b.page(id) == a.page(id) by {
        let j = shard_of(id);
        if j == k {
            assert(b.shards@[k].page(b.disk@, id) == a.shards@[k].page(a.disk@, id));
        } else {
            assert(b.shards@[j] == a.shards@[j]);
            assert(plain(b.disk@.content(id)) == plain(a.disk@.content(id)));
        }
    }
}

impl BufferPoolManager {
    /// A pool in front of the given data file and log. Pages of the file have the size of
    /// a page; the next page comes behind the last one. A file that cannot be used counts
    /// as empty.
    pub fn new(disk: DiskManager, wal: Wal) -> (pool: Self)
        requires
            disk_ok(&disk),
            wal_ok(&wal),
            disk@.broken is None,
        ensures
            pool.wf(),
            pool.next_page_id == disk@.count,
            pool.disk == disk,
            pool.wal == wal,
            pool.pin_total() == 0,
            forall|id: u64| #[trigger] pool.page(id) == plain(disk@.content(id)),
            forall|id: u64| #[trigger] pool.pins(id) == 0,
            forall|k: int|
                0 <= k < pool.shards@.len() ==> (#[trigger] pool.shards@[k]).inner.ledger()
                    == empty_ledger(SHARD_SIZE as nat) && pool.shards@[k].last_checkpoint_redo_point
                    == 0,
            pool.able() == (wal@.ready() && forall|id: u64|
                id < disk@.count ==> intact(#[trigger] disk@.content(id))),
    {
        let existing: u64 = match disk.num_pages() {
            Ok(n) => n,
            Err(_) => 0,
        };
        let mut shards: Vec<BufferPoolShard> = Vec::new();
        let mut i: usize = 0;
        while i < NUM_SHARDS
            invariant
                i <= NUM_SHARDS,
                shards@.len() == i,
                pin_sum(shards@, i as int) == 0,
                forall|k: int|
                    0 <= k < i ==> {
                        &&& (#[trigger] shards@[k]).wf()
                        &&& shards@[k].settled()
                        &&& shards@[k].pages@.len() == SHARD_SIZE
                        &&& shards@[k].inner.page_table@ == Map::<u64, usize>::empty()
                        &&& shards@[k].inner.ledger() == empty_ledger(SHARD_SIZE as nat)
                        &&& shards@[k].last_checkpoint_redo_point == 0
                    },
            decreases NUM_SHARDS - i,
        {
            let ghost before = shards@;
            shards.push(BufferPoolShard::new(MAX_FRAMES / NUM_SHARDS));
            proof {
                lemma_pin_sum_prefix(before, shards@, i as int);
            }
            i = i + 1;
        }
        let pool = BufferPoolManager { shards, next_page_id: existing, disk, wal };
        proof {
            assert forall|k: int| 0 <= k < 8 implies #[trigger] pool.shard_wf(k) by {
                assert(pool.shards@[k].wf());
            }
            assert forall|id: u64| #[trigger] pool.page(id) == plain(disk@.content(id)) by {
                assert(pool.shards@[shard_of(id)].wf());
            }
            assert forall|id: u64| #[trigger] pool.pins(id) == 0 by {
                assert(pool.shards@[shard_of(id)].wf());
            }
            reveal(all_safe);
            assert forall|id: u64| id < disk@.count implies #[trigger] safe(
                pool.shards@[shard_of(id)],
                disk@,
                id,
            ) == intact(disk@.content(id)) by {
                assert(pool.shards@[shard_of(id)].wf());
            }
            if pool.able() {
                assert forall|id: u64| id < disk@.count implies intact(
                    #[trigger] disk@.content(id),
                ) by {
                    assert(safe(pool.shards@[shard_of(id)], disk@, id));
                }
            }
        }
        pool
    }

    fn shard_index(page_id: u64) -> (k: usize)
        ensures
            k == shard_of(page_id),
            k < NUM_SHARDS,
    {
        assert(page_id & 7 == page_id % 8) by (bit_vector);
        (page_id & SHARD_MASK) as usize
    }

    fn pin(&mut self, page_id: u64) -> (r: Result<Vec<u8>, BufferPoolError>)
        requires
            old(self).wf(),
            old(self).pins(page_id) < u64::MAX,
        ensures
            final(self).wf(),
            final(self).next_page_id == old(self).next_page_id,
            same_contents(*old(self), *final(self)),
            same_storage(*old(self), *final(self)),
            if page_id < old(self).next_page_id {
                brought_home(
                    *old(self),
                    *final(self),
                    page_id,
                    false,
                    match r {
                        Ok(_) => Ok(()),
                        Err(e) => Err(e),
                    },
                )
            } else {
                *final(self) == *old(self)
            },
            match r {
                Ok(data) => {
                    &&& page_id < old(self).next_page_id
                    &&& data@.len() == PAGE_SIZE
                    &&& data@ == home(*final(self), page_id).cached(page_id)
                    &&& plain(data@) == old(self).page(page_id)
                    &&& pinned(*old(self), *final(self), page_id)
                },
                Err(e) => {
                    &&& same_pins(*old(self), *final(self))
                    &&& if page_id >= old(self).next_page_id {
                        e == BufferPoolError::PageNotFound(page_id)
                    } else {
                        fault(e, *old(self), *final(self)) && !(e is PageNotFound)
                    }
                },
            },
            old(self).able() && old(self).pin_total() < SHARD_SIZE && page_id < old(
                self,
            ).next_page_id < u64::MAX ==> r is Ok && final(self).able(),
    {
        proof {
            lemma_log_still(self.wal@);
        }
        if page_id >= self.next_page_id {
            return Err(BufferPoolError::PageNotFound(page_id));
        }
        let k: usize = Self::shard_index(page_id);
        let ghost a = *self;
        assert(a.shard_wf(k as int));
        let r = self.shards[k].fetch(page_id, &mut self.disk, &mut self.wal);
        let ghost b = *self;
        proof {
            assert(b.shards@ =~= a.shards@.update(k as int, b.shards@[k as int]));
            assert(b.shards@[k as int].below(b.next_page_id));
            lemma_step(a, b, k as int, page_id);
            lemma_upheld(a, b, k as int);
            lemma_shards_wf(a);
            lemma_pin_sum_bound(a.shards@, k as int, 8);
        }
        match r {
            Ok(f) => {
                let data: Vec<u8> = vstd::slice::slice_to_vec(self.shards[k].pages[f].0.as_slice());
                proof {
                    assert(a.able() ==> b.able_but(None));
                    assert(b.shard_wf(k as int));
                    assert(b.page(page_id) == a.page(page_id));
                    assert(b.shards@[k as int].loaded(page_id)) by {
                        let s = b.shards@[k as int];
                        assert(s.inner.resident(page_id));
                        assert(!s.inner.metadata@[f as int].loading);
                    }
                }
                Ok(data)
            },
            Err(e) => {
                proof {
                    let s = b.shards@[k as int];
                    if unreadable(e, s, b.disk@, page_id) {
                        assert(b.lost(page_id));
                    }
                    assert(b.pins(page_id) == a.pins(page_id));
                    if a.able() && a.next_page_id < u64::MAX {
                        assert(b.able_but(None));
                        lemma_able(b, None);
                    }
                }
                Err(e)
            },
        }
    }

    /// Fetches a page for reading. Fails where no page has this id, where the page cannot
    /// be loaded, and where every frame that could take it is pinned.
    pub fn fetch_page(&mut self, page_id: u64) -> (r: Result<PageReadGuard, BufferPoolError>)
        requires
            old(self).wf(),
            old(self).pins(page_id) < u64::MAX,
        ensures
            final(self).wf(),
            final(self).next_page_id == old(self).next_page_id,
            same_contents(*old(self), *final(self)),
            same_storage(*old(self), *final(self)),
            if page_id < old(self).next_page_id {
                brought_home(
                    *old(self),
                    *final(self),
                    page_id,
                    false,
                    match r {
                        Ok(_) => Ok(()),
                        Err(e) => Err(e),
                    },
                )
            } else {
                *final(self) == *old(self)
            },
            match r {
                Ok(g) => {
                    &&& page_id < old(self).next_page_id
                    &&& g.page_id == page_id
                    &&& g@.len() == PAGE_SIZE
                    &&& g@ == home(*final(self), page_id).cached(page_id)
                    &&& plain(g@) == old(self).page(page_id)
                    &&& pinned(*old(self), *final(self), page_id)
                },
                Err(e) => {
                    &&& same_pins(*old(self), *final(self))
                    &&& if page_id >= old(self).next_page_id {
                        e == BufferPoolError::PageNotFound(page_id)
                    } else {
                        fault(e, *old(self), *final(self)) && !(e is PageNotFound)
                    }
                },
            },
            old(self).able() && old(self).pin_total() < SHARD_SIZE && page_id < old(
                self,
            ).next_page_id < u64::MAX ==> r is Ok && final(self).able(),
    {
        match self.pin(page_id) {
            Ok(data) => Ok(PageReadGuard { page_id, data }),
            Err(e) => Err(e),
        }
    }

    /// Fetches a page for writing.
    pub fn fetch_page_mut(&mut self, page_id: u64) -> (r: Result<PageWriteGuard, BufferPoolError>)
        requires
            old(self).wf(),
            old(self).pins(page_id) < u64::MAX,
        ensures
            final(self).wf(),
            final(self).next_page_id == old(self).next_page_id,
            same_contents(*old(self), *final(self)),
            same_storage(*old(self), *final(self)),
            if page_id < old(self).next_page_id {
                brought_home(
                    *old(self),
                    *final(self),
                    page_id,
                    false,
                    match r {
                        Ok(_) => Ok(()),
                        Err(e) => Err(e),
                    },
                )
            } else {
                *final(self) == *old(self)
            },
            match r {
                Ok(g) => {
                    &&& page_id < old(self).next_page_id
                    &&& g.page_id == page_id
                    &&& g@.len() == PAGE_SIZE
                    &&& g@ == home(*final(self), page_id).cached(page_id)
                    &&& plain(g@) == old(self).page(page_id)
                    &&& !g.dirty
                    &&& g.record_lsn is None
                    &&& pinned(*old(self), *final(self), page_id)
                },
                Err(e) => {
                    &&& same_pins(*old(self), *final(self))
                    &&& if page_id >= old(self).next_page_id {
                        e == BufferPoolError::PageNotFound(page_id)
                    } else {
                        fault(e, *old(self), *final(self)) && !(e is PageNotFound)
                    }
                },
            },
            old(self).able() && old(self).pin_total() < SHARD_SIZE && page_id < old(
                self,
            ).next_page_id < u64::MAX ==> r is Ok && final(self).able(),
    {
        match self.pin(page_id) {
            Ok(data) => Ok(PageWriteGuard { page_id, data, dirty: false, record_lsn: None }),
            Err(e) => Err(e),
        }
    }

    /// Creates a page of zeros behind the last one. The id is used up also where no frame
    /// can be had.
    pub fn new_page(&mut self) -> (r: Result<PageWriteGuard, BufferPoolError>)
        requires
            old(self).wf(),
        ensures
            final(self).wf(),
            same_contents(*old(self), *final(self)),
            same_storage(*old(self), *final(self)),
            final(self).next_page_id == (if old(self).next_page_id < u64::MAX {
                (old(self).next_page_id + 1) as u64
            } else {
                u64::MAX
            }),
            if old(self).next_page_id < u64::MAX {
                brought_home(
                    *old(self),
                    *final(self),
                    old(self).next_page_id,
                    true,
                    match r {
                        Ok(_) => Ok(()),
                        Err(e) => Err(e),
                    },
                )
            } else {
                r is Err && *final(self) == *old(self)
            },
            match r {
                Ok(g) => {
                    &&& old(self).next_page_id < u64::MAX
                    &&& g.page_id == old(self).next_page_id
                    &&& g@ == zero_page()
                    &&& old(self).page(g.page_id) == plain(zero_page())
                    &&& !g.dirty
                    &&& g.record_lsn is None
                    &&& old(self).pins(g.page_id) == 0
                    &&& pinned(*old(self), *final(self), g.page_id)
                    &&& old(self).able() ==> final(self).able_but(Some(g.page_id))
                },
                Err(e) => {
                    &&& same_pins(*old(self), *final(self))
                    &&& fault(e, *old(self), *final(self))
                    &&& !(e is PageNotFound)
                    &&& old(self).pin_total() < SHARD_SIZE ==> upheld(*old(self), *final(self))
                },
            },
            old(self).able() && old(self).pin_total() < SHARD_SIZE && old(self).next_page_id
                < u64::MAX ==> r is Ok,
    {
        let page_id: u64 = self.next_page_id;
        proof {
            lemma_log_still(self.wal@);
        }
        if page_id == INVALID_FRAME_ID {
            return Err(BufferPoolError::InternalError(InternalFault::PageIds));
        }
        let k: usize = Self::shard_index(page_id);
        let ghost a = *self;
        assert(a.shard_wf(k as int));
        assert(!a.shards@[k as int].inner.resident(page_id));
        self.next_page_id = page_id + 1;
        let r = self.shards[k].create(page_id, &mut self.disk, &mut self.wal);
        let ghost b = *self;
        proof {
            assert(b.shards@ =~= a.shards@.update(k as int, b.shards@[k as int]));
            lemma_step(a, b, k as int, page_id);
            lemma_shards_wf(a);
            lemma_pin_sum_bound(a.shards@, k as int, 8);
            assert(a.disk@.content(page_id) =~= zero_page());
            let c = BufferPoolManager { next_page_id: a.next_page_id, ..b };
            lemma_upheld(a, c, k as int);
            if a.able() {
                assert(c.able());
                reveal(all_safe);
            }
        }
        match r {
            Ok(f) => {
                let data: Vec<u8> = vstd::slice::slice_to_vec(self.shards[k].pages[f].0.as_slice());
                Ok(PageWriteGuard { page_id, data, dirty: false, record_lsn: None })
            },
            Err(e) => {
                assert(b.pins(page_id) == a.pins(page_id));
                Err(e)
            },
        }
    }
}

/// The bytes of one pinned page, and whether it is dirty, changed in its shard.
proof fn lemma_rewritten(a: BufferPoolManager, b: BufferPoolManager, page_id: u64, data: Seq<u8>)
    requires
        a.wf(),
        a.pins(page_id) > 0,
        b.next_page_id == a.next_page_id,
        b.disk == a.disk,
        b.wal == a.wal,
        ({
            let k = shard_of(page_id);
            let s = a.shards@[k];
            let t = b.shards@[k];
            let f = s.inner.page_table@[page_id] as int;
            &&& b.shards@ == a.shards@.update(k, t)
            &&& t.wf()
            &&& t.pages@.len() == s.pages@.len()
            &&& t.inner.page_table@ == s.inner.page_table@
            &&& t.cached(page_id) == data
            &&& forall|g: int| 0 <= g < s.pages@.len() && g != f ==> t.pages@[g] == s.pages@[g]
            &&& t.inner.metadata@ == s.inner.metadata@.update(
                f,
                crate::buffer_pool::shard::released(s.inner.metadata@[f], true),
            )
        }),
    ensures
        b.wf(),
        b.page(page_id) == plain(data),
        forall|id: u64| id != page_id ==> #[trigger] b.page(id) == a.page(id),
        unpinned(a, b, page_id),
        upheld(a, b),
        a.able_but(Some(page_id)) ==> b.able(),
{
    let k = shard_of(page_id);
    let s = a.shards@[k];
    let t = b.shards@[k];
    let f = s.inner.page_table@[page_id] as int;
    let m = crate::buffer_pool::shard::released(s.inner.metadata@[f], true);
    assert(a.shard_wf(k));
    assert(s.inner.resident(page_id));
    lemma_pin_sum_update(a.shards@, k, t, 8);
    crate::buffer_pool::shard::lemma_sums_update(
        s.inner.metadata@,
        f,
        m,
        s.inner.metadata@.len() as int,
    );
    assert forall|x: u64| x != page_id && s.inner.resident(x) implies s.inner.page_table@[x]
        != f by {
        assert(s.inner.metadata@[s.inner.page_table@[x] as int].page_id == x);
    }
    assert forall|j: int| 0 <= j < b.shards@.len() implies #[trigger] b.shard_wf(j) by {
        assert(a.shard_wf(j));
        if j == k {
            assert forall|g: int| 0 <= g < t.inner.metadata@.len() implies !(
            #[trigger] t.inner.metadata@[g]).loading by {
                assert(!s.inner.metadata@[g].loading);
            }
            assert forall|x: u64| #[trigger]
                t.inner.resident(x) && !t.inner.meta(x).loading && !t.inner.meta(x).is_dirty implies plain(
                t.cached(x),
            ) == plain(b.disk@.content(x)) by {
                assert(s.inner.resident(x));
                if x != page_id {
                    assert(s.inner.page_table@[x] != f);
                }
            }
            assert forall|x: u64| #[trigger] t.inner.resident(x) implies x < b.next_page_id
                && shard_of(x) == k by {
                assert(s.inner.resident(x));
            }
        } else {
            assert(b.shards@[j] == a.shards@[j]);
        }
    }
    assert forall|id: u64| id != page_id implies #[trigger] b.page(id) == a.page(id) by {
        if shard_of(id) == k {
            if s.inner.resident(id) {
                assert(s.inner.page_table@[id] != f);
            }
        } else {
            assert(b.shards@[shard_of(id)] == a.shards@[shard_of(id)]);
        }
    }
    assert forall|id: u64| id != page_id implies #[trigger] b.pins(id) == a.pins(id) by {
        if shard_of(id) == k {
            if s.inner.resident(id) {
                assert(s.inner.page_table@[id] != f);
            }
        } else {
            assert(b.shards@[shard_of(id)] == a.shards@[shard_of(id)]);
        }
    }
    assert(t.loaded(page_id)) by {
        assert(!s.inner.metadata@[f].loading);
    }
    assert forall|x: u64| safe(s, a.disk@, x) implies #[trigger] safe(t, b.disk@, x) by {
        if x != page_id && s.inner.resident(x) {
            assert(s.inner.page_table@[x] != f);
        }
    }
    lemma_log_still(a.wal@);
    lemma_upheld(a, b, k);
    if a.able_but(Some(page_id)) {
        assert(b.able_but(Some(page_id)));
        reveal(all_safe);
        assert(safe(t, b.disk@, page_id));
    }
}

/// A page lost a pin and nothing else changed.
proof fn lemma_unpinned(a: BufferPoolManager, b: BufferPoolManager, page_id: u64)
    requires
        a.wf(),
        a.pins(page_id) > 0,
        b.next_page_id == a.next_page_id,
        b.disk == a.disk,
        b.wal == a.wal,
        ({
            let k = shard_of(page_id);
            let s = a.shards@[k];
            let t = b.shards@[k];
            let f = s.inner.page_table@[page_id] as int;
            &&& b.shards@ == a.shards@.update(k, t)
            &&& t.wf()
            &&& t.pages@ == s.pages@
            &&& t.inner.page_table@ == s.inner.page_table@
            &&& t.inner.metadata@ == s.inner.metadata@.update(
                f,
                crate::buffer_pool::shard::released(s.inner.metadata@[f], false),
            )
        }),
    ensures
        b.wf(),
        same_contents(a, b),
        unpinned(a, b, page_id),
        upheld(a, b),
{
    let k = shard_of(page_id);
    let s = a.shards@[k];
    let t = b.shards@[k];
    let f = s.inner.page_table@[page_id] as int;
    let m = crate::buffer_pool::shard::released(s.inner.metadata@[f], false);
    assert(a.shard_wf(k));
    assert(s.inner.resident(page_id));
    crate::buffer_pool::shard::lemma_sums_update(
        s.inner.metadata@,
        f,
        m,
        s.inner.metadata@.len() as int,
    );
    assert forall|x: u64| x != page_id && s.inner.resident(x) implies s.inner.page_table@[x]
        != f by {
        assert(s.inner.metadata@[s.inner.page_table@[x] as int].page_id == x);
    }
    assert forall|g: int| 0 <= g < t.inner.metadata@.len() implies !(
    #[trigger] t.inner.metadata@[g]).loading by {
        assert(!s.inner.metadata@[g].loading);
    }
    assert forall|x: u64| #[trigger]
        t.inner.resident(x) && !t.inner.meta(x).loading && !t.inner.meta(x).is_dirty implies plain(
        t.cached(x),
    ) == plain(b.disk@.content(x)) by {
        assert(s.inner.resident(x));
        if x != page_id {
            assert(s.inner.page_table@[x] != f);
        }
    }
    assert forall|x: u64| #[trigger] t.page(b.disk@, x) == s.page(a.disk@, x) by {
        if s.inner.resident(x) && x != page_id {
            assert(s.inner.page_table@[x] != f);
        }
    }
    assert forall|x: u64| #[trigger] t.inner.resident(x) implies x < b.next_page_id by {
        assert(s.inner.resident(x));
    }
    assert forall|x: u64| x != page_id implies #[trigger] t.inner.pins(x) == s.inner.pins(x) by {
        if s.inner.resident(x) {
            assert(s.inner.page_table@[x] != f);
        }
    }
    assert forall|x: u64| safe(s, a.disk@, x) implies #[trigger] safe(t, b.disk@, x) by {
        if x != page_id && s.inner.resident(x) {
            assert(s.inner.page_table@[x] != f);
        }
    }
    lemma_log_still(a.wal@);
    lemma_step(a, b, k, page_id);
    lemma_upheld(a, b, k);
}

impl BufferPoolManager {
    /// Releases a page that was read.
    pub fn release(&mut self, guard: PageReadGuard)
        requires
            old(self).wf(),
            old(self).pins(guard.page_id) > 0,
        ensures
            final(self).wf(),
            final(self).next_page_id == old(self).next_page_id,
            final(self).wal == old(self).wal,
            final(self).disk == old(self).disk,
            same_contents(*old(self), *final(self)),
            at_home(*old(self), *final(self), guard.page_id),
            same_bytes(home(*old(self), guard.page_id), home(*final(self), guard.page_id)),
            books(*final(self), guard.page_id) == books(*old(self), guard.page_id).released(
                guard.page_id,
                false,
            ),
            unpinned(*old(self), *final(self), guard.page_id),
            old(self).faulty() ==> final(self).faulty(),
            upheld(*old(self), *final(self)),
    {
        let ghost a = *self;
        let k: usize = Self::shard_index(guard.page_id);
        assert(a.shard_wf(k as int));
        self.shards[k].unpin_page(guard.page_id, false);
        proof {
            assert(self.shards@ =~= a.shards@.update(k as int, self.shards@[k as int]));
            lemma_log_still(a.wal@);
            lemma_unpinned(a, *self, guard.page_id);
            lemma_faulty_kept(a, *self);
        }
    }

    /// Releases a page that may have been written. What was written becomes the page.
    pub fn release_mut(&mut self, guard: PageWriteGuard)
        requires
            old(self).wf(),
            old(self).pins(guard.page_id) > 0,
            guard@.len() == PAGE_SIZE,
        ensures
            final(self).wf(),
            final(self).next_page_id == old(self).next_page_id,
            final(self).wal == old(self).wal,
            final(self).disk == old(self).disk,
            at_home(*old(self), *final(self), guard.page_id),
            home(*final(self), guard.page_id).last_checkpoint_redo_point == home(
                *old(self),
                guard.page_id,
            ).last_checkpoint_redo_point,
            books(*final(self), guard.page_id) == books(*old(self), guard.page_id).released(
                guard.page_id,
                guard.dirty,
            ),
            guard.dirty ==> home(*final(self), guard.page_id).cached(guard.page_id) == guard@,
            !guard.dirty ==> home(*final(self), guard.page_id).pages@ == home(
                *old(self),
                guard.page_id,
            ).pages@,
            unpinned(*old(self), *final(self), guard.page_id),
            final(self).page(guard.page_id) == (if guard.dirty {
                plain(guard@)
            } else {
                old(self).page(guard.page_id)
            }),
            forall|id: u64|
                id != guard.page_id ==> #[trigger] final(self).page(id) == old(self).page(id),
            old(self).faulty() ==> final(self).faulty(),
            upheld(*old(self), *final(self)),
            guard.dirty && old(self).able_but(Some(guard.page_id)) ==> final(self).able(),
    {
        let ghost a = *self;
        let k: usize = Self::shard_index(guard.page_id);
        assert(a.shard_wf(k as int));
        proof {
            lemma_log_still(a.wal@);
        }
        if guard.dirty {
            self.shards[k].store(guard.page_id, guard.data.as_slice());
            self.shards[k].unpin_page(guard.page_id, true);
            proof {
                assert(self.shards@ =~= a.shards@.update(k as int, self.shards@[k as int]));
                lemma_rewritten(a, *self, guard.page_id, guard@);
                lemma_faulty_kept(a, *self);
            }
        } else {
            self.shards[k].unpin_page(guard.page_id, false);
            proof {
                assert(self.shards@ =~= a.shards@.update(k as int, self.shards@[k as int]));
                lemma_unpinned(a, *self, guard.page_id);
                lemma_faulty_kept(a, *self);
            }
        }
    }
}

impl BufferPoolManager {
    /// The page is cached and differs from what is on disk, as far as the pool knows.
    pub open spec fn is_dirty(&self, id: u64) -> bool {
        let s = self.shards@[shard_of(id)];
        s.inner.resident(id) && s.inner.meta(id).is_dirty
    }

    /// Notes that the change with the given log sequence number was made through the
    /// guard: a page that was clean is dirty from that record on. Says whether its record must carry an image of the page: where the page was
    /// clean, and no record since the last checkpoint had touched it.
    pub fn mark_dirty_with_lsn(&mut self, guard: &mut PageWriteGuard, lsn: Lsn) -> (first: bool)
        requires
            old(self).wf(),
            old(self).pins(old(guard).page_id) > 0,
            old(guard)@.len() == PAGE_SIZE,
        ensures
            final(self).wf(),
            final(self).next_page_id == old(self).next_page_id,
            final(self).wal == old(self).wal,
            final(self).disk == old(self).disk,
            same_contents(*old(self), *final(self)),
            same_pins(*old(self), *final(self)),
            final(guard)@ == old(guard)@,
            final(guard).page_id == old(guard).page_id,
            final(guard).dirty,
            final(guard).record_lsn == Some(lsn),
            final(self).is_dirty(old(guard).page_id),
            at_home(*old(self), *final(self), old(guard).page_id),
            same_bytes(
                home(*old(self), old(guard).page_id),
                home(*final(self), old(guard).page_id),
            ),
            books(*final(self), old(guard).page_id) == books(
                *old(self),
                old(guard).page_id,
            ).marked(old(guard).page_id, lsn),
            books(*final(self), old(guard).page_id).least == (if old(self).is_dirty(
                old(guard).page_id,
            ) {
                books(*old(self), old(guard).page_id).least
            } else {
                lesser(books(*old(self), old(guard).page_id).least, Some(lsn))
            }),
            upheld(*old(self), *final(self)),
            first == (!old(self).is_dirty(old(guard).page_id) && crate::bytes::u64_at(
                old(guard)@,
                16,
            ) <= old(self).shards@[shard_of(old(guard).page_id)].last_checkpoint_redo_point),
    {
        guard.dirty = true;
        guard.record_lsn = Some(lsn);
        let before: Lsn = page_lsn(guard.data.as_slice());
        let page_id: u64 = guard.page_id;
        let ghost a = *self;
        let k: usize = Self::shard_index(page_id);
        assert(a.shard_wf(k as int));
        let first: bool = self.shards[k].mark_dirty(page_id, lsn, before);
        proof {
            let b = *self;
            let s = a.shards@[k as int];
            let t = b.shards@[k as int];
            let f = s.inner.page_table@[page_id] as int;
            assert(b.shards@ =~= a.shards@.update(k as int, t));
            assert(s.inner.resident(page_id));
            crate::buffer_pool::shard::lemma_sums_update(
                s.inner.metadata@,
                f,
                t.inner.metadata@[f],
                s.inner.metadata@.len() as int,
            );
            assert forall|g: int| 0 <= g < t.inner.metadata@.len() implies !(
            #[trigger] t.inner.metadata@[g]).loading by {
                assert(!s.inner.metadata@[g].loading);
            }
            assert forall|x: u64| #[trigger]
                t.inner.resident(x) && !t.inner.meta(x).loading && !t.inner.meta(x).is_dirty implies plain(
                t.cached(x),
            ) == plain(b.disk@.content(x)) by {
                assert(s.inner.resident(x));
            }
            assert forall|x: u64| #[trigger] t.page(b.disk@, x) == s.page(a.disk@, x) by {}
            assert forall|x: u64| #[trigger] t.inner.resident(x) implies x < b.next_page_id by {
                assert(s.inner.resident(x));
            }
            assert forall|x: u64| #[trigger] t.inner.pins(x) == s.inner.pins(x) by {}
            lemma_log_still(a.wal@);
            lemma_step(a, b, k as int, page_id);
            lemma_upheld(a, b, k as int);
        }
        first
    }

    /// Writes the page to the data file and makes it durable, where it is dirty.
    pub fn flush_page(&mut self, page_id: u64) -> (r: Result<bool, BufferPoolError>)
        requires
            old(self).wf(),
            old(self).pins(page_id) < u64::MAX,
        ensures
            final(self).wf(),
            final(self).next_page_id == old(self).next_page_id,
            same_contents(*old(self), *final(self)),
            same_pins(*old(self), *final(self)),
            same_storage(*old(self), *final(self)),
            match r {
                Ok(wrote) => {
                    &&& wrote == old(self).is_dirty(page_id)
                    &&& wrote ==> !final(self).is_dirty(page_id) && plain(
                        final(self).disk@.content(page_id),
                    ) == old(self).page(page_id) && intact(final(self).disk@.content(page_id))
                },
                Err(e) => final(self).faulty(),
            },
            old(self).able() && old(self).next_page_id < u64::MAX ==> r is Ok && final(self).able(),
            at_home(*old(self), *final(self), page_id),
            same_bytes(home(*old(self), page_id), home(*final(self), page_id)),
            flushed(home(*old(self), page_id), page_id, r is Ok, home(*final(self), page_id)),
            final(self).disk@ == (if r == Ok::<bool, BufferPoolError>(true) {
                old(self).disk@.put(page_id, sealed(home(*old(self), page_id).cached(page_id)))
            } else {
                old(self).disk@
            }),
            old(self).wal@.ready() ==> final(self).wal@ == (if old(self).is_dirty(page_id) {
                flushed_up_to(
                    old(self).wal@,
                    u64_at(home(*old(self), page_id).cached(page_id), 16),
                ).1
            } else {
                old(self).wal@
            }),
            final(self).disk.syncs() == (if r == Ok::<bool, BufferPoolError>(true) {
                counted_up(old(self).disk.syncs(), 1)
            } else {
                old(self).disk.syncs()
            }),
    {
        let ghost a = *self;
        let k: usize = Self::shard_index(page_id);
        assert(a.shard_wf(k as int));
        let r = self.shards[k].flush_page(page_id, &mut self.disk, &mut self.wal);
        proof {
            let b = *self;
            lemma_flushed(a, b, k as int, page_id);
            if a.able() && a.next_page_id < u64::MAX {
                assert(b.able_but(None));
                lemma_able(b, None);
            }
            if r == Ok::<bool, BufferPoolError>(true) {
                assert(a.shards@[k as int].inner.resident(page_id));
                assert(a.shards@[k as int].loaded(page_id));
                crate::page::law_sealed_is_same_page(a.shards@[k as int].cached(page_id));
                crate::page::law_sealed_is_intact(a.shards@[k as int].cached(page_id));
            }
        }
        r
    }

    /// Writes all dirty pages to the data file and makes them durable.
    pub fn flush_all_pages(&mut self) -> (r: Result<(), BufferPoolError>)
        requires
            old(self).wf(),
            forall|id: u64| #[trigger] old(self).pins(id) < u64::MAX,
        ensures
            final(self).wf(),
            final(self).next_page_id == old(self).next_page_id,
            same_contents(*old(self), *final(self)),
            same_pins(*old(self), *final(self)),
            same_storage(*old(self), *final(self)),
            r is Ok ==> forall|id: u64| !#[trigger] final(self).is_dirty(id),
            r is Err ==> final(self).faulty(),
            old(self).able() && old(self).next_page_id < u64::MAX ==> r is Ok && final(self).able(),
            final(self).shards@.len() == old(self).shards@.len(),
            match r {
                Ok(()) => {
                    &&& shards_flushed(*old(self), *final(self), NUM_SHARDS as int)
                    &&& final(self).disk@ == saved_shards(
                        old(self).disk@,
                        old(self).shards@,
                        NUM_SHARDS as int,
                    )
                    &&& old(self).wal@.ready() ==> final(self).wal@ == logged_shards(
                        old(self).wal@,
                        old(self).shards@,
                        NUM_SHARDS as int,
                    )
                    &&& final(self).disk.syncs() == synced_shards(
                        old(self).disk.syncs(),
                        old(self).shards@,
                        NUM_SHARDS as int,
                    )
                },
                Err(_) => exists|k: int, f: int|
                    0 <= k < NUM_SHARDS && shards_flushed(*old(self), *final(self), k)
                        && #[trigger] partly_flushed(
                        old(self).shards@[k],
                        final(self).shards@[k],
                        f,
                    ) && final(self).disk@ == saved(
                        saved_shards(old(self).disk@, old(self).shards@, k),
                        old(self).shards@[k],
                        dirty_frames(old(self).shards@[k].inner.metadata@, f),
                    ),
            },
    {
        let ghost start = *self;
        let mut k: usize = 0;
        proof {
            lemma_log_still(start.wal@);
            reveal(shards_flushed);
        }
        while k < NUM_SHARDS
            invariant
                k <= NUM_SHARDS,
                self.wf(),
                start == *old(self),
                self.next_page_id == start.next_page_id,
                same_contents(start, *self),
                same_pins(start, *self),
                same_storage(start, *self),
                forall|id: u64| #[trigger] start.pins(id) < u64::MAX,
                forall|id: u64| shard_of(id) < k ==> !#[trigger] self.is_dirty(id),
                start.shards@.len() == 8,
                shards_flushed(start, *self, k as int),
                k < NUM_SHARDS ==> self.shards@[k as int] == start.shards@[k as int],
                self.disk@ == saved_shards(start.disk@, start.shards@, k as int),
                start.wal@.ready() ==> self.wal@ == logged_shards(
                    start.wal@,
                    start.shards@,
                    k as int,
                ),
                self.disk.syncs() == synced_shards(start.disk.syncs(), start.shards@, k as int),
            decreases NUM_SHARDS - k,
        {
            let ghost a = *self;
            assert(a.shard_wf(k as int));
            proof {
                let s = a.shards@[k as int];
                assert forall|f: int| 0 <= f < s.inner.metadata@.len() implies (
                #[trigger] s.inner.metadata@[f]).pin_count < u64::MAX by {
                    let id = s.inner.metadata@[f].page_id;
                    assert(s.inner.frame_wf(f));
                    if id != INVALID_FRAME_ID {
                        assert(s.inner.resident(id));
                        assert(shard_of(id) == k);
                        assert(a.pins(id) == start.pins(id));
                        assert(start.pins(id) < u64::MAX);
                    }
                }
            }
            let r = self.shards[k].flush_all_pages(&mut self.disk, &mut self.wal);
            proof {
                let b = *self;
                reveal(shards_flushed);
                assert(forall|j: int| 0 <= j < 8 && j != k ==> b.shards@[j] == a.shards@[j]);
                if r is Err {
                    let l = start.shards@[k as int].inner.ledger();
                    let f = choose|f: int|
                        0 <= f < l.frames.len() && l.frames[f].is_dirty
                            && b.shards@[k as int].inner.ledger() == (#[trigger] l.all_written(
                            f,
                        )).idle(f) && b.disk@ == saved(
                            a.disk@,
                            a.shards@[k as int],
                            dirty_frames(l.frames, f),
                        );
                    assert(partly_flushed(start.shards@[k as int], b.shards@[k as int], f));
                    lemma_shards_flushed(start, a, b, k as int, k as int);
                } else {
                    lemma_shards_flushed(start, a, b, k as int, k + 1);
                }
                assert(k + 1 < 8 ==> b.shards@[k + 1] == start.shards@[k + 1]) by {
                    if k + 1 < 8 {
                        let s = start.shards@[k + 1];
                        assert(a.shards@[k + 1] == s);
                    }
                }
                lemma_flushed(a, b, k as int, k as u64);
                lemma_storage_chain(start, a, b);
                assert forall|id: u64| #[trigger] b.page(id) == start.page(id) by {
                    assert(a.page(id) == start.page(id));
                }
                assert forall|id: u64| #[trigger] b.pins(id) == start.pins(id) by {
                    assert(a.pins(id) == start.pins(id));
                }
                assert forall|id: u64| shard_of(id) < k implies !#[trigger] b.is_dirty(id) by {
                    assert(!a.is_dirty(id));
                    assert(b.shards@[shard_of(id)] == a.shards@[shard_of(id)]);
                }
                if r is Ok {
                    assert forall|id: u64| shard_of(id) == k implies !#[trigger] b.is_dirty(id) by {
                        assert(b.shard_wf(k as int));
                    }
                }
            }
            match r {
                Ok(()) => {},
                Err(e) => {
                    proof {
                        if start.able() && start.next_page_id < u64::MAX {
                            assert(self.able_but(None));
                            lemma_able(*self, None);
                        }
                    }
                    return Err(e);
                },
            }
            k = k + 1;
        }
        assert(start.able() ==> self.able_but(None));
        Ok(())
    }

    /// Takes a page out of the pool, written to the data file first where it is dirty.
    pub fn delete_page(&mut self, page_id: u64) -> (r: Result<(), BufferPoolError>)
        requires
            old(self).wf(),
        ensures
            final(self).wf(),
            final(self).next_page_id == old(self).next_page_id,
            same_contents(*old(self), *final(self)),
            same_pins(*old(self), *final(self)),
            same_storage(*old(self), *final(self)),
            at_home(*old(self), *final(self), page_id),
            same_bytes(home(*old(self), page_id), home(*final(self), page_id)),
            ({
                let l = books(*old(self), page_id);
                &&& books(*final(self), page_id) == (match r {
                    Ok(()) => if l.holds(page_id) {
                        l.vacated(l.frame(page_id))
                    } else {
                        l
                    },
                    Err(BufferPoolError::PinCountError) => l,
                    Err(_) => l.idle(l.frame(page_id)),
                })
                &&& final(self).disk@ == (if r is Ok && old(self).is_dirty(page_id) {
                    old(self).disk@.put(
                        page_id,
                        sealed(home(*old(self), page_id).cached(page_id)),
                    )
                } else {
                    old(self).disk@
                })
            }),
            r is Ok <==> !final(self).shards@[shard_of(page_id)].inner.resident(page_id),
            r == Err::<(), BufferPoolError>(BufferPoolError::PinCountError) <==> old(self).pins(
                page_id,
            ) > 0,
            r matches Err(e) ==> e == BufferPoolError::PinCountError || e
                == BufferPoolError::InternalError(InternalFault::FlushDuringDelete) && final(self).faulty(),
    {
        let ghost a = *self;
        let k: usize = Self::shard_index(page_id);
        assert(a.shard_wf(k as int));
        let r = self.shards[k].delete_page(page_id, &mut self.disk, &mut self.wal);
        proof {
            let b = *self;
            assert(b.shards@ =~= a.shards@.update(k as int, b.shards@[k as int]));
            assert(b.shards@[k as int].below(b.next_page_id));
            lemma_step(a, b, k as int, page_id);
            lemma_upheld(a, b, k as int);
            assert(b.pins(page_id) == a.pins(page_id));
        }
        r
    }
}

/// One shard more was flushed, or some of it.
proof fn lemma_shards_flushed(
    start: BufferPoolManager,
    a: BufferPoolManager,
    b: BufferPoolManager,
    k: int,
    n: int,
)
    requires
        start.shards@.len() == 8,
        0 <= k < 8,
        n == k || n == k + 1 && all_flushed(start.shards@[k], b.shards@[k]),
        shards_flushed(start, a, k),
        forall|j: int| 0 <= j < 8 && j != k ==> b.shards@[j] == a.shards@[j],
    ensures
        shards_flushed(start, b, n),
{
    reveal(shards_flushed);
    assert forall|j: int| 0 <= j < start.shards@.len() && j != n implies if j < n {
        all_flushed(#[trigger] start.shards@[j], b.shards@[j])
    } else {
        b.shards@[j] == start.shards@[j]
    } by {
        if j != k {
            assert(b.shards@[j] == a.shards@[j]);
        }
    }
}

/// One shard flushed; pages and pins are as before.
proof fn lemma_flushed(a: BufferPoolManager, b: BufferPoolManager, k: int, page_id: u64)
    requires
        a.wf(),
        0 <= k < 8,
        shard_of(page_id) == k,
        b.shards@.len() == 8,
        forall|j: int| 0 <= j < 8 && j != k ==> b.shards@[j] == a.shards@[j],
        disk_ok(&b.disk),
        wal_ok(&b.wal),
        b.next_page_id == a.next_page_id,
        b.shards@[k].wf(),
        b.shards@[k].settled(),
        b.shards@[k].clean(b.disk@),
        same_frames(a.shards@[k], b.shards@[k]),
        same_pages(a.shards@[k], a.disk@, b.shards@[k], b.disk@),
        written_back(a.shards@[k], a.disk@, b.disk@, b.wal@),
        crate::buffer_pool::shard::disk_kept(a.shards@[k], a.disk@, b.disk@, b.wal@),
        still_safe(a.shards@[k], a.disk@, b.shards@[k], b.disk@),
        log_step(a.wal@, b.wal@),
    ensures
        b.wf(),
        same_contents(a, b),
        same_pins(a, b),
        upheld(a, b),
{
    assert(a.shard_wf(k));
    let s = a.shards@[k];
    let t = b.shards@[k];
    assert(b.shards@ =~= a.shards@.update(k, t));
    assert(s.below(a.next_page_id));
    assert(b.disk@.count <= b.next_page_id);
    assert forall|x: u64| #[trigger] t.inner.resident(x) implies x < b.next_page_id by {
        assert(s.inner.resident(x));
    }
    assert forall|x: u64| #[trigger] t.inner.resident(x) implies s.inner.resident(x) by {}
    assert forall|x: u64| #[trigger] t.inner.pins(x) == s.inner.pins(x) by {
        if s.inner.resident(x) {
            assert(0 <= s.inner.page_table@[x] < s.inner.metadata@.len());
        }
    }
    lemma_step(a, b, k, page_id);
    lemma_upheld(a, b, k);
    assert(b.pins(page_id) == a.pins(page_id));
}

/// What made the pool faulty still does.
proof fn lemma_faulty_kept(a: BufferPoolManager, b: BufferPoolManager)
    requires
        b.disk == a.disk,
        b.wal == a.wal,
        b.next_page_id == a.next_page_id,
        a.shards@.len() == 8,
        b.shards@.len() == 8,
        forall|k: int|
            0 <= k < 8 ==> (#[trigger] b.shards@[k]).inner.page_table@
                == a.shards@[k].inner.page_table@,
    ensures
        a.faulty() ==> b.faulty(),
{
    if exists|id: u64| id < a.next_page_id && #[trigger] a.lost(id) {
        let id = choose|id: u64| id < a.next_page_id && #[trigger] a.lost(id);
        assert(b.shards@[shard_of(id)].inner.page_table@
            == a.shards@[shard_of(id)].inner.page_table@);
        assert(b.lost(id));
    }
}

proof fn lemma_pin_sum_prefix(a: Seq<BufferPoolShard>, b: Seq<BufferPoolShard>, n: int)
    requires
        0 <= n <= a.len() <= b.len(),
        forall|i: int| 0 <= i < n ==> a[i] == b[i],
    ensures
        pin_sum(a, n) == pin_sum(b, n),
    decreases n,
{
    if n > 0 {
        lemma_pin_sum_prefix(a, b, n - 1);
    }
}

} // verus!
