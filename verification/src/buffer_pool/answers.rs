//! What the clock and the bookkeeping of a shard answer: which frame is evicted, and what each
//! operation does to a page's frame and to no other.

use crate::buffer_pool::ledger::{lesser, search, Found, Ledger};
use crate::buffer_pool::manager::{saved_shards, shard_of, BufferPoolManager};
use crate::buffer_pool::replacer::{law_sweep, ClockView};
use crate::buffer_pool::shard::{
    brought, counted_up, dirty_frames, dirty_of, empty_ledger, flushed, free_frame, saved, searched,
    BufferPoolShard, FrameMetadata,
};
use crate::constants::{INVALID_FRAME_ID, NUM_SHARDS};
use crate::disk::{DiskManager, DiskView};
use crate::error::BufferPoolError;
use crate::page::{sealed, zero_page, Lsn};
use crate::wal::WalView;
use vstd::prelude::*;

verus! {

/// The clock after the hand passed so many frames, at most all of them once.
spec fn passed_by(c: ClockView, k: int) -> ClockView {
    ClockView {
        hand: if c.hand + k < c.used.len() {
            c.hand + k
        } else {
            c.hand + k - c.used.len()
        },
        used: Seq::new(
            c.used.len(),
            |j: int| c.used[j] && !(c.evictable[j] && c.steps_to(j) < k),
        ),
        ..c
    }
}

/// Frames that are no victims are passed.
proof fn lemma_passed_by(c: ClockView, k: int, steps: nat)
    requires
        c.wf(),
        0 <= k <= c.used.len(),
        k <= steps,
        forall|j: int|
            0 <= j < c.used.len() && #[trigger] c.evictable[j] && c.steps_to(j) < k ==> c.used[j],
    ensures
        c.sweep(steps) == passed_by(c, k).sweep((steps - k) as nat),
    decreases k,
{
    if k == 0 {
        assert(passed_by(c, 0) =~= c);
    } else {
        lemma_passed_by(c, k - 1, steps);
        let d = passed_by(c, k - 1);
        let h = d.hand;
        assert(c.steps_to(h) == k - 1);
        assert(d.used[h] == c.used[h]);
        assert(d.passed() =~= passed_by(c, k)) by {
            assert forall|j: int| 0 <= j < c.used.len() implies d.passed().used[j] == passed_by(
                c,
                k,
            ).used[j] by {
                if j != h {
                    assert(c.steps_to(j) != k - 1);
                }
            }
        }
    }
}

/// The victim is the first frame from the hand on that may be evicted and was not used since the
/// hand last came by. Where all that may be evicted were used, it is the first of them. The hand
/// stops behind it; the frames that it passed count as unused, and no other mark changes.
pub proof fn law_nearest_unused_is_evicted(c: ClockView, t: int)
    requires
        c.wf(),
        0 <= t < c.used.len(),
        c.evictable[t],
        !c.used[t] || forall|j: int|
            0 <= j < c.used.len() && #[trigger] c.evictable[j] ==> c.used[j],
        forall|j: int|
            0 <= j < c.used.len() && #[trigger] c.evictable[j] && c.used[j] == c.used[t]
                ==> c.steps_to(t) <= c.steps_to(j),
    ensures
        ({
            let (v, after) = c.sweep((2 * c.used.len()) as nat);
            &&& v == Some(t)
            &&& after.hand == (if t + 1 == c.used.len() {
                0
            } else {
                t + 1
            })
            &&& after.evictable == c.evictable.update(t, false)
            &&& after.used.len() == c.used.len()
            &&& forall|j: int|
                0 <= j < c.used.len() ==> (#[trigger] after.used[j] == (c.used[j] && !(
                c.evictable[j] && (c.used[t] || c.steps_to(j) < c.steps_to(t)))))
        }),
{
    let n = c.used.len() as int;
    let d = c.steps_to(t);
    let all = (2 * n) as nat;
    if !c.used[t] {
        lemma_passed_by(c, d, all);
        let e = passed_by(c, d);
        assert(e.hand == t);
        assert(!e.used[t]);
    } else {
        lemma_passed_by(c, n, all);
        let e = passed_by(c, n);
        assert(e.hand == c.hand);
        assert forall|j: int| 0 <= j < n implies e.steps_to(j) == c.steps_to(j) by {}
        assert forall|j: int| 0 <= j < n && #[trigger] e.evictable[j] && e.steps_to(j)
            < d implies e.used[j] by {
            assert(c.evictable[j]);
            assert(c.used[j]);
        }
        lemma_passed_by(e, d, n as nat);
        let f = passed_by(e, d);
        assert(f.hand == t);
        assert(!f.used[t]);
    }
}

/// A frame that is released may be evicted and counts as used just now; one that is taken may not
/// be evicted. Other frames and the hand stay.
pub proof fn law_clock_marks(c: ClockView, i: int, j: int)
    requires
        c.wf(),
        0 <= i < c.used.len(),
        0 <= j < c.used.len(),
    ensures
        c.unpinned(i).evictable[i] && c.unpinned(i).used[i],
        !c.pinned(i).evictable[i],
        j != i ==> c.unpinned(i).evictable[j] == c.evictable[j] && c.unpinned(i).used[j]
            == c.used[j],
        j != i ==> c.pinned(i).evictable[j] == c.evictable[j] && c.pinned(i).used[j] == c.used[j],
        c.unpinned(i).hand == c.hand,
        c.pinned(i).hand == c.hand,
{
}

/// The tables of the ledger are about frames that there are.
pub open spec fn framed(l: Ledger) -> bool {
    &&& l.clock.wf()
    &&& l.clock.used.len() == l.frames.len()
    &&& forall|x: u64| #[trigger] l.table.dom().contains(x) ==> l.table[x] < l.frames.len()
    &&& forall|i: int| 0 <= i < l.free.len() ==> (#[trigger] l.free[i]) < l.frames.len()
}

/// Nothing changed of a frame.
pub open spec fn frame_stays(a: Ledger, b: Ledger, g: int) -> bool {
    &&& b.frames[g] == a.frames[g]
    &&& b.clock.evictable[g] == a.clock.evictable[g]
}

/// A page that is pinned has one pin more, may not be evicted, and is otherwise as it was; and so
/// is every other frame.
pub proof fn law_pinning(l: Ledger, id: u64, g: int)
    requires
        framed(l),
        l.table.dom().contains(id),
        l.frames[l.table[id] as int].pin_count < u64::MAX,
        0 <= g < l.frames.len(),
        g != l.table[id],
    ensures
        ({
            let f = l.table[id] as int;
            let after = l.pinned(id);
            let m = l.frames[f];
            &&& after.frames[f].pin_count == m.pin_count + 1
            &&& after.frames[f].page_id == m.page_id
            &&& after.frames[f].is_dirty == m.is_dirty
            &&& after.frames[f].loading == m.loading
            &&& after.frames[f].rec_lsn == m.rec_lsn
            &&& !after.clock.evictable[f]
            &&& frame_stays(l, after, g)
            &&& after.table == l.table
            &&& after.free == l.free
        }),
{
}

/// A page that is released has one pin less; it is dirty where it was or where that is said; with
/// its last pin it may be evicted. A page that is in no frame, or that nobody has pinned, is not
/// released.
pub proof fn law_releasing(l: Ledger, id: u64, is_dirty: bool, g: int)
    requires
        framed(l),
        0 <= g < l.frames.len(),
        l.table.dom().contains(id) ==> g != l.table[id],
    ensures
        ({
            let f = l.table[id] as int;
            let after = l.released(id, is_dirty);
            let m = l.frames[f];
            if l.table.dom().contains(id) && m.pin_count > 0 {
                &&& after.frames[f].pin_count == m.pin_count - 1
                &&& after.frames[f].page_id == m.page_id
                &&& after.frames[f].is_dirty == (m.is_dirty || is_dirty)
                &&& after.frames[f].rec_lsn == m.rec_lsn
                &&& after.frames[f].loading == m.loading
                &&& m.pin_count == 1 ==> after.clock.evictable[f] && after.clock.used[f]
                &&& m.pin_count > 1 ==> after.clock == l.clock
                &&& frame_stays(l, after, g)
                &&& after.table == l.table
                &&& after.free == l.free
            } else {
                after == l
            }
        }),
{
}

/// A frame is given to a page: the page that was in it is in none, the other pages stay where they
/// are, and the frame has one pin, nothing to write, and its bytes are to come.
pub proof fn law_taking(l: Ledger, f: int, id: u64, x: u64, g: int)
    requires
        framed(l),
        0 <= f < l.frames.len(),
        0 <= g < l.frames.len(),
        g != f,
        f <= usize::MAX,
        l.frames[f].page_id != id,
    ensures
        ({
            let after = l.taken(f, id);
            &&& after.table.dom().contains(id) && after.table[id] == f
            &&& !after.table.dom().contains(l.frames[f].page_id)
            &&& x != id && x != l.frames[f].page_id ==> after.table.dom().contains(x)
                == l.table.dom().contains(x) && (l.table.dom().contains(x) ==> after.table[x]
                == l.table[x])
            &&& after.frames[f].page_id == id
            &&& after.frames[f].pin_count == 1
            &&& !after.frames[f].is_dirty
            &&& after.frames[f].loading
            &&& !after.clock.evictable[f]
            &&& frame_stays(l, after, g)
            &&& after.free == l.free
        }),
{
}

/// A frame is vacated: its page is in none, and the frame is free, without a pin and with nothing
/// to write.
pub proof fn law_vacating(l: Ledger, f: int, x: u64, g: int)
    requires
        framed(l),
        0 <= f < l.frames.len(),
        0 <= g < l.frames.len(),
        g != f,
        f <= usize::MAX,
    ensures
        ({
            let after = l.vacated(f);
            &&& !after.table.dom().contains(l.frames[f].page_id)
            &&& x != l.frames[f].page_id ==> after.table.dom().contains(x)
                == l.table.dom().contains(x) && (l.table.dom().contains(x) ==> after.table[x]
                == l.table[x])
            &&& after.free == l.free.push(f as usize)
            &&& after.frames[f].page_id == INVALID_FRAME_ID
            &&& after.frames[f].pin_count == 0
            &&& !after.frames[f].is_dirty
            &&& !after.clock.evictable[f]
            &&& frame_stays(l, after, g)
        }),
{
}

/// A page whose bytes came in is no longer waited for.
pub proof fn law_loading(l: Ledger, f: int, g: int)
    requires
        framed(l),
        0 <= f < l.frames.len(),
        0 <= g < l.frames.len(),
        g != f,
    ensures
        ({
            let after = l.loaded(f);
            let m = l.frames[f];
            &&& !after.frames[f].loading
            &&& after.frames[f].page_id == m.page_id
            &&& after.frames[f].pin_count == m.pin_count
            &&& after.frames[f].is_dirty == m.is_dirty
            &&& after.table == l.table
            &&& after.free == l.free
            &&& after.clock == l.clock
            &&& frame_stays(l, after, g)
        }),
{
}

/// The first change of a clean page makes it dirty from that record on; a page that is dirty stays
/// so from its first record on.
pub proof fn law_marking(l: Ledger, id: u64, lsn: Lsn, g: int)
    requires
        framed(l),
        l.table.dom().contains(id),
        0 <= g < l.frames.len(),
        g != l.table[id],
    ensures
        ({
            let f = l.table[id] as int;
            let after = l.marked(id, lsn);
            let m = l.frames[f];
            &&& after.frames[f].is_dirty
            &&& after.frames[f].rec_lsn == (if m.is_dirty {
                m.rec_lsn
            } else {
                Some(lsn)
            })
            &&& after.frames[f].pin_count == m.pin_count
            &&& after.frames[f].page_id == m.page_id
            &&& after.table == l.table
            &&& after.clock == l.clock
            &&& frame_stays(l, after, g)
        }),
{
}

/// A page that was written is clean, waits for no record, and keeps its pins; where it has none it
/// may be evicted.
pub proof fn law_writing(l: Ledger, f: int, g: int)
    requires
        framed(l),
        0 <= f < l.frames.len(),
        0 <= g < l.frames.len(),
        g != f,
    ensures
        ({
            let after = l.written(f);
            let m = l.frames[f];
            &&& !after.frames[f].is_dirty
            &&& after.frames[f].rec_lsn is None
            &&& after.frames[f].pin_count == m.pin_count
            &&& after.frames[f].page_id == m.page_id
            &&& m.pin_count == 0 ==> after.clock.evictable[f]
            &&& m.pin_count > 0 ==> after.clock == l.clock
            &&& frame_stays(l, after, g)
            &&& after.table == l.table
            &&& after.free == l.free
        }),
{
}

/// A free frame is used before a page is evicted for one, and there is no frame to be had exactly
/// where none is free and none may be evicted.
pub proof fn law_frame_to_be_had(l: Ledger)
    requires
        framed(l),
    ensures
        ({
            let (v, after) = l.victim();
            &&& v is None <==> l.free.len() == 0 && forall|i: int|
                0 <= i < l.frames.len() ==> !(#[trigger] l.clock.evictable[i])
            &&& l.free.len() > 0 ==> v == Some(l.free.last() as int) && after.free
                == l.free.drop_last() && after.clock == l.clock
            &&& l.free.len() == 0 && v is Some ==> 0 <= v->0 < l.frames.len()
                && l.clock.evictable[v->0] && !after.clock.evictable[v->0]
            &&& after.frames == l.frames
            &&& after.table == l.table
        }),
{
    law_sweep(l.clock);
}

/// A page that is in a frame is found there and pinned, and nothing is written. A page that is in
/// none is never found; where it is given a frame, it is in that frame, with one pin.
pub proof fn law_page_is_found(l: Ledger, id: u64, n: nat)
    requires
        framed(l),
    ensures
        ({
            let s = search(l, id, n);
            &&& s.found is Hit <==> l.table.dom().contains(id)
            &&& l.table.dom().contains(id) ==> s.found == Found::Hit(l.table[id] as int)
                && s.written.len() == 0 && s.ledger == l.pinned(id)
            &&& s.found matches Found::Miss(f) ==> s.ledger.table.dom().contains(id)
                && s.ledger.table[id] == f as usize && (0 <= f < l.frames.len()
                ==> s.ledger.frames[f].page_id == id && s.ledger.frames[f].pin_count == 1)
            &&& s.found is Nothing ==> s.ledger.table == l.table
            &&& s.ledger.frames.len() == l.frames.len()
        }),
    decreases n,
{
    if !l.table.dom().contains(id) {
        let (v, after) = l.victim();
        law_frame_to_be_had(l);
        law_sweep(l.clock);
        if v is Some && after.frames[v->0].is_dirty && n > 0 {
            law_page_is_found(after.written(v->0), id, (n - 1) as nat);
        }
    }
}

/// A frame that is free has no page, no pin and nothing to write.
pub proof fn law_free_frame()
    ensures
        free_frame().page_id == INVALID_FRAME_ID,
        free_frame().pin_count == 0,
        !free_frame().is_dirty,
        !free_frame().loading,
        free_frame().rec_lsn is None,
{
}

/// Once the frames were written, none of them is dirty; their pages and pins are what they were.
pub proof fn law_all_are_written(l: Ledger, n: int, g: int)
    requires
        framed(l),
        0 <= n <= l.frames.len(),
        0 <= g < l.frames.len(),
    ensures
        ({
            let after = l.all_written(n);
            &&& g < n ==> !after.frames[g].is_dirty
            &&& g >= n ==> after.frames[g] == l.frames[g]
            &&& after.frames[g].page_id == l.frames[g].page_id
            &&& after.frames[g].pin_count == l.frames[g].pin_count
            &&& after.frames.len() == l.frames.len()
            &&& after.table == l.table
            &&& after.free == l.free
        }),
    decreases n,
{
    if n > 0 {
        law_all_are_written(l, n - 1, g);
    }
}

/// The frames that are flushed are exactly those that are dirty.
pub proof fn law_dirty_frames(frames: Seq<FrameMetadata>, n: int, f: int)
    requires
        0 <= n <= frames.len(),
    ensures
        dirty_frames(frames, n).contains(f) <==> 0 <= f < n && frames[f].is_dirty,
        dirty_frames(frames, n).len() == dirty_of(frames, n),
    decreases n,
{
    if n > 0 {
        law_dirty_frames(frames, n - 1, f);
        let rest = dirty_frames(frames, n - 1);
        let all = dirty_frames(frames, n);
        if rest.contains(f) {
            let i = choose|i: int| 0 <= i < rest.len() && rest[i] == f;
            assert(all[i] == f);
        }
        if all.contains(f) {
            let i = choose|i: int| 0 <= i < all.len() && all[i] == f;
            if i < rest.len() {
                assert(rest[i] == f);
            }
        }
        if frames[n - 1].is_dirty {
            assert(all[rest.len() as int] == n - 1);
        }
    }
}

/// The pages of the frames that were written are in the data file as the frames hold them, sealed;
/// the other pages of the file are as they were.
pub proof fn law_saved_pages(d: DiskView, s: BufferPoolShard, frames: Seq<int>, x: u64)
    requires
        forall|i: int, j: int|
            0 <= i < j < frames.len() ==> s.inner.metadata@[#[trigger] frames[i]].page_id
                != s.inner.metadata@[#[trigger] frames[j]].page_id,
    ensures
        forall|i: int|
            0 <= i < frames.len() ==> saved(d, s, frames).content(
                s.inner.metadata@[#[trigger] frames[i]].page_id,
            ) == sealed(s.pages@[frames[i]].0@),
        (forall|i: int|
            0 <= i < frames.len() ==> s.inner.metadata@[#[trigger] frames[i]].page_id != x)
            ==> saved(d, s, frames).content(x) == d.content(x),
        saved(d, s, frames).page_size == d.page_size,
        saved(d, s, frames).broken == d.broken,
    decreases frames.len(),
{
    if frames.len() > 0 {
        let init = frames.drop_last();
        let last = s.inner.metadata@[frames.last()].page_id;
        assert forall|i: int, j: int| 0 <= i < j < init.len() implies s.inner.metadata@[
            #[trigger] init[i]].page_id != s.inner.metadata@[#[trigger] init[j]].page_id by {
            assert(frames[i] == init[i] && frames[j] == init[j]);
        }
        law_saved_pages(d, s, init, x);
        let before = saved(d, s, init);
        let after = saved(d, s, frames);
        assert forall|i: int| 0 <= i < frames.len() implies after.content(
            s.inner.metadata@[#[trigger] frames[i]].page_id,
        ) == sealed(s.pages@[frames[i]].0@) by {
            if i < init.len() {
                assert(init[i] == frames[i]);
                assert(frames[frames.len() - 1] == frames.last());
                assert(s.inner.metadata@[frames[i]].page_id != last);
            }
        }
        if forall|i: int|
            0 <= i < frames.len() ==> s.inner.metadata@[#[trigger] frames[i]].page_id != x {
            assert(frames[frames.len() - 1] == frames.last());
            assert forall|i: int| 0 <= i < init.len() implies s.inner.metadata@[
                #[trigger] init[i]].page_id != x by {
                assert(frames[i] == init[i]);
            }
        }
    }
}

/// Dirty frames are listed in their order.
proof fn lemma_dirty_ascending(frames: Seq<FrameMetadata>, n: int, i: int, j: int)
    requires
        0 <= n <= frames.len(),
        0 <= i < j < dirty_frames(frames, n).len(),
    ensures
        0 <= dirty_frames(frames, n)[i] < dirty_frames(frames, n)[j] < n,
    decreases n,
{
    let rest = dirty_frames(frames, n - 1);
    if j < rest.len() {
        lemma_dirty_ascending(frames, n - 1, i, j);
    } else {
        assert(rest.contains(rest[i]));
        law_dirty_frames(frames, n - 1, rest[i]);
    }
}

/// Flushing the whole pool puts every dirty page into the data file as its frame holds it, sealed,
/// and leaves every other page of the file alone.
pub proof fn law_all_dirty_pages_are_saved(p: BufferPoolManager, id: u64)
    requires
        p.wf(),
    ensures
        saved_shards(p.disk@, p.shards@, NUM_SHARDS as int).content(id) == (if p.is_dirty(id) {
            sealed(p.shards@[shard_of(id)].cached(id))
        } else {
            p.disk@.content(id)
        }),
{
    lemma_saved_shards(p, NUM_SHARDS as int, id);
}

proof fn lemma_saved_shards(p: BufferPoolManager, n: int, id: u64)
    requires
        p.wf(),
        0 <= n <= NUM_SHARDS,
    ensures
        saved_shards(p.disk@, p.shards@, n).content(id) == (if shard_of(id) < n && p.is_dirty(id) {
            sealed(p.shards@[shard_of(id)].cached(id))
        } else {
            p.disk@.content(id)
        }),
    decreases n,
{
    if n > 0 {
        lemma_saved_shards(p, n - 1, id);
        let k = n - 1;
        let s = p.shards@[k];
        let m = s.inner.metadata@;
        let frames = dirty_frames(m, m.len() as int);
        assert(p.shard_wf(k));
        assert forall|i: int| 0 <= i < frames.len() implies ({
            let f = #[trigger] frames[i];
            &&& 0 <= f < m.len()
            &&& m[f].is_dirty
            &&& s.inner.resident(m[f].page_id)
            &&& s.inner.page_table@[m[f].page_id] == f
        }) by {
            assert(frames.contains(frames[i]));
            law_dirty_frames(m, m.len() as int, frames[i]);
            assert(s.inner.frame_wf(frames[i]));
        }
        assert forall|i: int, j: int| 0 <= i < j < frames.len() implies m[
            #[trigger] frames[i]].page_id != m[#[trigger] frames[j]].page_id by {
            lemma_dirty_ascending(m, m.len() as int, i, j);
        }
        let before = saved_shards(p.disk@, p.shards@, k);
        law_saved_pages(before, s, frames, id);
        if shard_of(id) == k && p.is_dirty(id) {
            let f = s.inner.page_table@[id] as int;
            law_dirty_frames(m, m.len() as int, f);
            let i = choose|i: int| 0 <= i < frames.len() && frames[i] == f;
            assert(frames[i] == f);
            assert(m[frames[i]].page_id == id);
        } else {
            assert forall|i: int| 0 <= i < frames.len() implies m[#[trigger] frames[i]].page_id
                != id by {
                if m[frames[i]].page_id == id {
                    assert(s.inner.resident(id));
                }
            }
        }
    }
}

/// Flushing a page that is not in a frame, or is clean, does nothing. A dirty page that was written
/// is clean, and one that could not be written stays dirty.
pub proof fn law_flushing_a_page(a: BufferPoolShard, id: u64, ok: bool, b: BufferPoolShard)
    requires
        flushed(a, id, ok, b),
        framed(a.inner.ledger()),
    ensures
        ({
            let l = a.inner.ledger();
            let m = b.inner.ledger();
            let f = l.table[id] as int;
            &&& m.table == l.table
            &&& m.free == l.free
            &&& !l.table.dom().contains(id) || !l.frames[f].is_dirty ==> m == l
            &&& l.table.dom().contains(id) && ok ==> !m.frames[f].is_dirty
            &&& l.table.dom().contains(id) && !ok ==> m.frames == l.frames
        }),
{
}

/// A new shard holds no page; every frame is free and listed once, and none may be evicted.
pub proof fn law_empty_shard(size: nat, f: int)
    requires
        size <= usize::MAX,
        0 <= f < size,
    ensures
        ({
            let l = empty_ledger(size);
            &&& l.frames.len() == size
            &&& l.frames[f].page_id == INVALID_FRAME_ID
            &&& l.frames[f].pin_count == 0
            &&& !l.frames[f].is_dirty
            &&& l.table.dom().is_empty()
            &&& l.free.len() == size
            &&& l.free.contains(f as usize)
            &&& l.free.no_duplicates()
            &&& !l.clock.evictable[f]
            &&& l.least is None
        }),
{
    let l = empty_ledger(size);
    assert(l.free[size - 1 - f] == f as usize);
}

/// A page that was brought into its shard is in a frame there. It has one pin more than before, or
/// its first one. Where it was in a frame, no frame's bytes changed; else its frame holds what the
/// data file holds of it, or zeros for a new page, and no other frame's bytes changed.
pub proof fn law_page_is_brought(
    a: BufferPoolShard,
    da: DiskManager,
    wa: WalView,
    b: BufferPoolShard,
    db: DiskManager,
    wb: WalView,
    id: u64,
    fresh: bool,
    r: Result<(), BufferPoolError>,
)
    requires
        framed(a.inner.ledger()),
        a.inner.ledger().table.dom().contains(id) ==> a.inner.ledger().frames[a.inner.ledger().table[id] as int].pin_count
            < u64::MAX,
        a.inner.metadata@.len() == a.pages@.len() <= usize::MAX,
        brought(a, da, wa, b, db, wb, id, fresh, r),
    ensures
        ({
            let before = a.inner.ledger();
            let after = b.inner.ledger();
            let f = after.table[id] as int;
            &&& before.table.dom().contains(id) && r is Ok ==> {
                &&& after.table == before.table
                &&& after.frames[f].pin_count == before.frames[f].pin_count + 1
                &&& b.pages@ == a.pages@
                &&& db@ == da@
            }
            &&& !before.table.dom().contains(id) && r is Ok ==> {
                &&& after.table.dom().contains(id)
                &&& 0 <= f < a.pages@.len() ==> {
                    &&& after.frames[f].page_id == id
                    &&& after.frames[f].pin_count == 1
                    &&& !after.frames[f].loading
                    &&& fresh ==> b.pages@[f].0@ == zero_page()
                    &&& !fresh ==> b.pages@[f].0@ == db@.content(id)
                    &&& forall|g: int|
                        0 <= g < a.pages@.len() && g != f ==> #[trigger] b.pages@[g] == a.pages@[g]
                }
            }
            &&& r is Err ==> b.pages@ == a.pages@
            &&& r == Err::<(), BufferPoolError>(BufferPoolError::NoEvictableFrames)
                ==> !before.table.dom().contains(id)
        }),
{
    reveal(brought);
    let l = a.inner.ledger();
    let n = a.inner.metadata@.len();
    law_page_is_found(l, id, n);
    let s = search(l, id, n);
    assert(searched(a, id) == s);
    if let Found::Miss(f) = s.found {
        lemma_given_frame(l, id, n);
    }
    if l.table.dom().contains(id) {
        assert(s.written.len() == 0);
    }
}

/// A frame that is given is one of the frames.
proof fn lemma_given_frame(l: Ledger, id: u64, n: nat)
    requires
        framed(l),
        search(l, id, n).found is Miss,
    ensures
        0 <= search(l, id, n).found->Miss_0 < l.frames.len(),
    decreases n,
{
    let (v, after) = l.victim();
    law_frame_to_be_had(l);
    law_sweep(l.clock);
    if after.frames[v->0].is_dirty {
        assert(framed(after.written(v->0)));
        lemma_given_frame(after.written(v->0), id, (n - 1) as nat);
    }
}

/// A count goes up by what is added, and stays at the largest number once it is there.
pub proof fn law_counted_up(k: u64, n: int)
    requires
        0 <= n,
    ensures
        k + n <= u64::MAX ==> counted_up(k, n) == k + n,
        k + n > u64::MAX ==> counted_up(k, n) == u64::MAX,
{
}

/// Every page has one shard; pages that follow each other are spread over all of them.
pub proof fn law_shard_of(id: u64, k: u64)
    requires
        0 < k < NUM_SHARDS,
        id + k <= u64::MAX,
    ensures
        0 <= shard_of(id) < NUM_SHARDS,
        shard_of((id + k) as u64) != shard_of(id),
        id + NUM_SHARDS <= u64::MAX ==> shard_of((id + NUM_SHARDS) as u64) == shard_of(id),
{
}

/// The lesser of two numbers is one of them, and neither is below it.
pub proof fn law_lesser(a: Lsn, b: Lsn)
    ensures
        lesser(Some(a), Some(b)) == Some(a) || lesser(Some(a), Some(b)) == Some(b),
        lesser(Some(a), Some(b))->0 <= a,
        lesser(Some(a), Some(b))->0 <= b,
        lesser(None, Some(b)) == Some(b),
        lesser(Some(a), None) == Some(a),
        lesser(None, None) is None,
{
}

} // verus!
