//! The bookkeeping of a shard as a value, and what each operation makes of it.

use crate::buffer_pool::replacer::ClockView;
use crate::buffer_pool::shard::{emptied, least_rec_lsn, released, taken, FrameMetadata};
use crate::page::Lsn;
use vstd::prelude::*;

verus! {

/// The bookkeeping of a shard.
#[verifier::ext_equal]
pub ghost struct Ledger {
    pub frames: Seq<FrameMetadata>,
    /// The frame of each page that is in one.
    pub table: Map<u64, usize>,
    /// The free frames; the last one is used first.
    pub free: Seq<usize>,
    pub clock: ClockView,
    /// The least log sequence number at which a page that is dirty was first changed.
    pub least: Option<Lsn>,
}

impl Ledger {
    /// The page is in a frame.
    pub open spec fn holds(self, id: u64) -> bool {
        self.table.dom().contains(id)
    }

    /// The page's frame.
    pub open spec fn frame(self, id: u64) -> int {
        self.table[id] as int
    }

    /// What is known of the page's frame.
    pub open spec fn meta(self, id: u64) -> FrameMetadata {
        self.frames[self.frame(id)]
    }

    /// With what is known of a frame replaced.
    pub open spec fn with(self, f: int, m: FrameMetadata) -> Ledger {
        let frames = self.frames.update(f, m);
        Ledger { frames, least: least_rec_lsn(frames, frames.len() as int), ..self }
    }

    /// With one more pin on the page.
    pub open spec fn pinned(self, id: u64) -> Ledger {
        let f = self.frame(id);
        let m = self.frames[f];
        Ledger {
            clock: self.clock.pinned(f),
            ..self.with(f, FrameMetadata { pin_count: (m.pin_count + 1) as u64, ..m })
        }
    }

    /// With a pin taken off the page, which is dirty where that is said. With its last pin
    /// the frame goes to the clock.
    pub open spec fn released(self, id: u64, is_dirty: bool) -> Ledger {
        if self.holds(id) && self.meta(id).pin_count > 0 {
            self.with(self.frame(id), released(self.meta(id), is_dirty)).idle(self.frame(id))
        } else {
            self
        }
    }

    /// The clock knows that the frame was used just now, where nobody has it pinned.
    pub open spec fn idle(self, f: int) -> Ledger {
        if self.frames[f].pin_count == 0 {
            Ledger { clock: self.clock.unpinned(f), ..self }
        } else {
            self
        }
    }

    /// The frame that is given to a page next: the last free one, or the one that the clock
    /// chooses; and the bookkeeping once it is chosen.
    pub open spec fn victim(self) -> (Option<int>, Ledger) {
        if self.free.len() > 0 {
            (Some(self.free.last() as int), Ledger { free: self.free.drop_last(), ..self })
        } else {
            let (v, clock) = self.clock.sweep((2 * self.clock.used.len()) as nat);
            (v, Ledger { clock, ..self })
        }
    }

    /// Once the frame's page was written to the data file.
    pub open spec fn written(self, f: int) -> Ledger {
        self.with(
            f,
            FrameMetadata { is_dirty: false, rec_lsn: None, ..self.frames[f] },
        ).idle(f)
    }

    /// Once the frame was given to the page, whose bytes are not there yet.
    pub open spec fn taken(self, f: int, id: u64) -> Ledger {
        Ledger {
            table: self.table.remove(self.frames[f].page_id).insert(id, f as usize),
            clock: self.clock.pinned(f),
            ..self.with(f, taken(id, self.frames[f]))
        }
    }

    /// Once the page's bytes are in the frame.
    pub open spec fn loaded(self, f: int) -> Ledger {
        self.with(f, FrameMetadata { loading: false, ..self.frames[f] })
    }

    /// Once the frame is free again.
    pub open spec fn vacated(self, f: int) -> Ledger {
        Ledger {
            table: self.table.remove(self.frames[f].page_id),
            free: self.free.push(f as usize),
            clock: self.clock.pinned(f),
            ..self.with(f, emptied(self.frames[f]))
        }
    }

    /// Once the page was changed by the record with the number: a page that was clean is
    /// dirty from that record on.
    pub open spec fn marked(self, id: u64, lsn: Lsn) -> Ledger {
        if self.holds(id) && !self.meta(id).is_dirty {
            self.with(
                self.frame(id),
                FrameMetadata { is_dirty: true, rec_lsn: Some(lsn), ..self.meta(id) },
            )
        } else {
            self
        }
    }

    /// Once the dirty ones of the first `n` frames were written.
    pub open spec fn all_written(self, n: int) -> Ledger
        decreases n,
    {
        if n <= 0 {
            self
        } else {
            let rest = self.all_written(n - 1);
            if rest.frames[n - 1].is_dirty {
                rest.written(n - 1)
            } else {
                rest
            }
        }
    }
}

/// What the search for a page's frame finds.
pub ghost enum Found {
    /// The page is in the frame.
    Hit(int),
    /// The frame was given to the page.
    Miss(int),
    /// No frame can be given.
    Nothing,
}

/// A search for a page's frame.
#[verifier::ext_equal]
pub ghost struct Search {
    pub found: Found,
    /// The bookkeeping afterwards.
    pub ledger: Ledger,
    /// The frames whose pages are written to the data file on the way, in order.
    pub written: Seq<int>,
}

/// Searches a frame for the page: the one that it is in, or the next victim that is clean.
/// Victims that are dirty are written, at most `n` of them, and go back to the clock.
pub open spec fn search(l: Ledger, id: u64, n: nat) -> Search
    decreases n,
{
    if l.holds(id) {
        Search { found: Found::Hit(l.frame(id)), ledger: l.pinned(id), written: Seq::empty() }
    } else {
        match l.victim() {
            (None, after) => Search {
                found: Found::Nothing,
                ledger: after,
                written: Seq::empty(),
            },
            (Some(f), after) => if !after.frames[f].is_dirty {
                Search {
                    found: Found::Miss(f),
                    ledger: after.taken(f, id),
                    written: Seq::empty(),
                }
            } else if n == 0 {
                Search { found: Found::Nothing, ledger: after, written: Seq::empty() }
            } else {
                let rest = search(after.written(f), id, (n - 1) as nat);
                Search { written: seq![f] + rest.written, ..rest }
            },
        }
    }
}

/// The bookkeeping where the search ends because a victim could not be written, after `k`
/// were; and those.
pub open spec fn stalled(l: Ledger, k: nat) -> (Ledger, Seq<int>)
    decreases k,
{
    let (v, after) = l.victim();
    let f = v->0;
    if k == 0 {
        (after.idle(f), Seq::empty())
    } else {
        let (rest, written) = stalled(after.written(f), (k - 1) as nat);
        (rest, seq![f] + written)
    }
}

/// The log sequence number at which the frame's page was first changed, where it is dirty.
pub open spec fn counted(m: FrameMetadata) -> Option<Lsn> {
    if m.is_dirty {
        m.rec_lsn
    } else {
        None
    }
}

/// The lesser of two numbers, where there are two.
pub open spec fn lesser(a: Option<Lsn>, b: Option<Lsn>) -> Option<Lsn> {
    if a is None || b is Some && b->0 < a->0 {
        b
    } else {
        a
    }
}

/// What one frame does to the least number.
pub proof fn lemma_least_update(frames: Seq<FrameMetadata>, f: int, m: FrameMetadata, n: int)
    requires
        0 <= f < frames.len(),
        0 <= n <= frames.len(),
    ensures
        counted(m) == counted(frames[f]) ==> least_rec_lsn(frames.update(f, m), n)
            == least_rec_lsn(frames, n),
        counted(frames[f]) is None ==> least_rec_lsn(frames.update(f, m), n) == (if f < n {
            lesser(least_rec_lsn(frames, n), counted(m))
        } else {
            least_rec_lsn(frames, n)
        }),
    decreases n,
{
    if n > 0 {
        lemma_least_update(frames, f, m, n - 1);
    }
}

/// The least number once a frame counts no more: where it was another's, it still is.
pub proof fn lemma_least_without(frames: Seq<FrameMetadata>, f: int, m: FrameMetadata)
    requires
        0 <= f < frames.len(),
        counted(m) is None,
    ensures
        ({
            let n = frames.len() as int;
            let old = least_rec_lsn(frames, n);
            counted(frames[f]) is None || counted(frames[f]) != old ==> least_rec_lsn(
                frames.update(f, m),
                n,
            ) == old
        }),
{
    let n = frames.len() as int;
    let after = frames.update(f, m);
    assert(after.update(f, frames[f]) =~= frames);
    lemma_least_update(after, f, frames[f], n);
}

} // verus!
