//! Vacuum: a sweep over the leaves that removes the versions nobody needs any more.

use crate::error::IndexError;
use crate::index::floor::{carried, floor_kept, lemma_carried, told_by};
use crate::index::rows::vacuumed;
use crate::index::smo::{lemma_only_logged, lemma_pool_kept, lemma_same_marks, marks_kept};
use crate::index::trail::{lemma_on_trail, spared, within};
use crate::index::tree::{lemma_same_view, node_wf, Part};
use crate::index::{broke, fit, held, lemma_fit, lemma_hold, log_stuck, BTreeIndex};
use crate::page::PageId;
use crate::page::leaf::{kept_rows, LeafPageAccessor};
use crate::transaction_manager::{TmView, TransactionManager};
use crate::types::{Key, Value};
use vstd::prelude::*;

verus! {

/// The leaves after the first `n` of them were swept.
pub open spec fn swept(parts: Seq<Part>, n: int, horizon: u64, tm: TmView) -> Seq<Part> {
    Seq::new(
        parts.len(),
        |i: int|
            if i < n {
                vacuumed(parts[i], horizon, tm)
            } else {
                parts[i]
            },
    )
}

/// The number of versions that a sweep over the first `n` leaves removes.
pub open spec fn removed(parts: Seq<Part>, n: int, horizon: u64, tm: TmView) -> int
    decreases n,
{
    if n <= 0 {
        0
    } else {
        removed(parts, n - 1, horizon, tm) + parts[n - 1].rows.len() - kept_rows(
            parts[n - 1].rows,
            horizon,
            tm,
        ).len()
    }
}

/// The number, or the greatest that can be told.
pub open spec fn capped(n: int) -> int {
    if n < usize::MAX {
        n
    } else {
        usize::MAX as int
    }
}

/// What a crash falls back to after leaves were swept.
pub open spec fn sweep_floor<K: Key, V: Value>(
    a: BTreeIndex<K, V>,
    horizon: u64,
    tm: TmView,
    b: BTreeIndex<K, V>,
) -> bool {
    b.pool.wal@.error is None && !b.trail@.parted ==> {
        ||| floor_kept(a, b)
        ||| told_by(a, b) && exists|n: int|
            0 <= n <= a.parts().len() && b.trail@.floor == #[trigger] swept(
                a.parts(),
                n,
                horizon,
                tm,
            )
    }
}

/// What a vacuum comes to. One that fails has swept the first leaves, and publishes nothing.
pub open spec fn vacuum_outcome<K: Key, V: Value>(
    a: BTreeIndex<K, V>,
    tm: TmView,
    r: Result<usize, IndexError>,
    b: BTreeIndex<K, V>,
    after: TmView,
) -> bool {
    let parts = a.parts();
    let horizon = tm.global_xmin();
    &&& spared(a, b, broke(r))
    &&& sweep_floor(a, horizon, tm, b)
    &&& match r {
        Ok(n) => {
            &&& b.parts() == swept(parts, parts.len() as int, horizon, tm)
            &&& n == capped(removed(parts, parts.len() as int, horizon, tm))
            &&& after == (TmView {
                swept: if horizon > tm.swept {
                    horizon
                } else {
                    tm.swept
                },
                ..tm
            })
        },
        Err(e) => {
            &&& e is BufferPool && b.pool.faulty() || e is Wal && log_stuck(b.pool.wal@)
            &&& exists|n: int|
                0 <= n <= parts.len() && b.parts() == #[trigger] swept(parts, n, horizon, tm)
            &&& after == tm
        },
    }
}

proof fn lemma_removed_positive(parts: Seq<Part>, n: int, horizon: u64, tm: TmView)
    requires
        0 <= n <= parts.len(),
    ensures
        0 <= removed(parts, n, horizon, tm),
    decreases n,
{
    if n > 0 {
        lemma_removed_positive(parts, n - 1, horizon, tm);
        crate::page::leaf::lemma_kept_bytes(parts[n - 1].rows, horizon, tm);
    }
}

impl<K: Key, V: Value> BTreeIndex<K, V> {
    /// Removes from every leaf the versions that aborted transactions created and those
    /// that were deleted before the oldest active transaction began. Tells how many, and
    /// publishes the horizon once the last leaf is done.
    pub fn vacuum(&mut self, tm: &mut TransactionManager) -> (r: Result<usize, IndexError>)
        requires
            old(self).wf(),
            old(tm)@.wf(),
        ensures
            final(self).wf(),
            final(self).shape@ == old(self).shape@,
            marks_kept(*old(self), *final(self)),
            final(self).rooted() == old(self).rooted(),
            vacuum_outcome(*old(self), old(tm)@, r, *final(self), final(tm)@),
            within(old(self).pool, final(self).pool, old(self).parts().len() as int),
            fit(old(self).pool, old(self).parts().len() as int) ==> r is Ok && final(self).pool.able(),
    {
        let ghost a = *self;
        let horizon: u64 = tm.global_xmin();
        let done = self.sweep(horizon, tm);
        proof {
            if fit(a.pool, a.parts().len() as int) {
                lemma_fit(a.pool, self.pool, a.parts().len() as int);
            }
        }
        match done {
            Ok(n) => {
                tm.publish_vacuum_horizon(horizon);
                Ok(n)
            },
            Err(e) => Err(e),
        }
    }

    /// Removes what may be removed from every leaf, from left to right.
    fn sweep(&mut self, horizon: u64, tm: &TransactionManager) -> (r: Result<usize, IndexError>)
        requires
            old(self).wf(),
        ensures
            final(self).wf(),
            final(self).shape@ == old(self).shape@,
            marks_kept(*old(self), *final(self)),
            final(self).rooted() == old(self).rooted(),
            spared(*old(self), *final(self), broke(r)),
            within(old(self).pool, final(self).pool, old(self).parts().len() as int),
            sweep_floor(*old(self), horizon, tm@, *final(self)),
            ({
                let parts = old(self).parts();
                match r {
                    Ok(n) => {
                        &&& final(self).parts() == swept(parts, parts.len() as int, horizon, tm@)
                        &&& n == capped(removed(parts, parts.len() as int, horizon, tm@))
                    },
                    Err(e) => {
                        &&& e is BufferPool && final(self).pool.faulty() || e is Wal && log_stuck(
                            final(self).pool.wal@,
                        )
                        &&& exists|n: int|
                            0 <= n <= parts.len() && final(self).parts() == #[trigger] swept(
                                parts,
                                n,
                                horizon,
                                tm@,
                            )
                    },
                }
            }),
    {
        let ghost parts = self.parts();
        let ghost sh = self.shape@;
        let ghost chain = sh.levels[0];
        let root: PageId = self.root;
        proof {
            assert(swept(parts, 0, horizon, tm@) =~= parts);
        }
        let first = self.find_leftmost_leaf(root);
        proof {
            lemma_same_marks(*old(self), *self);
            assert(self.pool.page(0) == old(self).pool.page(0));
        }
        let mut pid: PageId = match first {
            Ok(p) => p,
            Err(e) => {
                return Err(e);
            },
        };
        let mut total: usize = 0;
        let ghost mut i: int = 0;
        loop
            invariant
                self.wf(),
                self.rooted() == old(self).rooted(),
                old(self).shape@ == sh,
                marks_kept(*old(self), *self),
                spared(*old(self), *self, false),
                sweep_floor(*old(self), horizon, tm@, *self),
                sh == self.shape@,
                chain == sh.levels[0],
                parts == old(self).parts(),
                parts.len() == chain.len(),
                0 <= i < chain.len(),
                pid == chain[i],
                self.parts() == swept(parts, i, horizon, tm@),
                within(old(self).pool, self.pool, i),
                total == capped(removed(parts, i, horizon, tm@)),
            decreases chain.len() - i,
        {
            let ghost here = *self;
            assert(node_wf::<K, V>(self.pool, sh, 0, i));
            let fetched = self.pool.fetch_page_mut(pid);
            self.trail = Ghost(carried(here, self.pool.wal@));
            proof {
                lemma_carried(here, *self);
            }
            let mut guard = match fetched {
                Ok(g) => g,
                Err(e) => {
                    proof {
                        lemma_pool_kept(here, *self);
                        lemma_same_marks(here, *self);
                        assert(held(here.pool, Set::empty(), 0));
                        assert(self.pool.page(0) == here.pool.page(0));
                    }
                    return Err(IndexError::BufferPool(e));
                },
            };
            let ghost mid = *self;
            proof {
                lemma_pool_kept(here, mid);
                lemma_hold(here.pool, mid.pool, Set::empty(), 0, pid);
                lemma_same_view(guard@);
                assert(mid.pool.page(pid) == here.pool.page(pid));
                assert(mid.pool.page(0) == here.pool.page(0));
                assert(self.parts()[i].rows == parts[i].rows);
                lemma_removed_positive(parts, i, horizon, tm@);
                lemma_on_trail(mid.pool, mid.trail@, guard);
            }
            let (dead, logged) = self.compact_held(&mut guard, horizon, tm);
            proof {
                lemma_only_logged(mid, *self);
                assert(held(mid.pool, Set::empty().insert(pid), 1));
                assert(self.pool.page(pid) == mid.pool.page(pid));
                assert(self.pool.page(0) == mid.pool.page(0));
                lemma_same_marks(here, *self);
            }
            let next: Option<PageId> = LeafPageAccessor::<K, V>::new(guard.memory()).rightlink();
            self.put_back(guard, Ghost(i));
            proof {
                assert(self.parts() =~= swept(parts, i + 1, horizon, tm@));
            }
            if let Err(e) = logged {
                return Err(IndexError::Wal(e));
            }
            total = match total.checked_add(dead) {
                Some(t) => t,
                None => usize::MAX,
            };
            match next {
                Some(right) => {
                    proof {
                        i = i + 1;
                    }
                    pid = right;
                },
                None => {
                    return Ok(total);
                },
            }
        }
    }
}

} // verus!
