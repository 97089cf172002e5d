//! The clock replacement policy, an approximation of evicting the frame that was used
//! least recently.

use crate::error::BufferPoolError;
use vstd::prelude::*;

verus! {

/// Chooses the frame to evict: a hand sweeps over the frames, passes each that was used
/// since it last came by, and stops at the first that was not.
#[derive(Debug)]
pub struct ClockReplacer {
    size: usize,
    hand: usize,
    ref_bits: Vec<bool>,
    evictable: Vec<bool>,
}

/// A clock.
#[verifier::ext_equal]
pub ghost struct ClockView {
    pub hand: int,
    /// The frame was used since the hand last came by.
    pub used: Seq<bool>,
    /// The frame may be evicted.
    pub evictable: Seq<bool>,
}

impl ClockView {
    /// The hand stands on a frame.
    pub open spec fn wf(self) -> bool {
        &&& self.used.len() == self.evictable.len()
        &&& 0 <= self.hand
        &&& self.hand < self.used.len() || self.used.len() == 0
    }

    /// The frame after the one under the hand.
    pub open spec fn after(self) -> int {
        if self.hand + 1 == self.used.len() {
            0
        } else {
            self.hand + 1
        }
    }

    /// The clock after the hand passed the frame under it.
    pub open spec fn passed(self) -> ClockView {
        ClockView {
            hand: self.after(),
            used: if self.evictable[self.hand] {
                self.used.update(self.hand, false)
            } else {
                self.used
            },
            ..self
        }
    }

    /// What at most `steps` steps of the hand find, and the clock afterwards.
    pub open spec fn sweep(self, steps: nat) -> (Option<int>, ClockView)
        decreases steps,
    {
        if steps == 0 {
            (None, self)
        } else if self.evictable[self.hand] && !self.used[self.hand] {
            (
                Some(self.hand),
                ClockView {
                    hand: self.after(),
                    evictable: self.evictable.update(self.hand, false),
                    ..self
                },
            )
        } else {
            self.passed().sweep((steps - 1) as nat)
        }
    }

    /// Some frame may be evicted.
    pub open spec fn has_victim(self) -> bool {
        exists|i: int| 0 <= i < self.evictable.len() && #[trigger] self.evictable[i]
    }

    /// The clock after the frame was released.
    pub open spec fn unpinned(self, i: int) -> ClockView {
        ClockView {
            used: self.used.update(i, true),
            evictable: self.evictable.update(i, true),
            ..self
        }
    }

    /// The clock after the frame was taken.
    pub open spec fn pinned(self, i: int) -> ClockView {
        ClockView {
            used: self.used.update(i, false),
            evictable: self.evictable.update(i, false),
            ..self
        }
    }

    /// Steps that bring the hand to the frame.
    pub open spec fn steps_to(self, i: int) -> int {
        if i >= self.hand {
            i - self.hand
        } else {
            i + self.used.len() - self.hand
        }
    }
}

/// Two rounds of the hand find a victim exactly where there is one; a victim was
/// evictable, no longer is, and nothing else about which frames are changes.
pub proof fn law_sweep(c: ClockView)
    requires
        c.wf(),
    ensures
        ({
            let (v, after) = c.sweep((2 * c.used.len()) as nat);
            &&& v is Some <==> c.has_victim()
            &&& after.wf()
            &&& after.used.len() == c.used.len()
            &&& v matches Some(i) ==> 0 <= i < c.evictable.len() && c.evictable[i]
                && after.evictable == c.evictable.update(i, false)
            &&& v is None ==> after.evictable == c.evictable
        }),
{
    lemma_sweep_shape(c, (2 * c.used.len()) as nat);
    if c.has_victim() {
        let i = choose|i: int| 0 <= i < c.evictable.len() && #[trigger] c.evictable[i];
        lemma_sweep_finds(c, i, (2 * c.used.len()) as nat);
    }
}

proof fn lemma_sweep_shape(c: ClockView, steps: nat)
    requires
        c.wf(),
        c.used.len() > 0 || steps == 0,
    ensures
        ({
            let (v, after) = c.sweep(steps);
            &&& after.wf()
            &&& after.used.len() == c.used.len()
            &&& v matches Some(i) ==> 0 <= i < c.evictable.len() && c.evictable[i]
                && after.evictable == c.evictable.update(i, false)
            &&& v is None ==> after.evictable == c.evictable
        }),
    decreases steps,
{
    if steps > 0 && !(c.evictable[c.hand] && !c.used[c.hand]) {
        lemma_sweep_shape(c.passed(), (steps - 1) as nat);
    }
}

proof fn lemma_sweep_finds(c: ClockView, i: int, steps: nat)
    requires
        c.wf(),
        0 <= i < c.evictable.len(),
        c.evictable[i],
        steps >= 1 + c.steps_to(i) + (if c.used[i] {
            c.used.len() as int
        } else {
            0
        }),
    ensures
        c.sweep(steps).0 is Some,
    decreases steps,
{
    if !(c.evictable[c.hand] && !c.used[c.hand]) {
        lemma_sweep_finds(c.passed(), i, (steps - 1) as nat);
    }
}

impl View for ClockReplacer {
    type V = ClockView;

    closed spec fn view(&self) -> ClockView {
        ClockView { hand: self.hand as int, used: self.ref_bits@, evictable: self.evictable@ }
    }
}

impl ClockReplacer {
    /// The hand stands on a frame, and two rounds can be counted.
    pub open spec fn wf(&self) -> bool {
        self@.wf() && self.counts()
    }

    /// Two rounds of the hand can be counted.
    pub closed spec fn counts(&self) -> bool {
        &&& self.size == self.ref_bits@.len()
        &&& 2 * self.size <= usize::MAX
    }

    /// A clock of `size` frames, none of them evictable.
    pub fn new(size: usize) -> (c: Self)
        requires
            2 * size <= usize::MAX,
        ensures
            c.wf(),
            c@.hand == 0,
            c@.used == Seq::new(size as nat, |i: int| false),
            c@.evictable == Seq::new(size as nat, |i: int| false),
    {
        let c = ClockReplacer {
            size,
            hand: 0,
            ref_bits: vec![false; size],
            evictable: vec![false; size],
        };
        assert(c@.used =~= Seq::new(size as nat, |i: int| false));
        assert(c@.evictable =~= Seq::new(size as nat, |i: int| false));
        c
    }

    /// Chooses a frame to evict. Fails where none may be.
    pub fn victim(&mut self) -> (r: Result<usize, BufferPoolError>)
        requires
            old(self).wf(),
        ensures
            final(self).wf(),
            ({
                let (v, after) = old(self)@.sweep((2 * old(self)@.used.len()) as nat);
                &&& final(self)@ == after
                &&& match v {
                    Some(i) => r matches Ok(f) && f == i,
                    None => r == Err::<usize, BufferPoolError>(BufferPoolError::NoEvictableFrames),
                }
            }),
            r is Ok <==> old(self)@.has_victim(),
            r matches Ok(f) ==> f < old(self)@.evictable.len() && old(self)@.evictable[f as int]
                && final(self)@.evictable == old(self)@.evictable.update(f as int, false),
            r is Err ==> final(self)@.evictable == old(self)@.evictable,
            final(self)@.used.len() == old(self)@.used.len(),
    {
        let ghost start = self@;
        proof {
            law_sweep(start);
        }
        let size: usize = self.size;
        let mut searched: usize = 0;
        while searched < 2 * size
            invariant
                self.wf(),
                start == old(self)@,
                start.wf(),
                size == self.size,
                size == start.used.len(),
                searched <= 2 * size,
                2 * size <= usize::MAX,
                self@.sweep((2 * size - searched) as nat) == start.sweep((2 * size) as nat),
            decreases 2 * size - searched,
        {
            let hand: usize = self.hand;
            let next: usize = (hand + 1) % size;
            assert(next == self@.after()) by (nonlinear_arith)
                requires
                    hand < size,
                    next == (hand + 1) % (size as int),
                    self@.after() == (if hand + 1 == size {
                        0int
                    } else {
                        hand + 1
                    }),
            ;
            let ghost here = self@;
            if self.evictable[hand] {
                if self.ref_bits[hand] {
                    self.ref_bits.set(hand, false);
                } else {
                    self.evictable.set(hand, false);
                    self.ref_bits.set(hand, false);
                    self.hand = next;
                    assert(self@.used =~= here.used);
                    assert(self@ =~= here.sweep((2 * size - searched) as nat).1);
                    proof {
                        law_sweep(start);
                    }
                    return Ok(hand);
                }
            }
            self.hand = next;
            assert(self@ =~= here.passed());
            searched = searched + 1;
        }
        Err(BufferPoolError::NoEvictableFrames)
    }

    /// The frame was released and may be evicted.
    pub fn unpin(&mut self, local_id: usize)
        requires
            old(self).wf(),
            local_id < old(self)@.used.len(),
        ensures
            final(self).wf(),
            final(self)@ == old(self)@.unpinned(local_id as int),
    {
        self.evictable.set(local_id, true);
        self.ref_bits.set(local_id, true);
    }

    /// The frame was taken and may not be evicted.
    pub fn pin(&mut self, local_id: usize)
        requires
            old(self).wf(),
            local_id < old(self)@.used.len(),
        ensures
            final(self).wf(),
            final(self)@ == old(self)@.pinned(local_id as int),
    {
        self.evictable.set(local_id, false);
        self.ref_bits.set(local_id, false);
    }
}

} // verus!
