//! Physical page allocator: one ownership state per physical frame, seeded
//! once at boot from the physical memory map. Every allocated frame has
//! exactly one owning process; freeing a frame the caller does not own is a
//! kernel invariant violation and therefore a precondition here, not an error
//! code.

use vstd::prelude::*;

use crate::types::Error;
use crate::types::FrameState;

verus! {

/// Number of frames in `s` that are free.
pub open spec fn count_free(s: Seq<FrameState>) -> nat
    decreases s.len(),
{
    if s.len() == 0 {
        0
    } else {
        count_free(s.drop_last()) + if s.last() is Free {
            1nat
        } else {
            0nat
        }
    }
}

/// Number of frames in `s` that are kernel-reserved.
pub open spec fn count_reserved(s: Seq<FrameState>) -> nat
    decreases s.len(),
{
    if s.len() == 0 {
        0
    } else {
        count_reserved(s.drop_last()) + if s.last() is Reserved {
            1nat
        } else {
            0nat
        }
    }
}

/// Number of frames in `s` owned by some process.
pub open spec fn count_owned(s: Seq<FrameState>) -> nat
    decreases s.len(),
{
    if s.len() == 0 {
        0
    } else {
        count_owned(s.drop_last()) + if s.last() is Owned {
            1nat
        } else {
            0nat
        }
    }
}

/// Number of frames in `s` owned by the process `pid`.
pub open spec fn count_owned_by(s: Seq<FrameState>, pid: usize) -> nat
    decreases s.len(),
{
    if s.len() == 0 {
        0
    } else {
        count_owned_by(s.drop_last(), pid) + if s.last() == FrameState::Owned(pid) {
            1nat
        } else {
            0nat
        }
    }
}

/// Ownership conservation: every frame is free, reserved, or owned by exactly
/// one process, so the three counts always partition the total. No operation
/// of the crate changes the total, since each one keeps the frame table's
/// length; together the two facts say that frames are conserved.
pub proof fn lemma_frame_conservation(s: Seq<FrameState>)
    ensures
        count_free(s) + count_reserved(s) + count_owned(s) == s.len(),
    decreases s.len(),
{
    if s.len() > 0 {
        lemma_frame_conservation(s.drop_last());
    }
}

/// Frames owned by one process never outnumber the frames owned by anyone.
pub proof fn lemma_owned_by_le_owned(s: Seq<FrameState>, pid: usize)
    ensures
        count_owned_by(s, pid) <= count_owned(s),
    decreases s.len(),
{
    if s.len() > 0 {
        lemma_owned_by_le_owned(s.drop_last(), pid);
    }
}

/// Tracks the ownership state of every physical page frame.
pub struct FrameAllocator {
    /// State of frame `f`, indexed by frame number.
    pub states: Vec<FrameState>,
}

impl FrameAllocator {
    /// Seed the allocator at boot: `n_frames` frames, all free until
    /// [`Self::mark_reserved`] carves out the kernel-only ranges.
    pub fn new(n_frames: usize) -> (r: Self)
        ensures
            r.states@.len() == n_frames,
            forall|f: int| 0 <= f < n_frames ==> r.states@[f] is Free,
    {
        let mut states: Vec<FrameState> = Vec::new();
        let mut i: usize = 0;
        while i < n_frames
            invariant
                i <= n_frames,
                states@.len() == i,
                forall|f: int| 0 <= f < i ==> states@[f] is Free,
            decreases n_frames - i,
        {
            states.push(FrameState::Free);
            i = i + 1;
        }
        FrameAllocator { states }
    }

    /// Mark a frame kernel-reserved at boot, before any allocation.
    pub fn mark_reserved(&mut self, frame: usize)
        requires
            frame < old(self).states@.len(),
            old(self).states@[frame as int] is Free,
        ensures
            final(self).states@ == old(self).states@.update(
                frame as int,
                FrameState::Reserved,
            ),
    {
        self.states[frame] = FrameState::Reserved;
    }

    /// Allocate one free frame to `pid`. Returns `OutOfMemory`, and changes
    /// nothing, exactly when no frame is free.
    pub fn allocate(&mut self, pid: usize) -> (r: Result<usize, Error>)
        ensures
            match r {
                Ok(f) => {
                    &&& f < old(self).states@.len()
                    &&& old(self).states@[f as int] is Free
                    &&& final(self).states@ == old(self).states@.update(
                        f as int,
                        FrameState::Owned(pid),
                    )
                },
                Err(e) => {
                    &&& e == Error::OutOfMemory
                    &&& *final(self) == *old(self)
                    &&& forall|f: int|
                        0 <= f < old(self).states@.len() ==> !(old(self).states@[f] is Free)
                },
            },
    {
        let n = self.states.len();
        let mut i: usize = 0;
        while i < n
            invariant
                i <= n,
                n == self.states@.len(),
                *self == *old(self),
                forall|f: int| 0 <= f < i ==> !(self.states@[f] is Free),
            decreases n - i,
        {
            let is_free = match self.states[i] {
                FrameState::Free => true,
                _ => false,
            };
            if is_free {
                self.states[i] = FrameState::Owned(pid);
                return Ok(i);
            }
            i = i + 1;
        }
        Err(Error::OutOfMemory)
    }

    /// Release a frame its owner no longer needs. Freeing a frame not owned
    /// by the caller would corrupt the ownership model, so it is ruled out
    /// here rather than reported.
    pub fn free(&mut self, frame: usize, pid: usize)
        requires
            frame < old(self).states@.len(),
            old(self).states@[frame as int] == FrameState::Owned(pid),
        ensures
            final(self).states@ == old(self).states@.update(frame as int, FrameState::Free),
    {
        self.states[frame] = FrameState::Free;
    }

    /// Re-parent an owned frame to a new owner, for permanent page moves.
    pub fn transfer(&mut self, frame: usize, from: usize, to: usize)
        requires
            frame < old(self).states@.len(),
            old(self).states@[frame as int] == FrameState::Owned(from),
        ensures
            final(self).states@ == old(self).states@.update(
                frame as int,
                FrameState::Owned(to),
            ),
    {
        self.states[frame] = FrameState::Owned(to);
    }

    /// Number of frames the allocator tracks.
    pub fn total_frames(&self) -> (n: usize)
        ensures
            n == self.states@.len(),
    {
        self.states.len()
    }
}

} // verus!
