//! Producing endpoint state: [`Producer`] holds the producer role and
//! the private state a claim or takeover loads from the control block.

use vstd::prelude::*;

verus! {

use super::{Checkpoint, Segments};
use crate::spsc::v3::MAX_SEGMENTS;

/// The producing endpoint: the role's holder and its private state.
pub struct Producer {
    /// Geometry and segment offsets.
    pub segs: Segments,
    /// The id this producer's claim wrote into the role word.
    pub holder: u32,
    /// The segment being written.
    pub cur: u32,
    /// Free-running position in `cur`.
    pub pos: u32,
    /// One bit per segment, flipped on each take: free where it agrees
    /// with the consumer's give-back word.
    pub taken: u32,
    /// Where each segment was left, the position a reuse starts at.
    pub resume: Vec<u32>,
    /// The slot at `pos` was seen claimable and so still is.
    pub claimable: bool,
}

impl Producer {
    /// Start in segment 0 at position 0, held as taken, for holder
    /// `holder`: a role never claimed.
    pub fn new(segs: Segments, holder: u32) -> (p: Producer)
        ensures
            p.segs == segs,
            p.holder == holder,
            p.cur == 0,
            p.pos == 0,
            p.taken == 1,
            p.resume@ == Seq::new(MAX_SEGMENTS as nat, |i: int| 0u32),
            !p.claimable,
    {
        let mut resume: Vec<u32> = Vec::new();
        let mut i: u32 = 0;
        while i < MAX_SEGMENTS
            invariant
                i <= MAX_SEGMENTS,
                resume@ =~= Seq::new(i as nat, |j: int| 0u32),
            decreases MAX_SEGMENTS - i,
        {
            resume.push(0);
            i = i + 1;
        }
        Producer { segs, holder, cur: 0, pos: 0, taken: 1, resume, claimable: false }
    }

    /// Continue from a checkpoint loaded out of the region, for holder
    /// `holder`.
    pub fn resume(segs: Segments, holder: u32, cp: Checkpoint) -> (p: Producer)
        ensures
            p.segs == segs,
            p.holder == holder,
            p.cur == cp.cur,
            p.pos == cp.pos,
            p.taken == cp.free_set,
            p.resume@ == cp.resume@,
            !p.claimable,
    {
        Producer { segs, holder, cur: cp.cur, pos: cp.pos, taken: cp.free_set, resume: cp.resume, claimable: false }
    }
}

} // verus!
