//! State of a search within one layer.

use crate::priority_queue::{displaced, offered, FixedLengthPriorityQueue};
use crate::types::{PointOffsetType, ScoredPointOffset};
use vstd::prelude::*;

verus! {

/// Whether a point is taken in when it is offered to the `ef` nearest so far: the
/// queue has room, or lets another point go for it.
pub open spec fn taken_in(
    nearest: Seq<ScoredPointOffset>,
    ef: nat,
    point: ScoredPointOffset,
) -> bool {
    match displaced(nearest, ef, point) {
        None => true,
        Some(removed) => removed.idx != point.idx,
    }
}

/// Nearest points found so far, and points whose links are still to be followed.
pub struct SearchContext {
    pub nearest: FixedLengthPriorityQueue<ScoredPointOffset>,
    pub candidates: Vec<PointOffsetType>,
}

impl SearchContext {
    /// Context of a search for the `ef` nearest points that starts at a point.
    pub fn new(entry_point: ScoredPointOffset, ef: usize) -> (context: Self)
        ensures
            context.nearest@ == offered(Seq::<ScoredPointOffset>::empty(), ef as nat, entry_point),
            context.nearest.length() == ef,
            context.candidates@ == seq![entry_point.idx],
    {
        let mut nearest: FixedLengthPriorityQueue<ScoredPointOffset> =
            FixedLengthPriorityQueue::new(ef);
        let _ = nearest.push(entry_point);
        let mut candidates: Vec<PointOffsetType> = Vec::new();
        candidates.push(entry_point.idx);
        assert(candidates@ =~= seq![entry_point.idx]);
        SearchContext { nearest, candidates }
    }

    /// Offers a point to the nearest ones. If it is taken in, its links are to be
    /// followed too.
    pub fn process_candidate(&mut self, score_point: ScoredPointOffset)
        ensures
            final(self).nearest@ == offered(
                old(self).nearest@,
                old(self).nearest.length(),
                score_point,
            ),
            final(self).nearest.length() == old(self).nearest.length(),
            final(self).candidates@ == if taken_in(
                old(self).nearest@,
                old(self).nearest.length(),
                score_point,
            ) {
                old(self).candidates@.push(score_point.idx)
            } else {
                old(self).candidates@
            },
    {
        let was_added: bool = match self.nearest.push(score_point) {
            None => true,
            Some(removed) => removed.idx != score_point.idx,
        };
        if was_added {
            self.candidates.push(score_point.idx);
        }
    }
}

} // verus!
