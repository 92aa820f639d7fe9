//! Facts about search within a layer.

use crate::model::{best_of, has_level, links_wf, scan, search_start, Layer, SearchState};
use crate::priority_queue::offered;
use crate::ranking::{first_index, lemma_first_index, outranked_by, Prioritized};
use crate::scorer::PointCheck;
use crate::types::{PointOffsetType, ScoreType, ScoredPointOffset};
use vstd::prelude::*;

verus! {

/// How many of the first `n` points were not visited.
pub open spec fn unvisited(n: nat, visited: Set<PointOffsetType>) -> nat
    decreases n,
{
    if n == 0 {
        0
    } else {
        let p = n - 1;
        let rest = unvisited(p as nat, visited);
        if p <= PointOffsetType::MAX && !visited.contains(p as PointOffsetType) {
            rest + 1
        } else {
            rest
        }
    }
}

/// There are no more unvisited points than points.
pub proof fn lemma_unvisited_bound(n: nat, visited: Set<PointOffsetType>)
    ensures
        unvisited(n, visited) <= n,
    decreases n,
{
    if n > 0 {
        lemma_unvisited_bound((n - 1) as nat, visited);
    }
}

/// A visit to a point takes it, and no other, from the unvisited ones.
pub proof fn lemma_unvisited_insert(n: nat, visited: Set<PointOffsetType>, point: PointOffsetType)
    requires
        !visited.contains(point),
    ensures
        unvisited(n, visited) == unvisited(n, visited.insert(point)) + if point < n {
            1nat
        } else {
            0
        },
    decreases n,
{
    if n > 0 {
        lemma_unvisited_insert((n - 1) as nat, visited, point);
    }
}

/// Once enough points were found, the rest of a list makes no difference.
pub proof fn lemma_scan_stops(
    head: Seq<PointOffsetType>,
    tail: Seq<PointOffsetType>,
    limit: nat,
    admits: PointCheck,
    visited: Set<PointOffsetType>,
)
    requires
        scan(head, limit, admits, visited).0.len() >= limit,
    ensures
        scan(head + tail, limit, admits, visited) == scan(head, limit, admits, visited),
    decreases tail.len(),
{
    if tail.len() == 0 {
        assert(head + tail =~= head);
    } else {
        lemma_scan_stops(head, tail.drop_last(), limit, admits, visited);
        assert((head + tail).drop_last() =~= head + tail.drop_last());
    }
}

/// Offers do not depend on what was visited, nor change it.
pub proof fn lemma_offer_all_visited(
    state: SearchState,
    ef: nat,
    points: Seq<ScoredPointOffset>,
    visited: Set<PointOffsetType>,
)
    ensures
        state.offer_all(ef, points).visited == state.visited,
        (SearchState { visited, ..state }).offer_all(ef, points) == (SearchState {
            visited,
            ..state.offer_all(ef, points)
        }),
    decreases points.len(),
{
    if points.len() > 0 {
        lemma_offer_all_visited(state, ef, points.drop_last(), visited);
    }
}

/// What a queue holds after a push was in it before, or is what was pushed.
pub proof fn lemma_offered_contains<T: Prioritized>(s: Seq<T>, length: nat, x: T, i: int)
    requires
        0 <= i < offered(s, length, x).len(),
    ensures
        offered(s, length, x)[i] == x || s.contains(offered(s, length, x)[i]),
{
    let t = if s.len() < length {
        s
    } else {
        s.drop_last()
    };
    let at = first_index(t, outranked_by(x));
    lemma_first_index(t, outranked_by(x));
    let r = offered(s, length, x);
    if r != s {
        assert(r == t.insert(at, x));
        if i < at {
            assert(r[i] == s[i]);
        } else if i > at {
            assert(r[i] == s[i - 1]);
        }
    } else {
        assert(r[i] == s[i]);
    }
}

impl Layer {
    /// Whether a point is on this level.
    pub open spec fn has_point(self, point: PointOffsetType) -> bool {
        has_level(self.links, point as int, self.level)
    }

    /// Whether a search only knows points that are on this level.
    pub open spec fn holds(self, state: SearchState) -> bool {
        &&& forall|i: int|
            0 <= i < state.nearest.len() ==> self.has_point((#[trigger] state.nearest[i]).idx)
        &&& forall|i: int|
            0 <= i < state.candidates.len() ==> self.has_point(#[trigger] state.candidates[i])
    }

    /// An offered point on this level keeps the search on this level.
    pub proof fn lemma_offer_holds(self, state: SearchState, ef: nat, point: ScoredPointOffset)
        requires
            self.holds(state),
            self.has_point(point.idx),
        ensures
            self.holds(state.offer(ef, point)),
    {
        let after = state.offer(ef, point);
        assert forall|i: int| 0 <= i < after.nearest.len() implies self.has_point(
            (#[trigger] after.nearest[i]).idx,
        ) by {
            lemma_offered_contains(state.nearest, ef, point, i);
        }
    }

    /// Offered points on this level keep the search on this level.
    pub proof fn lemma_offer_all_holds(
        self,
        state: SearchState,
        ef: nat,
        points: Seq<ScoredPointOffset>,
    )
        requires
            self.holds(state),
            forall|i: int| 0 <= i < points.len() ==> self.has_point((#[trigger] points[i]).idx),
        ensures
            self.holds(state.offer_all(ef, points)),
        decreases points.len(),
    {
        if points.len() > 0 {
            let head = points.drop_last();
            assert forall|i: int| 0 <= i < head.len() implies self.has_point(
                (#[trigger] head[i]).idx,
            ) by {
                assert(head[i] == points[i]);
            }
            self.lemma_offer_all_holds(state, ef, head);
            assert(self.has_point(points[points.len() - 1].idx));
            self.lemma_offer_holds(state.offer_all(ef, head), ef, points.last());
        }
    }

    /// All links of a point on this level are on this level.
    pub proof fn lemma_neighbours_on_level(self, point: PointOffsetType)
        requires
            links_wf(self.links),
            self.has_point(point),
        ensures
            forall|i: int|
                0 <= i < self.neighbours(point).len() ==> self.has_point(
                    #[trigger] self.neighbours(point)[i],
                ),
    {
        assert forall|i: int| 0 <= i < self.neighbours(point).len() implies self.has_point(
            #[trigger] self.neighbours(point)[i],
        ) by {
            let to = self.links[point as int][self.level][i];
            assert(has_level(self.links, to as int, self.level));
        }
    }

    /// What a scan finds is in the list.
    pub proof fn lemma_scan_on_level(
        self,
        list: Seq<PointOffsetType>,
        visited: Set<PointOffsetType>,
    )
        requires
            forall|i: int| 0 <= i < list.len() ==> self.has_point(#[trigger] list[i]),
        ensures
            ({
                let found = scan(list, self.m, self.scoring.admits, visited).0;
                forall|i: int| 0 <= i < found.len() ==> self.has_point(#[trigger] found[i])
            }),
        decreases list.len(),
    {
        if list.len() > 0 {
            let head = list.drop_last();
            assert forall|i: int| 0 <= i < head.len() implies self.has_point(
                #[trigger] head[i],
            ) by {
                assert(head[i] == list[i]);
            }
            self.lemma_scan_on_level(head, visited);
            assert(self.has_point(list[list.len() - 1]));
            let before = scan(head, self.m, self.scoring.admits, visited).0;
            let found = scan(list, self.m, self.scoring.admits, visited).0;
            assert forall|i: int| 0 <= i < found.len() implies self.has_point(
                #[trigger] found[i],
            ) by {
                if i < before.len() {
                    assert(found[i] == before[i]);
                }
            }
        }
    }

    /// An expansion keeps the search on this level.
    pub proof fn lemma_expand_holds(self, ef: nat, state: SearchState)
        requires
            links_wf(self.links),
            self.holds(state),
            state.candidates.len() > 0,
        ensures
            self.holds(self.expand(ef, state)),
    {
        let point = state.candidates.last();
        assert(self.has_point(state.candidates[state.candidates.len() - 1]));
        self.lemma_neighbours_on_level(point);
        let list = self.neighbours(point);
        self.lemma_scan_on_level(list, state.visited);
        let (found, seen) = scan(list, self.m, self.scoring.admits, state.visited);
        let rest = SearchState {
            nearest: state.nearest,
            candidates: state.candidates.drop_last(),
            visited: seen,
        };
        assert forall|i: int| 0 <= i < rest.candidates.len() implies self.has_point(
            #[trigger] rest.candidates[i],
        ) by {
            assert(rest.candidates[i] == state.candidates[i]);
        }
        let points = self.scoring.scored(found);
        assert forall|i: int| 0 <= i < points.len() implies self.has_point(
            (#[trigger] points[i]).idx,
        ) by {
            assert(points[i].idx == found[i]);
        }
        self.lemma_offer_all_holds(rest, ef, points);
    }

    /// A search stays on this level.
    pub proof fn lemma_expand_times_holds(self, ef: nat, state: SearchState, times: nat)
        requires
            links_wf(self.links),
            self.holds(state),
        ensures
            self.holds(self.expand_times(ef, state, times)),
        decreases times,
    {
        if times > 0 && state.candidates.len() > 0 {
            self.lemma_expand_holds(ef, state);
            self.lemma_expand_times_holds(ef, self.expand(ef, state), (times - 1) as nat);
        }
    }

    /// What a search finds is on this level.
    pub proof fn lemma_search_on_level(self, ef: nat, entry: ScoredPointOffset)
        requires
            links_wf(self.links),
            self.has_point(entry.idx),
        ensures
            forall|i: int|
                0 <= i < self.search(ef, entry).len() ==> self.has_point(
                    (#[trigger] self.search(ef, entry)[i]).idx,
                ),
    {
        let start = search_start(entry, ef);
        assert forall|i: int| 0 <= i < start.nearest.len() implies self.has_point(
            (#[trigger] start.nearest[i]).idx,
        ) by {
            lemma_offered_contains(Seq::empty(), ef, entry, i);
        }
        self.lemma_expand_times_holds(ef, start, start.candidates.len() + self.links.len());
    }

    /// The points to which a greedy search can go on are on this level.
    pub proof fn lemma_next_points_on_level(self, point: PointOffsetType)
        requires
            links_wf(self.links),
            self.has_point(point),
        ensures
            forall|i: int|
                0 <= i < self.next_points(point).len() ==> self.has_point(
                    (#[trigger] self.next_points(point)[i]).idx,
                ),
    {
        let list = self.neighbours(point);
        self.lemma_neighbours_on_level(point);
        let all = list.filter(self.scoring.admits);
        assert forall|i: int| 0 <= i < self.next_points(point).len() implies self.has_point(
            (#[trigger] self.next_points(point)[i]).idx,
        ) by {
            let q = self.next_points(point)[i].idx;
            assert(q == all[i]);
            list.lemma_filter_contains_rev(self.scoring.admits, q);
            let j = choose|j: int| 0 <= j < list.len() && list[j] == q;
            assert(self.has_point(list[j]));
        }
    }

    /// A greedy search stays on this level, and does not get worse.
    pub proof fn lemma_climb_on_level(self, current: ScoredPointOffset)
        requires
            links_wf(self.links),
            self.has_point(current.idx),
        ensures
            self.has_point(self.climb(current).idx),
            self.climb(current).score >= current.score,
        decreases ScoreType::MAX - current.score,
    {
        let points = self.next_points(current.idx);
        let next = best_of(current, points);
        if next.score > current.score {
            lemma_best_of(current, points);
            self.lemma_next_points_on_level(current.idx);
            self.lemma_climb_on_level(next);
        }
    }
}

/// The best point is one of those compared, and none of them is better.
pub proof fn lemma_best_of(current: ScoredPointOffset, points: Seq<ScoredPointOffset>)
    ensures
        best_of(current, points) == current || points.contains(best_of(current, points)),
        best_of(current, points).score >= current.score,
        forall|i: int|
            0 <= i < points.len() ==> best_of(current, points).score >= (
            #[trigger] points[i]).score,
    decreases points.len(),
{
    if points.len() > 0 {
        let head = points.drop_last();
        lemma_best_of(current, head);
        let best = best_of(current, head);
        assert forall|i: int| 0 <= i < points.len() implies best_of(current, points).score >= (
        #[trigger] points[i]).score by {
            if i < head.len() {
                assert(head[i] == points[i]);
            }
        }
        if best_of(current, points) == best && best != current {
            let i = choose|i: int| 0 <= i < head.len() && head[i] == best;
            assert(points[i] == best);
        } else if best_of(current, points) != best {
            assert(points[points.len() - 1] == points.last());
        }
    }
}

} // verus!
