//! What can be relied on of a search within a layer.

use crate::model::{best_of, links_wf, scan, search_start, Graph, Layer, SearchState};
use crate::priority_queue::{lemma_offered_keeps_order, offered};
use crate::ranking::{first_index, is_ranked, lemma_first_index, outranked_by, Prioritized};
use crate::scorer::{PointCheck, Scoring};
use crate::search_lemmas::{
    lemma_best_of, lemma_offered_contains, lemma_unvisited_bound, lemma_unvisited_insert,
    unvisited,
};
use crate::types::{PointOffsetType, ScoreType, ScoredPointOffset};
use vstd::prelude::*;

verus! {

/// Whether no two of the scored points are the same point.
pub open spec fn distinct_points(points: Seq<ScoredPointOffset>) -> bool {
    forall|i: int, j: int|
        0 <= i < j < points.len() ==> (#[trigger] points[i]).idx != (#[trigger] points[j]).idx
}

/// Whether the point is among the scored points.
pub open spec fn lists_point(points: Seq<ScoredPointOffset>, point: PointOffsetType) -> bool {
    exists|i: int| 0 <= i < points.len() && (#[trigger] points[i]).idx == point
}

impl Layer {
    /// Whether each point of the path links to the next.
    pub open spec fn is_path(self, path: Seq<PointOffsetType>) -> bool {
        &&& path.len() > 0
        &&& forall|i: int|
            1 <= i < path.len() ==> self.neighbours(path[i - 1]).contains(#[trigger] path[i])
    }

    /// Whether a path leads from one point to the other.
    pub open spec fn reachable(self, from: PointOffsetType, to: PointOffsetType) -> bool {
        exists|path: Seq<PointOffsetType>|
            #[trigger] self.is_path(path) && path[0] == from && path.last() == to
    }

    /// The points to which a path leads.
    pub open spec fn reachable_from(self, from: PointOffsetType) -> Set<PointOffsetType> {
        Set::new(|to: PointOffsetType| self.reachable(from, to))
    }

    /// Whether each point of the path links to the next, and the filter admits all of
    /// them but the first, which it need not.
    pub open spec fn is_admitted_path(self, path: Seq<PointOffsetType>) -> bool {
        &&& self.is_path(path)
        &&& forall|i: int| 1 <= i < path.len() ==> (self.scoring.admits)(#[trigger] path[i])
    }

    /// Whether such a path leads from one point to the other.
    pub open spec fn reachable_over_admitted(
        self,
        from: PointOffsetType,
        to: PointOffsetType,
    ) -> bool {
        exists|path: Seq<PointOffsetType>|
            #[trigger] self.is_admitted_path(path) && path[0] == from && path.last() == to
    }

    proof fn lemma_reachable_start(self, from: PointOffsetType)
        ensures
            self.reachable(from, from),
            self.reachable_over_admitted(from, from),
    {
        assert(self.is_path(seq![from]));
        assert(self.is_admitted_path(seq![from]));
    }

    proof fn lemma_admitted_step(
        self,
        from: PointOffsetType,
        over: PointOffsetType,
        to: PointOffsetType,
    )
        requires
            self.reachable_over_admitted(from, over),
            self.neighbours(over).contains(to),
            (self.scoring.admits)(to),
        ensures
            self.reachable_over_admitted(from, to),
    {
        let path = choose|path: Seq<PointOffsetType>|
            #[trigger] self.is_admitted_path(path) && path[0] == from && path.last() == over;
        let longer = path.push(to);
        assert forall|i: int| 1 <= i < longer.len() implies self.neighbours(
            longer[i - 1],
        ).contains(#[trigger] longer[i]) && (self.scoring.admits)(longer[i]) by {
            if i < path.len() {
                assert(longer[i] == path[i]);
            }
        }
        assert(self.is_admitted_path(longer));
    }

    proof fn lemma_reachable_step(
        self,
        from: PointOffsetType,
        over: PointOffsetType,
        to: PointOffsetType,
    )
        requires
            self.reachable(from, over),
            self.neighbours(over).contains(to),
        ensures
            self.reachable(from, to),
    {
        let path = choose|path: Seq<PointOffsetType>|
            #[trigger] self.is_path(path) && path[0] == from && path.last() == over;
        let longer = path.push(to);
        assert forall|i: int| 1 <= i < longer.len() implies self.neighbours(
            longer[i - 1],
        ).contains(#[trigger] longer[i]) by {
            if i < path.len() {
                assert(longer[i] == path[i]);
            }
        }
        assert(self.is_path(longer));
    }

    /// A path that begins on a level stays on it.
    pub proof fn lemma_path_on_level(self, path: Seq<PointOffsetType>, at: int)
        requires
            links_wf(self.links),
            self.is_path(path),
            self.has_point(path[0]),
            0 <= at < path.len(),
        ensures
            self.has_point(path[at]),
        decreases at,
    {
        if at > 0 {
            self.lemma_path_on_level(path, at - 1);
            let before = path[at - 1];
            self.lemma_neighbours_on_level(before);
            assert(self.neighbours(before).contains(path[at]));
            let i = choose|i: int|
                0 <= i < self.neighbours(before).len() && self.neighbours(before)[i] == path[at];
            assert(self.has_point(self.neighbours(before)[i]));
        }
    }

    /// A set that contains the start of a path, and with each of its points all
    /// neighbours, contains the whole path.
    proof fn lemma_closed_contains_path(
        self,
        closed: Set<PointOffsetType>,
        path: Seq<PointOffsetType>,
        at: int,
    )
        requires
            self.is_path(path),
            closed.contains(path[0]),
            forall|p: PointOffsetType, q: PointOffsetType|
                closed.contains(p) && #[trigger] self.neighbours(p).contains(q)
                    ==> closed.contains(q),
            0 <= at < path.len(),
        ensures
            closed.contains(path[at]),
        decreases at,
    {
        if at > 0 {
            self.lemma_closed_contains_path(closed, path, at - 1);
            assert(self.neighbours(path[at - 1]).contains(path[at]));
        }
    }
}

// The links that a search follows

/// Whether the filter admits the point that stands at `at` in the list, and fewer than
/// `limit` of those before it.
pub open spec fn is_followed(
    list: Seq<PointOffsetType>,
    limit: nat,
    admits: PointCheck,
    at: int,
) -> bool {
    &&& 0 <= at < list.len()
    &&& admits(list[at])
    &&& list.take(at).filter(admits).len() < limit
}

impl Layer {
    /// Whether a search that expands one point comes across the other.
    pub open spec fn follows(self, from: PointOffsetType, to: PointOffsetType) -> bool {
        exists|at: int| #[trigger]
            is_followed(self.neighbours(from), self.m, self.scoring.admits, at)
                && self.neighbours(from)[at] == to
    }
}

/// All links of a short list are followed, if they are admitted.
pub proof fn lemma_short_list_is_followed(
    list: Seq<PointOffsetType>,
    limit: nat,
    admits: PointCheck,
    at: int,
)
    requires
        list.len() <= limit,
        0 <= at < list.len(),
        admits(list[at]),
    ensures
        is_followed(list, limit, admits, at),
{
    list.take(at).lemma_filter_len(admits);
}

proof fn lemma_scan_follows(
    list: Seq<PointOffsetType>,
    limit: nat,
    admits: PointCheck,
    visited: Set<PointOffsetType>,
)
    ensures
        ({
            let found = scan(list, limit, admits, visited).0;
            let seen = scan(list, limit, admits, visited).1;
            &&& found.len() <= list.filter(admits).len()
            &&& forall|p: PointOffsetType| #[trigger]
                seen.contains(p) && !visited.contains(p) && admits(p) ==> found.contains(p)
            &&& forall|at: int| #[trigger]
                is_followed(list, limit, admits, at) ==> seen.contains(list[at])
        }),
    decreases list.len(),
{
    reveal(Seq::filter);
    if list.len() > 0 {
        let head = list.drop_last();
        lemma_scan_follows(head, limit, admits, visited);
        let before = scan(head, limit, admits, visited).0;
        let seen_before = scan(head, limit, admits, visited).1;
        let found = scan(list, limit, admits, visited).0;
        let seen = scan(list, limit, admits, visited).1;
        assert forall|p: PointOffsetType| #[trigger]
            seen.contains(p) && !visited.contains(p) && admits(p) implies found.contains(p) by {
            if seen_before.contains(p) {
                let i = choose|i: int| 0 <= i < before.len() && before[i] == p;
                assert(found[i] == p);
            } else {
                assert(found[found.len() - 1] == p);
            }
        }
        assert forall|at: int| #[trigger]
            is_followed(list, limit, admits, at) implies seen.contains(list[at]) by {
            if at < head.len() {
                assert(head.take(at) =~= list.take(at));
                assert(is_followed(head, limit, admits, at));
            } else {
                assert(head =~= list.take(at));
            }
        }
    }
}

// Scanning a list of links

proof fn lemma_scan(
    list: Seq<PointOffsetType>,
    limit: nat,
    admits: PointCheck,
    visited: Set<PointOffsetType>,
    n: nat,
)
    requires
        forall|i: int| 0 <= i < list.len() ==> #[trigger] list[i] < n,
    ensures
        ({
            let found = scan(list, limit, admits, visited).0;
            let seen = scan(list, limit, admits, visited).1;
            &&& forall|p: PointOffsetType| #[trigger] visited.contains(p) ==> seen.contains(p)
            &&& forall|p: PointOffsetType| #[trigger]
                seen.contains(p) ==> visited.contains(p) || list.contains(p)
            &&& forall|i: int|
                0 <= i < found.len() ==> seen.contains(#[trigger] found[i]) && !visited.contains(
                    found[i],
                ) && list.contains(found[i]) && admits(found[i])
            &&& found.no_duplicates()
            &&& found.len() <= list.len()
            &&& found.len() <= limit
            &&& list.len() <= limit ==> forall|i: int|
                0 <= i < list.len() ==> seen.contains(#[trigger] list[i])
            &&& found.len() + unvisited(n, seen) <= unvisited(n, visited)
            &&& (forall|i: int|
                0 <= i < list.len() ==> admits(#[trigger] list[i]) || visited.contains(list[i]))
                ==> forall|p: PointOffsetType| #[trigger]
                seen.contains(p) && !visited.contains(p) ==> found.contains(p)
        }),
    decreases list.len(),
{
    if list.len() > 0 {
        let head = list.drop_last();
        let point = list.last();
        assert forall|i: int| 0 <= i < head.len() implies #[trigger] head[i] < n by {
            assert(head[i] == list[i]);
        }
        lemma_scan(head, limit, admits, visited, n);
        let before = scan(head, limit, admits, visited).0;
        let seen_before = scan(head, limit, admits, visited).1;
        let found = scan(list, limit, admits, visited).0;
        let seen = scan(list, limit, admits, visited).1;
        assert(list[list.len() - 1] == point);
        assert(list.contains(point));
        assert(forall|p: PointOffsetType| head.contains(p) ==> list.contains(p)) by {
            assert forall|p: PointOffsetType| head.contains(p) implies list.contains(p) by {
                let i = choose|i: int| 0 <= i < head.len() && head[i] == p;
                assert(list[i] == p);
            }
        }
        assert forall|i: int| 0 <= i < found.len() implies seen.contains(#[trigger] found[i])
            && !visited.contains(found[i]) && list.contains(found[i]) && admits(found[i]) by {
            if i < before.len() {
                assert(found[i] == before[i]);
            }
        }
        if !seen_before.contains(point) {
            lemma_unvisited_insert(n, seen_before, point);
        }
        assert(found.no_duplicates()) by {
            assert forall|i: int, j: int| 0 <= i < found.len() && 0 <= j < found.len() && i != j
                implies found[i] != found[j] by {
                if i < before.len() {
                    assert(seen_before.contains(before[i]));
                }
                if j < before.len() {
                    assert(seen_before.contains(before[j]));
                }
            }
        }
        if list.len() <= limit {
            assert forall|i: int| 0 <= i < list.len() implies seen.contains(#[trigger] list[i]) by {
                if i < head.len() {
                    assert(seen_before.contains(head[i]));
                }
            }
        }
        if forall|i: int|
            0 <= i < list.len() ==> admits(#[trigger] list[i]) || visited.contains(list[i]) {
            assert forall|i: int| 0 <= i < head.len() implies admits(#[trigger] head[i])
                || visited.contains(head[i]) by {
                assert(head[i] == list[i]);
            }
            assert(admits(point) || visited.contains(point));
            assert forall|p: PointOffsetType| #[trigger]
                seen.contains(p) && !visited.contains(p) implies found.contains(p) by {
                if seen_before.contains(p) {
                    let i = choose|i: int| 0 <= i < before.len() && before[i] == p;
                    assert(found[i] == p);
                } else {
                    assert(found[found.len() - 1] == p);
                }
            }
        }
    }
}

// Offering points

proof fn lemma_offered_distinct(s: Seq<ScoredPointOffset>, ef: nat, x: ScoredPointOffset)
    requires
        distinct_points(s),
        !lists_point(s, x.idx),
    ensures
        distinct_points(offered(s, ef, x)),
{
    let t = if s.len() < ef {
        s
    } else {
        s.drop_last()
    };
    let at = first_index(t, outranked_by(x));
    lemma_first_index(t, outranked_by(x));
    let r = offered(s, ef, x);
    if r != s {
        assert(r == t.insert(at, x));
        assert forall|i: int, j: int| 0 <= i < j < r.len() implies (#[trigger] r[i]).idx != (
        #[trigger] r[j]).idx by {
            if i < at {
                assert(r[i] == s[i]);
            } else if i > at {
                assert(r[i] == s[i - 1]);
            }
            if j < at {
                assert(r[j] == s[j]);
            } else if j > at {
                assert(r[j] == s[j - 1]);
            }
        }
    }
}

proof fn lemma_offered_best(s: Seq<ScoredPointOffset>, ef: nat, x: ScoredPointOffset)
    requires
        ef > 0,
    ensures
        offered(s, ef, x).len() > 0,
        s.len() > 0 ==> offered(s, ef, x)[0].score >= s[0].score,
        s.len() == 0 ==> offered(s, ef, x)[0] == x,
{
    let t = if s.len() < ef {
        s
    } else {
        s.drop_last()
    };
    let p = outranked_by(x);
    let at = first_index(t, p);
    lemma_first_index(t, p);
    if offered(s, ef, x) != s {
        assert(offered(s, ef, x) == t.insert(at, x));
        if at == 0 && t.len() > 0 {
            assert(p(t[0]));
        }
    }
}

/// Score that a point carries in a search: the entry the one it came with, any other
/// its score against the query.
pub open spec fn score_in_search(
    layer: Layer,
    entry: ScoredPointOffset,
    point: PointOffsetType,
) -> int {
    if point == entry.idx {
        entry.score as int
    } else {
        (layer.scoring.query)(point) as int
    }
}

/// What a search has found so far is in order, no more than asked for, without
/// repetition, scored against the query, and among the points come across. Like the
/// candidates, it can be reached over admitted points.
spec fn found_soundly(layer: Layer, ef: nat, entry: ScoredPointOffset, state: SearchState) -> bool {
    &&& is_ranked(state.nearest)
    &&& state.nearest.len() <= ef
    &&& distinct_points(state.nearest)
    &&& ef > 0 ==> state.nearest.len() > 0 && state.nearest[0].score >= entry.score
    &&& forall|i: int|
        0 <= i < state.nearest.len() ==> {
            &&& state.visited.contains((#[trigger] state.nearest[i]).idx)
            &&& state.nearest[i].score == score_in_search(layer, entry, state.nearest[i].idx)
            &&& layer.reachable_over_admitted(entry.idx, state.nearest[i].idx)
        }
    &&& forall|i: int|
        0 <= i < state.candidates.len() ==> {
            &&& state.visited.contains(#[trigger] state.candidates[i])
            &&& layer.reachable_over_admitted(entry.idx, state.candidates[i])
        }
    &&& state.visited.contains(entry.idx)
    &&& forall|p: PointOffsetType| #[trigger]
        state.visited.contains(p) ==> layer.reachable(entry.idx, p)
}

proof fn lemma_offer_sound(
    layer: Layer,
    ef: nat,
    entry: ScoredPointOffset,
    state: SearchState,
    x: ScoredPointOffset,
)
    requires
        found_soundly(layer, ef, entry, state),
        state.visited.contains(x.idx),
        !lists_point(state.nearest, x.idx),
        x.score == score_in_search(layer, entry, x.idx),
        layer.reachable_over_admitted(entry.idx, x.idx),
    ensures
        found_soundly(layer, ef, entry, state.offer(ef, x)),
        forall|p: PointOffsetType| #[trigger]
            lists_point(state.offer(ef, x).nearest, p) ==> p == x.idx || lists_point(
                state.nearest,
                p,
            ),
        state.offer(ef, x).candidates.len() <= state.candidates.len() + 1,
{
    let after = state.offer(ef, x);
    lemma_offered_keeps_order(state.nearest, ef, x);
    lemma_offered_distinct(state.nearest, ef, x);
    if ef > 0 {
        lemma_offered_best(state.nearest, ef, x);
    }
    assert forall|i: int| 0 <= i < after.nearest.len() implies {
        &&& after.visited.contains((#[trigger] after.nearest[i]).idx)
        &&& after.nearest[i].score == score_in_search(layer, entry, after.nearest[i].idx)
        &&& layer.reachable_over_admitted(entry.idx, after.nearest[i].idx)
    } by {
        lemma_offered_contains(state.nearest, ef, x, i);
        if after.nearest[i] != x {
            let j = choose|j: int|
                0 <= j < state.nearest.len() && state.nearest[j] == after.nearest[i];
            assert(state.visited.contains(state.nearest[j].idx));
        }
    }
    assert forall|p: PointOffsetType| #[trigger] lists_point(after.nearest, p) implies p == x.idx
        || lists_point(state.nearest, p) by {
        let i = choose|i: int| 0 <= i < after.nearest.len() && (#[trigger] after.nearest[i]).idx
            == p;
        lemma_offered_contains(state.nearest, ef, x, i);
        if after.nearest[i] != x {
            let j = choose|j: int|
                0 <= j < state.nearest.len() && state.nearest[j] == after.nearest[i];
            assert(state.nearest[j].idx == p);
        }
    }
}

proof fn lemma_offer_all_sound(
    layer: Layer,
    ef: nat,
    entry: ScoredPointOffset,
    state: SearchState,
    found: Seq<PointOffsetType>,
)
    requires
        found_soundly(layer, ef, entry, state),
        found.no_duplicates(),
        forall|i: int|
            0 <= i < found.len() ==> state.visited.contains(#[trigger] found[i]) && !lists_point(
                state.nearest,
                found[i],
            ) && layer.reachable_over_admitted(entry.idx, found[i]) && found[i] != entry.idx,
    ensures
        ({
            let after = state.offer_all(ef, layer.scoring.scored(found));
            &&& found_soundly(layer, ef, entry, after)
            &&& after.visited == state.visited
            &&& after.candidates.len() <= state.candidates.len() + found.len()
            &&& forall|p: PointOffsetType| #[trigger]
                lists_point(after.nearest, p) ==> lists_point(state.nearest, p) || found.contains(p)
        }),
    decreases found.len(),
{
    let points = layer.scoring.scored(found);
    if found.len() > 0 {
        let head = found.drop_last();
        assert(points.drop_last() =~= layer.scoring.scored(head));
        assert forall|i: int| 0 <= i < head.len() implies state.visited.contains(
            #[trigger] head[i],
        ) && !lists_point(state.nearest, head[i]) && layer.reachable_over_admitted(
            entry.idx,
            head[i],
        ) && head[i] != entry.idx by {
            assert(head[i] == found[i]);
        }
        lemma_offer_all_sound(layer, ef, entry, state, head);
        let before = state.offer_all(ef, layer.scoring.scored(head));
        let x = points.last();
        assert(x.idx == found[found.len() - 1]);
        assert(!head.contains(x.idx));
        lemma_offer_sound(layer, ef, entry, before, x);
        let after = state.offer_all(ef, points);
        assert forall|p: PointOffsetType| #[trigger] lists_point(after.nearest, p) implies
            lists_point(state.nearest, p) || found.contains(p) by {
            if p == x.idx {
                assert(found[found.len() - 1] == p);
            } else if head.contains(p) {
                let i = choose|i: int| 0 <= i < head.len() && head[i] == p;
                assert(found[i] == p);
            }
        }
    }
}

/// Scanning the links of the last candidate keeps what was found sound, and prepares
/// for the points to be offered.
proof fn lemma_rest_is_sound(layer: Layer, ef: nat, entry: ScoredPointOffset, state: SearchState)
    requires
        links_wf(layer.links),
        layer.holds(state),
        found_soundly(layer, ef, entry, state),
        state.candidates.len() > 0,
    ensures
        ({
            let list = layer.neighbours(state.candidates.last());
            let found = scan(list, layer.m, layer.scoring.admits, state.visited).0;
            let seen = scan(list, layer.m, layer.scoring.admits, state.visited).1;
            let rest = SearchState {
                nearest: state.nearest,
                candidates: state.candidates.drop_last(),
                visited: seen,
            };
            &&& found_soundly(layer, ef, entry, rest)
            &&& found.no_duplicates()
            &&& forall|i: int|
                0 <= i < found.len() ==> rest.visited.contains(#[trigger] found[i]) && !lists_point(
                    rest.nearest,
                    found[i],
                ) && layer.reachable_over_admitted(entry.idx, found[i]) && found[i] != entry.idx
            &&& found.len() + unvisited(layer.links.len(), seen) <= unvisited(
                layer.links.len(),
                state.visited,
            )
        }),
{
    let n = layer.links.len();
    let point = state.candidates.last();
    assert(layer.has_point(state.candidates[state.candidates.len() - 1]));
    layer.lemma_neighbours_on_level(point);
    let list = layer.neighbours(point);
    assert forall|i: int| 0 <= i < list.len() implies #[trigger] list[i] < n by {
        assert(layer.has_point(list[i]));
    }
    let admits = layer.scoring.admits;
    lemma_scan(list, layer.m, admits, state.visited, n);
    let found = scan(list, layer.m, admits, state.visited).0;
    let seen = scan(list, layer.m, admits, state.visited).1;
    let rest = SearchState {
        nearest: state.nearest,
        candidates: state.candidates.drop_last(),
        visited: seen,
    };
    assert(state.visited.contains(state.candidates[state.candidates.len() - 1]));
    assert forall|p: PointOffsetType| #[trigger] rest.visited.contains(p) implies layer.reachable(
        entry.idx,
        p,
    ) by {
        if !state.visited.contains(p) {
            layer.lemma_reachable_step(entry.idx, point, p);
        }
    }
    assert forall|i: int| 0 <= i < rest.candidates.len() implies rest.visited.contains(
        #[trigger] rest.candidates[i],
    ) && layer.reachable_over_admitted(entry.idx, rest.candidates[i]) by {
        assert(state.visited.contains(state.candidates[i]));
    }
    assert(found_soundly(layer, ef, entry, rest));
    assert forall|i: int| 0 <= i < found.len() implies rest.visited.contains(#[trigger] found[i])
        && !lists_point(rest.nearest, found[i]) && layer.reachable_over_admitted(
        entry.idx,
        found[i],
    ) && found[i] != entry.idx by {
        layer.lemma_admitted_step(entry.idx, point, found[i]);
        if lists_point(rest.nearest, found[i]) {
            let j = choose|j: int|
                0 <= j < rest.nearest.len() && (#[trigger] rest.nearest[j]).idx == found[i];
            assert(state.visited.contains(state.nearest[j].idx));
        }
    }
}

proof fn lemma_expand_sound(layer: Layer, ef: nat, entry: ScoredPointOffset, state: SearchState)
    requires
        links_wf(layer.links),
        layer.holds(state),
        found_soundly(layer, ef, entry, state),
        state.candidates.len() > 0,
    ensures
        found_soundly(layer, ef, entry, layer.expand(ef, state)),
        layer.expand(ef, state).candidates.len() + unvisited(
            layer.links.len(),
            layer.expand(ef, state).visited,
        ) < state.candidates.len() + unvisited(layer.links.len(), state.visited),
{
    let list = layer.neighbours(state.candidates.last());
    let (found, seen) = scan(list, layer.m, layer.scoring.admits, state.visited);
    let rest = SearchState {
        nearest: state.nearest,
        candidates: state.candidates.drop_last(),
        visited: seen,
    };
    lemma_rest_is_sound(layer, ef, entry, state);
    lemma_offer_all_sound(layer, ef, entry, rest, found);
}

proof fn lemma_expand_times_sound(
    layer: Layer,
    ef: nat,
    entry: ScoredPointOffset,
    state: SearchState,
    times: nat,
)
    requires
        links_wf(layer.links),
        layer.holds(state),
        found_soundly(layer, ef, entry, state),
    ensures
        found_soundly(layer, ef, entry, layer.expand_times(ef, state, times)),
        state.candidates.len() + unvisited(layer.links.len(), state.visited) <= times
            ==> layer.expand_times(ef, state, times).candidates.len() == 0,
    decreases times,
{
    if times > 0 && state.candidates.len() > 0 {
        lemma_expand_sound(layer, ef, entry, state);
        layer.lemma_expand_holds(ef, state);
        lemma_expand_times_sound(
            layer,
            ef,
            entry,
            layer.expand(ef, state),
            (times - 1) as nat,
        );
    }
}

proof fn lemma_search_start(layer: Layer, ef: nat, entry: ScoredPointOffset)
    requires
        layer.has_point(entry.idx),
    ensures
        layer.holds(search_start(entry, ef)),
        found_soundly(layer, ef, entry, search_start(entry, ef)),
{
    let start = search_start(entry, ef);
    let none = Seq::<ScoredPointOffset>::empty();
    lemma_offered_keeps_order(none, ef, entry);
    lemma_offered_distinct(none, ef, entry);
    if ef > 0 {
        lemma_offered_best(none, ef, entry);
    }
    assert forall|i: int| 0 <= i < start.nearest.len() implies (#[trigger] start.nearest[i])
        == entry by {
        lemma_offered_contains(none, ef, entry, i);
    }
    layer.lemma_reachable_start(entry.idx);
}

/// A search comes to an end: there is no candidate left whose links were not
/// followed.
pub proof fn law_search_leaves_no_candidates(layer: Layer, ef: nat, entry: ScoredPointOffset)
    requires
        links_wf(layer.links),
        layer.has_point(entry.idx),
    ensures
        layer.search_end(ef, search_start(entry, ef)).candidates.len() == 0,
{
    let start = search_start(entry, ef);
    lemma_search_start(layer, ef, entry);
    lemma_unvisited_bound(layer.links.len(), start.visited);
    lemma_expand_times_sound(layer, ef, entry, start, start.candidates.len() + layer.links.len());
}

/// What a search finds is ordered by score, the closest first, and has at most `ef`
/// points, none of them twice. Each one is on the level searched and can be reached
/// from the entry by following links over points that the filter admits. All but the
/// entry are admitted themselves and carry their score against the query. If any point
/// is asked for, one is found that is at least as close as the entry.
pub proof fn law_search_result(layer: Layer, ef: nat, entry: ScoredPointOffset)
    requires
        links_wf(layer.links),
        layer.has_point(entry.idx),
    ensures
        is_ranked(layer.search(ef, entry)),
        layer.search(ef, entry).len() <= ef,
        distinct_points(layer.search(ef, entry)),
        ef > 0 ==> layer.search(ef, entry).len() > 0 && layer.search(ef, entry)[0].score
            >= entry.score,
        forall|i: int|
            0 <= i < layer.search(ef, entry).len() ==> {
                let found = #[trigger] layer.search(ef, entry)[i];
                &&& layer.has_point(found.idx)
                &&& layer.reachable(entry.idx, found.idx)
                &&& layer.reachable_over_admitted(entry.idx, found.idx)
                &&& found == entry || found.score == (layer.scoring.query)(found.idx)
                &&& found.idx == entry.idx ==> found == entry
                &&& found.idx == entry.idx || (layer.scoring.admits)(found.idx)
            },
{
    let start = search_start(entry, ef);
    lemma_search_start(layer, ef, entry);
    lemma_expand_times_sound(layer, ef, entry, start, start.candidates.len() + layer.links.len());
    layer.lemma_search_on_level(ef, entry);
    let end = layer.search_end(ef, start);
    assert forall|i: int| 0 <= i < layer.search(ef, entry).len() implies layer.reachable(
        entry.idx,
        (#[trigger] layer.search(ef, entry)[i]).idx,
    ) && layer.reachable_over_admitted(entry.idx, layer.search(ef, entry)[i].idx) && (
    layer.search(ef, entry)[i].idx == entry.idx || (layer.scoring.admits)(
        layer.search(ef, entry)[i].idx,
    )) by {
        let to = end.nearest[i].idx;
        assert(end.visited.contains(to));
        let path = choose|path: Seq<PointOffsetType>|
            #[trigger] layer.is_admitted_path(path) && path[0] == entry.idx && path.last() == to;
        if path.len() > 1 {
            assert((layer.scoring.admits)(path[path.len() - 1]));
        }
    }
}

// What a search leaves out

/// Whether neither the filter nor a limit on links keeps a search that starts at a
/// point from following all links.
pub open spec fn follows_all_links(layer: Layer, from: PointOffsetType) -> bool {
    forall|p: PointOffsetType| #[trigger]
        layer.reachable(from, p) ==> (p == from || (layer.scoring.admits)(p))
            && layer.neighbours(p).len() <= layer.m
}

/// Whether none of the points is farther than the score tells.
pub open spec fn all_at_least(points: Seq<ScoredPointOffset>, score: int) -> bool {
    forall|i: int| 0 <= i < points.len() ==> (#[trigger] points[i]).score >= score
}

/// Whether the point is among those found, or there was no room for it: as many were
/// found as asked for, and none of them is farther.
pub open spec fn found_or_beaten(
    layer: Layer,
    ef: nat,
    entry: ScoredPointOffset,
    found: Seq<ScoredPointOffset>,
    point: PointOffsetType,
) -> bool {
    lists_point(found, point) || found.len() == ef && all_at_least(
        found,
        score_in_search(layer, entry, point),
    )
}

/// The entry and all admitted points come across were found or beaten. All followed
/// neighbours of those found that are no longer candidates were come across.
spec fn all_considered(
    layer: Layer,
    ef: nat,
    entry: ScoredPointOffset,
    state: SearchState,
) -> bool {
    &&& forall|p: PointOffsetType| #[trigger]
        state.visited.contains(p) && (p == entry.idx || (layer.scoring.admits)(p))
            ==> found_or_beaten(layer, ef, entry, state.nearest, p)
    &&& neighbours_seen(layer, state)
}

/// All followed neighbours of points found that are no longer candidates were come
/// across.
spec fn neighbours_seen(layer: Layer, state: SearchState) -> bool {
    forall|p: PointOffsetType, q: PointOffsetType|
        lists_point(state.nearest, p) && !state.candidates.contains(p)
            && #[trigger] layer.follows(p, q) ==> state.visited.contains(q)
}

/// Offering a point to the best found leaves out only what is no closer than any that
/// stays, and nothing while there is room.
pub proof fn lemma_offered_leaves_out(s: Seq<ScoredPointOffset>, ef: nat, x: ScoredPointOffset)
    requires
        is_ranked(s),
        s.len() <= ef,
    ensures
        ({
            let r = offered(s, ef, x);
            &&& lists_point(r, x.idx) || r.len() == ef && all_at_least(r, x.score as int)
            &&& forall|j: int|
                0 <= j < s.len() ==> lists_point(r, (#[trigger] s[j]).idx) || r.len() == ef
                    && all_at_least(r, s[j].score as int)
            &&& s.len() == ef ==> r.len() == ef && (ef > 0 ==> all_at_least(
                r,
                s.last().score as int,
            ))
        }),
{
    let r = offered(s, ef, x);
    let t = if s.len() < ef {
        s
    } else {
        s.drop_last()
    };
    let at = first_index(t, outranked_by(x));
    lemma_first_index(t, outranked_by(x));
    assert forall|i: int| 0 <= i < s.len() implies (#[trigger] s[i]).score >= s.last().score by {
        assert(s[i].priority() >= s[s.len() - 1].priority());
    }
    if s.len() < ef || s.len() > 0 && x.score > s.last().score {
        assert(r == t.insert(at, x));
        assert(r[at] == x);
        assert forall|j: int| 0 <= j < t.len() implies lists_point(r, (#[trigger] s[j]).idx) by {
            if j < at {
                assert(r[j] == s[j]);
            } else {
                assert(r[j + 1] == s[j]);
            }
        }
        if s.len() == ef {
            assert forall|i: int| 0 <= i < r.len() implies (#[trigger] r[i]).score
                >= s.last().score by {
                if i < at {
                    assert(r[i] == s[i]);
                } else if i > at {
                    assert(r[i] == s[i - 1]);
                }
            }
        }
    } else {
        assert(r == s);
        assert forall|j: int| 0 <= j < s.len() implies lists_point(r, (#[trigger] s[j]).idx) by {
            assert(r[j].idx == s[j].idx);
        }
    }
}

proof fn lemma_offer_sees_neighbours(
    layer: Layer,
    ef: nat,
    state: SearchState,
    x: ScoredPointOffset,
)
    requires
        neighbours_seen(layer, state),
        !lists_point(state.nearest, x.idx),
    ensures
        neighbours_seen(layer, state.offer(ef, x)),
{
    let s = state.nearest;
    let after = state.offer(ef, x);
    let r = after.nearest;
    assert forall|p: PointOffsetType, q: PointOffsetType|
        lists_point(r, p) && !after.candidates.contains(p)
            && #[trigger] layer.follows(p, q) implies after.visited.contains(q) by {
        let i = choose|i: int| 0 <= i < r.len() && (#[trigger] r[i]).idx == p;
        lemma_offered_contains(s, ef, x, i);
        if s.contains(r[i]) {
            let j = choose|j: int| 0 <= j < s.len() && s[j] == r[i];
            assert(s[j].idx == p);
            if state.candidates.contains(p) {
                let k = choose|k: int|
                    0 <= k < state.candidates.len() && state.candidates[k] == p;
                assert(after.candidates[k] == p);
            }
        } else {
            assert(r[i] == x);
            assert(after.candidates[after.candidates.len() - 1] == p);
        }
    }
}

proof fn lemma_offer_considers(
    layer: Layer,
    ef: nat,
    entry: ScoredPointOffset,
    state: SearchState,
    x: ScoredPointOffset,
)
    requires
        found_soundly(layer, ef, entry, state),
        x.score == score_in_search(layer, entry, x.idx),
    ensures
        found_or_beaten(layer, ef, entry, state.offer(ef, x).nearest, x.idx),
        forall|p: PointOffsetType|
            found_or_beaten(layer, ef, entry, state.nearest, p) ==> #[trigger] found_or_beaten(
                layer,
                ef,
                entry,
                state.offer(ef, x).nearest,
                p,
            ),
{
    let s = state.nearest;
    let r = state.offer(ef, x).nearest;
    lemma_offered_leaves_out(s, ef, x);
    assert forall|p: PointOffsetType|
        found_or_beaten(layer, ef, entry, s, p) implies #[trigger] found_or_beaten(
        layer,
        ef,
        entry,
        r,
        p,
    ) by {
        if lists_point(s, p) {
            let j = choose|j: int| 0 <= j < s.len() && (#[trigger] s[j]).idx == p;
            assert(s[j].score == score_in_search(layer, entry, p));
        } else if ef > 0 {
            assert(s[s.len() - 1].score >= score_in_search(layer, entry, p));
        }
    }
}

proof fn lemma_offer_all_considers(
    layer: Layer,
    ef: nat,
    entry: ScoredPointOffset,
    state: SearchState,
    found: Seq<PointOffsetType>,
)
    requires
        found_soundly(layer, ef, entry, state),
        neighbours_seen(layer, state),
        found.no_duplicates(),
        forall|i: int|
            0 <= i < found.len() ==> state.visited.contains(#[trigger] found[i]) && !lists_point(
                state.nearest,
                found[i],
            ) && layer.reachable_over_admitted(entry.idx, found[i]) && found[i] != entry.idx,
    ensures
        ({
            let after = state.offer_all(ef, layer.scoring.scored(found));
            &&& neighbours_seen(layer, after)
            &&& forall|p: PointOffsetType|
                found_or_beaten(layer, ef, entry, state.nearest, p) || found.contains(p)
                    ==> #[trigger] found_or_beaten(layer, ef, entry, after.nearest, p)
        }),
    decreases found.len(),
{
    let points = layer.scoring.scored(found);
    if found.len() > 0 {
        let head = found.drop_last();
        assert(points.drop_last() =~= layer.scoring.scored(head));
        assert forall|i: int| 0 <= i < head.len() implies state.visited.contains(
            #[trigger] head[i],
        ) && !lists_point(state.nearest, head[i]) && layer.reachable_over_admitted(
            entry.idx,
            head[i],
        ) && head[i] != entry.idx by {
            assert(head[i] == found[i]);
        }
        lemma_offer_all_considers(layer, ef, entry, state, head);
        lemma_offer_all_sound(layer, ef, entry, state, head);
        let before = state.offer_all(ef, layer.scoring.scored(head));
        let x = points.last();
        assert(x.idx == found[found.len() - 1]);
        assert(!head.contains(x.idx));
        lemma_offer_considers(layer, ef, entry, before, x);
        lemma_offer_sees_neighbours(layer, ef, before, x);
        let after = state.offer_all(ef, points);
        assert forall|p: PointOffsetType|
            found_or_beaten(layer, ef, entry, state.nearest, p) || found.contains(p) implies
            #[trigger] found_or_beaten(layer, ef, entry, after.nearest, p) by {
            if p != x.idx {
                if !found_or_beaten(layer, ef, entry, state.nearest, p) {
                    let i = choose|i: int| 0 <= i < found.len() && found[i] == p;
                    assert(head[i] == p);
                }
                assert(found_or_beaten(layer, ef, entry, before.nearest, p));
            }
        }
    }
}

proof fn lemma_expand_considers(layer: Layer, ef: nat, entry: ScoredPointOffset, state: SearchState)
    requires
        links_wf(layer.links),
        layer.holds(state),
        found_soundly(layer, ef, entry, state),
        all_considered(layer, ef, entry, state),
        state.candidates.len() > 0,
    ensures
        all_considered(layer, ef, entry, layer.expand(ef, state)),
{
    let n = layer.links.len();
    let point = state.candidates.last();
    assert(layer.has_point(state.candidates[state.candidates.len() - 1]));
    assert(state.visited.contains(state.candidates[state.candidates.len() - 1]));
    layer.lemma_neighbours_on_level(point);
    let list = layer.neighbours(point);
    let admits = layer.scoring.admits;
    assert forall|i: int| 0 <= i < list.len() implies #[trigger] list[i] < n by {
        assert(layer.has_point(list[i]));
    }
    lemma_scan(list, layer.m, admits, state.visited, n);
    lemma_scan_follows(list, layer.m, admits, state.visited);
    let found = scan(list, layer.m, admits, state.visited).0;
    let seen = scan(list, layer.m, admits, state.visited).1;
    let rest = SearchState {
        nearest: state.nearest,
        candidates: state.candidates.drop_last(),
        visited: seen,
    };
    lemma_rest_is_sound(layer, ef, entry, state);
    assert(neighbours_seen(layer, rest)) by {
        assert forall|p: PointOffsetType, q: PointOffsetType|
            lists_point(rest.nearest, p) && !rest.candidates.contains(p)
                && #[trigger] layer.follows(p, q) implies rest.visited.contains(q) by {
            if p == point {
                let i = choose|i: int| #[trigger]
                    is_followed(list, layer.m, admits, i) && list[i] == q;
                assert(seen.contains(list[i]));
            } else {
                if state.candidates.contains(p) {
                    let k = choose|k: int|
                        0 <= k < state.candidates.len() && state.candidates[k] == p;
                    assert(rest.candidates[k] == p);
                }
                assert(state.visited.contains(q));
            }
        }
    }
    lemma_offer_all_considers(layer, ef, entry, rest, found);
    lemma_offer_all_sound(layer, ef, entry, rest, found);
    let after = layer.expand(ef, state);
    assert forall|p: PointOffsetType| #[trigger]
        after.visited.contains(p) && (p == entry.idx || admits(p)) implies found_or_beaten(
        layer,
        ef,
        entry,
        after.nearest,
        p,
    ) by {
        if state.visited.contains(p) {
            assert(found_or_beaten(layer, ef, entry, state.nearest, p));
        }
    }
}

proof fn lemma_expand_times_considers(
    layer: Layer,
    ef: nat,
    entry: ScoredPointOffset,
    state: SearchState,
    times: nat,
)
    requires
        links_wf(layer.links),
        layer.holds(state),
        found_soundly(layer, ef, entry, state),
        all_considered(layer, ef, entry, state),
    ensures
        all_considered(layer, ef, entry, layer.expand_times(ef, state, times)),
    decreases times,
{
    if times > 0 && state.candidates.len() > 0 {
        lemma_expand_considers(layer, ef, entry, state);
        lemma_expand_sound(layer, ef, entry, state);
        layer.lemma_expand_holds(ef, state);
        lemma_expand_times_considers(
            layer,
            ef,
            entry,
            layer.expand(ef, state),
            (times - 1) as nat,
        );
    }
}

/// Of the links of a point found, those that are followed lead to points that are found
/// too, unless as many points were found as asked for and none of them is farther. The
/// same holds of the entry.
pub proof fn law_search_leaves_out_only_farther_links(
    layer: Layer,
    ef: nat,
    entry: ScoredPointOffset,
)
    requires
        links_wf(layer.links),
        layer.has_point(entry.idx),
    ensures
        found_or_beaten(layer, ef, entry, layer.search(ef, entry), entry.idx),
        forall|p: PointOffsetType, q: PointOffsetType|
            lists_point(layer.search(ef, entry), p) && #[trigger] layer.follows(p, q)
                ==> found_or_beaten(layer, ef, entry, layer.search(ef, entry), q),
{
    let start = search_start(entry, ef);
    let end = layer.search_end(ef, start);
    lemma_search_start(layer, ef, entry);
    assert(all_considered(layer, ef, entry, start)) by {
        if ef > 0 {
            lemma_offered_best(Seq::empty(), ef, entry);
            assert(start.nearest[0].idx == entry.idx);
        }
        assert forall|p: PointOffsetType| #[trigger] lists_point(start.nearest, p) implies
            start.candidates.contains(p) by {
            let i = choose|i: int|
                0 <= i < start.nearest.len() && (#[trigger] start.nearest[i]).idx == p;
            lemma_offered_contains(Seq::empty(), ef, entry, i);
            assert(start.candidates[0] == p);
        }
    }
    let times = start.candidates.len() + layer.links.len();
    lemma_expand_times_considers(layer, ef, entry, start, times);
    lemma_expand_times_sound(layer, ef, entry, start, times);
    law_search_leaves_no_candidates(layer, ef, entry);
    assert(end.visited.contains(entry.idx));
    assert forall|p: PointOffsetType, q: PointOffsetType|
        lists_point(layer.search(ef, entry), p) && #[trigger] layer.follows(
            p,
            q,
        ) implies found_or_beaten(layer, ef, entry, layer.search(ef, entry), q) by {
        assert(!end.candidates.contains(p));
        assert(end.visited.contains(q));
    }
}

/// If neither the filter nor a limit on links keeps a search from following all links,
/// then each neighbour of a point found is found too, or as many points were found as
/// asked for and none of them is farther than the neighbour. The same holds of the
/// entry.
pub proof fn law_search_leaves_out_only_farther_neighbours(
    layer: Layer,
    ef: nat,
    entry: ScoredPointOffset,
)
    requires
        links_wf(layer.links),
        layer.has_point(entry.idx),
        follows_all_links(layer, entry.idx),
    ensures
        found_or_beaten(layer, ef, entry, layer.search(ef, entry), entry.idx),
        forall|p: PointOffsetType, q: PointOffsetType|
            lists_point(layer.search(ef, entry), p) && #[trigger] layer.neighbours(p).contains(q)
                ==> found_or_beaten(layer, ef, entry, layer.search(ef, entry), q),
{
    let found = layer.search(ef, entry);
    law_search_result(layer, ef, entry);
    law_search_leaves_out_only_farther_links(layer, ef, entry);
    assert forall|p: PointOffsetType, q: PointOffsetType|
        lists_point(found, p) && #[trigger] layer.neighbours(p).contains(
            q,
        ) implies found_or_beaten(layer, ef, entry, found, q) by {
        let i = choose|i: int| 0 <= i < found.len() && (#[trigger] found[i]).idx == p;
        assert(layer.reachable(entry.idx, layer.search(ef, entry)[i].idx));
        layer.lemma_reachable_step(entry.idx, p, q);
        if q != entry.idx {
            let list = layer.neighbours(p);
            let at = choose|at: int| 0 <= at < list.len() && list[at] == q;
            lemma_short_list_is_followed(list, layer.m, layer.scoring.admits, at);
            assert(layer.follows(p, q));
        }
    }
}

proof fn lemma_bounded_points_are_finite(s: Set<PointOffsetType>, n: nat)
    requires
        forall|p: PointOffsetType| #[trigger] s.contains(p) ==> p < n,
    ensures
        s.finite(),
    decreases n,
{
    if n == 0 {
        assert(s =~= Set::empty());
    } else if n - 1 <= PointOffsetType::MAX && s.contains((n - 1) as PointOffsetType) {
        let p = (n - 1) as PointOffsetType;
        lemma_bounded_points_are_finite(s.remove(p), (n - 1) as nat);
        assert(s =~= s.remove(p).insert(p));
    } else {
        assert forall|p: PointOffsetType| #[trigger] s.contains(p) implies p < (n - 1) as nat by {
            if p == n - 1 {
                assert(p == (n - 1) as PointOffsetType);
            }
        }
        lemma_bounded_points_are_finite(s, (n - 1) as nat);
    }
}

/// Whether nothing keeps a search from finding all that it can reach: it follows all
/// links, and may keep as many points as can be reached.
pub open spec fn searches_all(layer: Layer, ef: nat, from: PointOffsetType) -> bool {
    &&& follows_all_links(layer, from)
    &&& layer.reachable_from(from).len() <= ef
}

/// A search that nothing restricts finds exactly the points that can be reached from
/// the entry.
pub proof fn law_unrestricted_search_finds_all_reachable(
    layer: Layer,
    ef: nat,
    entry: ScoredPointOffset,
    point: PointOffsetType,
)
    requires
        links_wf(layer.links),
        layer.has_point(entry.idx),
        searches_all(layer, ef, entry.idx),
    ensures
        lists_point(layer.search(ef, entry), point) <==> layer.reachable(entry.idx, point),
{
    let found = layer.search(ef, entry);
    let reachable = layer.reachable_from(entry.idx);
    let ids = found.map_values(|p: ScoredPointOffset| p.idx);
    law_search_result(layer, ef, entry);
    law_search_leaves_out_only_farther_neighbours(layer, ef, entry);
    assert forall|p: PointOffsetType| #[trigger] lists_point(found, p) implies layer.reachable(
        entry.idx,
        p,
    ) && ids.contains(p) by {
        let i = choose|i: int| 0 <= i < found.len() && (#[trigger] found[i]).idx == p;
        assert(layer.reachable(entry.idx, layer.search(ef, entry)[i].idx));
        assert(ids[i] == p);
    }
    if layer.reachable(entry.idx, point) {
        assert forall|p: PointOffsetType| #[trigger] reachable.contains(p) implies p
            < layer.links.len() by {
            let path = choose|path: Seq<PointOffsetType>|
                #[trigger] layer.is_path(path) && path[0] == entry.idx && path.last() == p;
            layer.lemma_path_on_level(path, path.len() - 1);
        }
        lemma_bounded_points_are_finite(reachable, layer.links.len());
        assert(ids.no_duplicates()) by {
            assert forall|i: int, j: int| 0 <= i < ids.len() && 0 <= j < ids.len() && i != j
                implies ids[i] != ids[j] by {
                if i < j {
                    assert(found[i].idx != found[j].idx);
                } else {
                    assert(found[j].idx != found[i].idx);
                }
            }
        }
        ids.unique_seq_to_set();
        assert forall|p: PointOffsetType| #[trigger] ids.to_set().contains(p) implies
            reachable.contains(p) by {
            let i = choose|i: int| 0 <= i < ids.len() && ids[i] == p;
            assert(found[i].idx == p);
            assert(lists_point(found, p));
        }
        if found.len() >= ef {
            vstd::set_lib::lemma_len_subset(ids.to_set(), reachable);
            vstd::set_lib::lemma_subset_equality(ids.to_set(), reachable);
            assert(ids.to_set().contains(point));
            let i = choose|i: int| 0 <= i < ids.len() && ids[i] == point;
            assert(found[i].idx == point);
        } else {
            let path = choose|path: Seq<PointOffsetType>|
                #[trigger] layer.is_path(path) && path[0] == entry.idx && path.last() == point;
            let closed = ids.to_set();
            assert forall|p: PointOffsetType, q: PointOffsetType|
                closed.contains(p) && #[trigger] layer.neighbours(p).contains(q) implies
                closed.contains(q) by {
                let i = choose|i: int| 0 <= i < ids.len() && ids[i] == p;
                assert(found[i].idx == p);
                assert(found_or_beaten(layer, ef, entry, found, q));
                assert(lists_point(found, q));
            }
            assert(lists_point(found, entry.idx));
            layer.lemma_closed_contains_path(closed, path, path.len() - 1);
            let i = choose|i: int| 0 <= i < ids.len() && ids[i] == point;
            assert(found[i].idx == point);
        }
    }
}

// Greedy search

/// A greedy search ends where it cannot go on to a closer point, and no farther from
/// the query than it began.
pub proof fn law_climb_ends_at_a_local_best(layer: Layer, current: ScoredPointOffset)
    ensures
        layer.climb(current).score >= current.score,
        forall|i: int|
            0 <= i < layer.next_points(layer.climb(current).idx).len() ==> (
            #[trigger] layer.next_points(layer.climb(current).idx)[i]).score <= layer.climb(
                current,
            ).score,
        layer.climb(current) == current || layer.climb(current).score == (layer.scoring.query)(
            layer.climb(current).idx,
        ),
    decreases ScoreType::MAX - current.score,
{
    let points = layer.next_points(current.idx);
    let next = best_of(current, points);
    lemma_best_of(current, points);
    if next.score > current.score {
        law_climb_ends_at_a_local_best(layer, next);
        let i = choose|i: int| 0 <= i < points.len() && points[i] == next;
        assert(next.score == (layer.scoring.query)(next.idx));
    }
}

/// A greedy descent through several levels ends no farther from the query than it
/// began, and at a point that carries its score against the query if it went on at
/// all.
pub proof fn law_descent_gets_no_farther(
    graph: Graph,
    current: ScoredPointOffset,
    top: int,
    target: int,
    scoring: Scoring,
)
    ensures
        graph.descend(current, top, target, scoring).score >= current.score,
        graph.descend(current, top, target, scoring) == current || graph.descend(
            current,
            top,
            target,
            scoring,
        ).score == (scoring.query)(graph.descend(current, top, target, scoring).idx),
    decreases top - target,
{
    if top > target {
        let layer = graph.layer(graph.links, top, scoring);
        law_climb_ends_at_a_local_best(layer, current);
        law_descent_gets_no_farther(graph, layer.climb(current), top - 1, target, scoring);
    }
}

} // verus!
