//! What search does on a level of the graph. The laws speak of the lists of links
//! themselves: up to `m0` links of a point are followed on the lowest level, and up to `m`
//! on a higher one.

use crate::list_laws::{
    is_inserted_at, law_best_is_the_first_of_the_closest, law_only_closer_points_are_followed,
    law_push_comes_after_equals,
};
use crate::model::{
    best_of, has_level, links_wf, scan, search_start, Graph, Layer, Links, SearchState,
};
use crate::priority_queue::{lemma_offered_keeps_order, offered};
use crate::ranking::{is_ranked, Prioritized};
use crate::scorer::{PointCheck, Scoring};
use crate::search_laws::{
    all_at_least, distinct_points, found_or_beaten, is_followed, law_descent_gets_no_farther,
    law_search_leaves_no_candidates, law_search_leaves_out_only_farther_links, law_search_result,
    lemma_offered_leaves_out, lemma_short_list_is_followed, lists_point,
};
use crate::search_lemmas::{lemma_offer_all_visited, lemma_offered_contains};
use crate::types::{PointOffsetType, ScoreType, ScoredPointOffset};
use vstd::prelude::*;

verus! {

// Search

/// Whether each point of the route has the next one in its list on the level, and all but
/// the first are admitted.
pub open spec fn is_route(
    links: Links,
    level: int,
    admits: PointCheck,
    route: Seq<PointOffsetType>,
) -> bool {
    &&& route.len() > 0
    &&& forall|i: int|
        1 <= i < route.len() ==> links[route[i - 1] as int][level].contains(#[trigger] route[i])
            && admits(route[i])
}

/// Whether a route leads from one point to the other.
pub open spec fn has_route(
    links: Links,
    level: int,
    admits: PointCheck,
    from: PointOffsetType,
    to: PointOffsetType,
) -> bool {
    exists|route: Seq<PointOffsetType>| #[trigger]
        is_route(links, level, admits, route) && route[0] == from && route.last() == to
}

/// Whether each link of a found point that is followed leads to the entry or to a point that
/// was found, unless `ef` points were found and none of them is farther.
pub open spec fn leaves_out_only_farther(
    found: Seq<ScoredPointOffset>,
    links: Links,
    level: int,
    limit: nat,
    scoring: Scoring,
    ef: nat,
    entry: PointOffsetType,
) -> bool {
    forall|i: int, at: int|
        0 <= i < found.len() && #[trigger] is_followed(
            links[found[i].idx as int][level],
            limit,
            scoring.admits,
            at,
        ) ==> {
            let to = links[found[i].idx as int][level][at];
            ||| to == entry
            ||| lists_point(found, to)
            ||| found.len() == ef && all_at_least(found, (scoring.query)(to) as int)
        }
}

/// A search on a level finds at most `ef` points, none twice, the closest first. Each is
/// the entry with the score it came with, or an admitted point with its score against the
/// query, to which a route of links leads from the entry.
///
/// The entry is found, and so is each point to which a found one links, if it is admitted
/// and fewer than `m` (on the lowest level `m0`) of the points that stand before it in the
/// list are: unless `ef` points were found and none of them is farther.
pub proof fn law_search_on_a_level(
    graph: Graph,
    level: int,
    scoring: Scoring,
    ef: nat,
    entry: ScoredPointOffset,
)
    requires
        links_wf(graph.links),
        has_level(graph.links, entry.idx as int, level),
    ensures
        ({
            let found = graph.layer(graph.links, level, scoring).search(ef, entry);
            let limit = if level == 0 {
                graph.m0
            } else {
                graph.m
            };
            &&& found.len() <= ef
            &&& ef > 0 ==> found.len() > 0 && found[0].score >= entry.score
            &&& forall|i: int, j: int|
                0 <= i < j < found.len() ==> (#[trigger] found[i]).score >= (
                #[trigger] found[j]).score && found[i].idx != found[j].idx
            &&& forall|i: int|
                0 <= i < found.len() ==> {
                    &&& has_level(graph.links, (#[trigger] found[i]).idx as int, level)
                    &&& has_route(graph.links, level, scoring.admits, entry.idx, found[i].idx)
                    &&& found[i] == entry || found[i].idx != entry.idx && (scoring.admits)(
                        found[i].idx,
                    ) && found[i].score == (scoring.query)(found[i].idx)
                }
            &&& lists_point(found, entry.idx) || found.len() == ef && all_at_least(
                found,
                entry.score as int,
            )
            &&& leaves_out_only_farther(found, graph.links, level, limit, scoring, ef, entry.idx)
        }),
{
    let layer = graph.layer(graph.links, level, scoring);
    let found = layer.search(ef, entry);
    law_search_result(layer, ef, entry);
    law_search_leaves_out_only_farther_links(layer, ef, entry);
    assert forall|i: int, j: int| 0 <= i < j < found.len() implies (#[trigger] found[i]).score
        >= (#[trigger] found[j]).score && found[i].idx != found[j].idx by {
        assert(found[i].priority() >= found[j].priority());
    }
    assert forall|i: int| 0 <= i < found.len() implies {
        &&& has_level(graph.links, (#[trigger] found[i]).idx as int, level)
        &&& has_route(graph.links, level, scoring.admits, entry.idx, found[i].idx)
        &&& found[i] == entry || found[i].idx != entry.idx && (scoring.admits)(found[i].idx)
            && found[i].score == (scoring.query)(found[i].idx)
    } by {
        let x = layer.search(ef, entry)[i];
        assert(layer.has_point(x.idx));
        let path = choose|path: Seq<PointOffsetType>| #[trigger]
            layer.is_admitted_path(path) && path[0] == entry.idx && path.last() == x.idx;
        assert forall|k: int| 1 <= k < path.len() implies graph.links[path[k - 1] as int][
            level
        ].contains(#[trigger] path[k]) && (scoring.admits)(path[k]) by {
            assert(layer.neighbours(path[k - 1]).contains(path[k]));
        }
        assert(is_route(graph.links, level, scoring.admits, path));
    }
    let limit = if level == 0 {
        graph.m0
    } else {
        graph.m
    };
    assert forall|i: int, at: int|
        0 <= i < found.len() && #[trigger] is_followed(
            graph.links[found[i].idx as int][level],
            limit,
            scoring.admits,
            at,
        ) implies {
        let to = graph.links[found[i].idx as int][level][at];
        ||| to == entry.idx
        ||| lists_point(found, to)
        ||| found.len() == ef && all_at_least(found, (scoring.query)(to) as int)
    } by {
        let p = found[i].idx;
        let to = graph.links[p as int][level][at];
        assert(layer.neighbours(p) == graph.links[p as int][level]);
        assert(layer.m == limit);
        assert(is_followed(layer.neighbours(p), layer.m, scoring.admits, at));
        assert(layer.follows(p, to));
        assert(lists_point(found, p));
        assert(found_or_beaten(layer, ef, entry, found, to));
    }
}

/// Where all points are admitted and no list on the level has more than `m` points (on the
/// lowest level `m0`), a search finds each neighbour of a point that it finds, or has found
/// `ef` points of which none is farther than the neighbour.
pub proof fn law_search_finds_neighbours(
    graph: Graph,
    level: int,
    scoring: Scoring,
    ef: nat,
    entry: ScoredPointOffset,
    i: int,
    neighbour: PointOffsetType,
)
    requires
        links_wf(graph.links),
        has_level(graph.links, entry.idx as int, level),
        forall|p: PointOffsetType| p < graph.links.len() ==> #[trigger] (scoring.admits)(p),
        forall|p: int|
            has_level(graph.links, p, level) ==> (#[trigger] graph.links[p][level]).len()
                <= if level == 0 {
                graph.m0
            } else {
                graph.m
            },
        0 <= i < graph.layer(graph.links, level, scoring).search(ef, entry).len(),
        graph.links[graph.layer(graph.links, level, scoring).search(
            ef,
            entry,
        )[i].idx as int][level].contains(neighbour),
    ensures
        ({
            let found = graph.layer(graph.links, level, scoring).search(ef, entry);
            let score = if neighbour == entry.idx {
                entry.score
            } else {
                (scoring.query)(neighbour)
            };
            ||| lists_point(found, neighbour)
            ||| found.len() == ef && all_at_least(found, score as int)
        }),
{
    let found = graph.layer(graph.links, level, scoring).search(ef, entry);
    let limit = if level == 0 {
        graph.m0
    } else {
        graph.m
    };
    law_search_on_a_level(graph, level, scoring, ef, entry);
    let p = found[i].idx;
    assert(has_level(graph.links, found[i].idx as int, level));
    let list = graph.links[p as int][level];
    let at = choose|at: int| 0 <= at < list.len() && list[at] == neighbour;
    assert(has_level(graph.links, graph.links[p as int][level][at] as int, level));
    assert((scoring.admits)(neighbour));
    lemma_short_list_is_followed(list, limit, scoring.admits, at);
    assert(is_followed(graph.links[found[i].idx as int][level], limit, scoring.admits, at));
}

/// A search that finds fewer points than asked for has found every point to which a route
/// leads over lists of at most `m` points (on the lowest level `m0`).
pub proof fn law_search_with_room_follows_routes(
    graph: Graph,
    level: int,
    scoring: Scoring,
    ef: nat,
    entry: ScoredPointOffset,
    route: Seq<PointOffsetType>,
)
    requires
        links_wf(graph.links),
        has_level(graph.links, entry.idx as int, level),
        graph.layer(graph.links, level, scoring).search(ef, entry).len() < ef,
        is_route(graph.links, level, scoring.admits, route),
        route[0] == entry.idx,
        forall|i: int|
            0 <= i < route.len() ==> (graph.links[#[trigger] route[i] as int][level]).len()
                <= if level == 0 {
                graph.m0
            } else {
                graph.m
            },
    ensures
        lists_point(graph.layer(graph.links, level, scoring).search(ef, entry), route.last()),
    decreases route.len(),
{
    let found = graph.layer(graph.links, level, scoring).search(ef, entry);
    law_search_on_a_level(graph, level, scoring, ef, entry);
    let last = route.len() - 1;
    if last > 0 {
        let before = route.drop_last();
        assert forall|i: int| 1 <= i < before.len() implies graph.links[before[i - 1] as int][
            level
        ].contains(#[trigger] before[i]) && (scoring.admits)(before[i]) by {
            assert(before[i] == route[i]);
        }
        assert forall|i: int| 0 <= i < before.len() implies (graph.links[
            #[trigger] before[i] as int
        ][level]).len() <= if level == 0 {
            graph.m0
        } else {
            graph.m
        } by {
            assert(before[i] == route[i]);
        }
        law_search_with_room_follows_routes(graph, level, scoring, ef, entry, before);
        let p = route[last - 1];
        let i = choose|i: int| 0 <= i < found.len() && (#[trigger] found[i]).idx == p;
        let list = graph.links[p as int][level];
        assert(list.contains(route[last]) && (scoring.admits)(route[last]));
        let at = choose|at: int| 0 <= at < list.len() && list[at] == route[last];
        let limit = if level == 0 {
            graph.m0
        } else {
            graph.m
        };
        assert(graph.links[route[last - 1] as int][level].len() <= limit);
        lemma_short_list_is_followed(list, limit, scoring.admits, at);
        assert(is_followed(graph.links[found[i].idx as int][level], limit, scoring.admits, at));
    }
}

// Following the links of one point

/// The admitted ones of the first `stop` points of a list that were not visited before.
pub open spec fn new_points(
    list: Seq<PointOffsetType>,
    stop: int,
    admits: PointCheck,
    visited: Set<PointOffsetType>,
) -> Set<PointOffsetType> {
    list.take(stop).to_set().filter(|p: PointOffsetType| admits(p) && !visited.contains(p))
}

proof fn lemma_scan_reads(
    list: Seq<PointOffsetType>,
    limit: nat,
    admits: PointCheck,
    visited: Set<PointOffsetType>,
) -> (stop: int)
    ensures
        ({
            let found = scan(list, limit, admits, visited).0;
            let seen = scan(list, limit, admits, visited).1;
            &&& 0 <= stop <= list.len()
            &&& seen == visited.union(list.take(stop).to_set())
            &&& found.no_duplicates()
            &&& found.to_set() == new_points(list, stop, admits, visited)
            &&& found.len() <= limit
            &&& stop < list.len() ==> found.len() == limit
        }),
    decreases list.len(),
{
    let found = scan(list, limit, admits, visited).0;
    let seen = scan(list, limit, admits, visited).1;
    if list.len() == 0 {
        assert(list.take(0).to_set() =~= Set::empty());
        assert(seen =~= visited.union(list.take(0).to_set()));
        assert(found.to_set() =~= new_points(list, 0, admits, visited));
        0
    } else {
        let head = list.drop_last();
        let stop = lemma_scan_reads(head, limit, admits, visited);
        let before = scan(head, limit, admits, visited).0;
        let seen_before = scan(head, limit, admits, visited).1;
        let point = list.last();
        if before.len() >= limit {
            assert(head.take(stop) =~= list.take(stop));
            stop
        } else {
            let n = list.len() as int;
            assert(stop == head.len());
            assert(head.take(stop) =~= head);
            assert(list.take(n) =~= head.push(point));
            assert forall|p: PointOffsetType| #[trigger]
                list.take(n).to_set().contains(p) <==> (head.to_set().contains(p) || p
                == point) by {
                if head.contains(p) {
                    let i = choose|i: int| 0 <= i < head.len() && head[i] == p;
                    assert(list.take(n)[i] == p);
                }
                if p == point {
                    assert(list.take(n)[n - 1] == p);
                }
            }
            assert(list.take(n).to_set() =~= head.to_set().insert(point));
            assert(seen =~= visited.union(list.take(n).to_set()));
            if seen_before.contains(point) {
                assert(new_points(list, n, admits, visited) =~= new_points(
                    head,
                    stop,
                    admits,
                    visited,
                ));
            } else if admits(point) {
                assert(!before.contains(point)) by {
                    if before.contains(point) {
                        assert(before.to_set().contains(point));
                    }
                }
                assert forall|p: PointOffsetType| #[trigger]
                    found.to_set().contains(p) <==> (before.to_set().contains(p) || p
                    == point) by {
                    if before.contains(p) {
                        let i = choose|i: int| 0 <= i < before.len() && before[i] == p;
                        assert(found[i] == p);
                    }
                    if p == point {
                        assert(found[before.len() as int] == p);
                    }
                }
                assert(found.to_set() =~= before.to_set().insert(point));
                assert(new_points(list, n, admits, visited) =~= new_points(
                    head,
                    stop,
                    admits,
                    visited,
                ).insert(point));
            } else {
                assert(new_points(list, n, admits, visited) =~= new_points(
                    head,
                    stop,
                    admits,
                    visited,
                ));
            }
            n
        }
    }
}

proof fn lemma_offer_all_outcome(state: SearchState, ef: nat, points: Seq<ScoredPointOffset>)
    requires
        is_ranked(state.nearest),
        state.nearest.len() <= ef,
        distinct_points(points),
        forall|i: int|
            0 <= i < points.len() ==> !lists_point(state.nearest, (#[trigger] points[i]).idx),
    ensures
        ({
            let after = state.offer_all(ef, points);
            &&& is_ranked(after.nearest)
            &&& after.nearest.len() <= ef
            &&& after.visited == state.visited
            &&& after.candidates.len() >= state.candidates.len()
            &&& forall|i: int|
                0 <= i < state.candidates.len() ==> #[trigger] after.candidates[i]
                    == state.candidates[i]
            &&& forall|i: int|
                state.candidates.len() <= i < after.candidates.len() ==> lists_point(
                    points,
                    #[trigger] after.candidates[i],
                )
            &&& forall|i: int|
                0 <= i < points.len() ==> lists_point(after.nearest, (#[trigger] points[i]).idx)
                    || after.nearest.len() == ef && all_at_least(
                    after.nearest,
                    points[i].score as int,
                )
            &&& forall|i: int|
                0 <= i < after.nearest.len() ==> state.nearest.contains(
                    #[trigger] after.nearest[i],
                ) || points.contains(after.nearest[i]) && after.candidates.contains(
                    after.nearest[i].idx,
                )
        }),
    decreases points.len(),
{
    if points.len() > 0 {
        let head = points.drop_last();
        let x = points[points.len() - 1];
        assert forall|i: int| 0 <= i < head.len() implies !lists_point(
            state.nearest,
            (#[trigger] head[i]).idx,
        ) by {
            assert(head[i] == points[i]);
        }
        assert(distinct_points(head)) by {
            assert forall|i: int, j: int| 0 <= i < j < head.len() implies (
            #[trigger] head[i]).idx != (#[trigger] head[j]).idx by {
                assert(points[i].idx != points[j].idx);
            }
        }
        lemma_offer_all_outcome(state, ef, head);
        let before = state.offer_all(ef, head);
        let after = state.offer_all(ef, points);
        let s = before.nearest;
        let r = after.nearest;
        assert(!lists_point(s, x.idx)) by {
            if lists_point(s, x.idx) {
                let i = choose|i: int| 0 <= i < s.len() && (#[trigger] s[i]).idx == x.idx;
                if state.nearest.contains(s[i]) {
                    let j = choose|j: int| 0 <= j < state.nearest.len() && state.nearest[j] == s[i];
                    assert(lists_point(state.nearest, x.idx));
                } else {
                    let j = choose|j: int| 0 <= j < head.len() && head[j] == s[i];
                    assert(points[j].idx != points[points.len() - 1].idx);
                }
            }
        }
        lemma_offered_keeps_order(s, ef, x);
        lemma_offered_leaves_out(s, ef, x);
        assert forall|i: int|
            state.candidates.len() <= i < after.candidates.len() implies lists_point(
            points,
            #[trigger] after.candidates[i],
        ) by {
            if i < before.candidates.len() {
                assert(after.candidates[i] == before.candidates[i]);
                let j = choose|j: int|
                    0 <= j < head.len() && (#[trigger] head[j]).idx == before.candidates[i];
                assert(points[j].idx == after.candidates[i]);
            } else {
                assert(points[points.len() - 1].idx == after.candidates[i]);
            }
        }
        assert forall|i: int| 0 <= i < points.len() implies lists_point(
            r,
            (#[trigger] points[i]).idx,
        ) || r.len() == ef && all_at_least(r, points[i].score as int) by {
            if i < head.len() {
                assert(head[i] == points[i]);
                if lists_point(s, head[i].idx) {
                    let j = choose|j: int| 0 <= j < s.len() && (#[trigger] s[j]).idx == head[i].idx;
                    if state.nearest.contains(s[j]) {
                        let k = choose|k: int|
                            0 <= k < state.nearest.len() && state.nearest[k] == s[j];
                        assert(lists_point(state.nearest, points[i].idx));
                    } else {
                        let k = choose|k: int| 0 <= k < head.len() && head[k] == s[j];
                        if k < i {
                            assert(head[k].idx != head[i].idx);
                        } else if i < k {
                            assert(head[i].idx != head[k].idx);
                        }
                        assert(s[j] == points[i]);
                    }
                } else if ef > 0 {
                    assert(s[s.len() - 1].score >= points[i].score);
                }
            }
        }
        assert forall|i: int| 0 <= i < r.len() implies state.nearest.contains(#[trigger] r[i])
            || points.contains(r[i]) && after.candidates.contains(r[i].idx) by {
            lemma_offered_contains(s, ef, x, i);
            if s.contains(r[i]) {
                let j = choose|j: int| 0 <= j < s.len() && s[j] == r[i];
                if !state.nearest.contains(s[j]) {
                    let k = choose|k: int| 0 <= k < head.len() && head[k] == s[j];
                    assert(points[k] == r[i]);
                    let c = choose|c: int|
                        0 <= c < before.candidates.len() && before.candidates[c] == s[j].idx;
                    assert(after.candidates[c] == r[i].idx);
                }
            } else {
                assert(r[i] == x);
                assert(points[points.len() - 1] == x);
                assert(after.candidates[after.candidates.len() - 1] == x.idx);
            }
        }
    }
}

/// What follows from one expansion of a search: the links of the last candidate were read
/// from the first on, up to `stop`. Reading ends early only once as many new admitted points
/// were come across as links are wanted on the level. The other candidates stay as they
/// are, and only such new points come behind them. Each new point is among the nearest
/// now, or these are `ef` points of which none is farther; a new one among the nearest is
/// a candidate too.
pub open spec fn is_expanded(
    list: Seq<PointOffsetType>,
    limit: nat,
    scoring: Scoring,
    ef: nat,
    before: SearchState,
    after: SearchState,
    stop: int,
) -> bool {
    let new = new_points(list, stop, scoring.admits, before.visited);
    let left = before.candidates.len() - 1;
    &&& 0 <= stop <= list.len()
    &&& after.visited == before.visited.union(list.take(stop).to_set())
    &&& new.finite()
    &&& new.len() <= limit
    &&& stop < list.len() ==> new.len() == limit
    &&& after.candidates.len() >= left
    &&& forall|i: int|
        0 <= i < left ==> #[trigger] after.candidates[i] == before.candidates[i]
    &&& forall|i: int|
        left <= i < after.candidates.len() ==> new.contains(#[trigger] after.candidates[i])
    &&& forall|p: PointOffsetType| #[trigger]
        new.contains(p) ==> lists_point(after.nearest, p) || after.nearest.len() == ef
            && all_at_least(after.nearest, (scoring.query)(p) as int)
    &&& forall|i: int|
        0 <= i < after.nearest.len() ==> before.nearest.contains(#[trigger] after.nearest[i]) || {
            &&& new.contains(after.nearest[i].idx)
            &&& after.nearest[i].score == (scoring.query)(after.nearest[i].idx)
            &&& after.candidates.contains(after.nearest[i].idx)
        }
}

/// A search goes on with the last candidate, and reads up to `m` new admitted points from
/// its list, on the lowest level `m0`.
pub proof fn law_search_expands_the_last_candidate(
    graph: Graph,
    level: int,
    scoring: Scoring,
    ef: nat,
    state: SearchState,
) -> (stop: int)
    requires
        state.candidates.len() > 0,
        state.nearest.len() <= ef,
        forall|i: int, j: int|
            0 <= i <= j < state.nearest.len() ==> (#[trigger] state.nearest[i]).score >= (
            #[trigger] state.nearest[j]).score,
        forall|i: int|
            0 <= i < state.nearest.len() ==> state.visited.contains(
                (#[trigger] state.nearest[i]).idx,
            ),
    ensures
        is_expanded(
            graph.links[state.candidates.last() as int][level],
            if level == 0 {
                graph.m0
            } else {
                graph.m
            },
            scoring,
            ef,
            state,
            graph.layer(graph.links, level, scoring).expand(ef, state),
            stop,
        ),
{
    let layer = graph.layer(graph.links, level, scoring);
    let list = graph.links[state.candidates.last() as int][level];
    let stop = lemma_scan_reads(list, layer.m, scoring.admits, state.visited);
    let found = scan(list, layer.m, scoring.admits, state.visited).0;
    let seen = scan(list, layer.m, scoring.admits, state.visited).1;
    let new = new_points(list, stop, scoring.admits, state.visited);
    let rest = SearchState {
        nearest: state.nearest,
        candidates: state.candidates.drop_last(),
        visited: seen,
    };
    let points = scoring.scored(found);
    found.unique_seq_to_set();
    assert forall|i: int| 0 <= i < points.len() implies new.contains((#[trigger] points[i]).idx)
        && points[i].idx == found[i] && points[i].score == (scoring.query)(found[i]) by {
        assert(found.to_set().contains(found[i]));
    }
    assert forall|i: int| 0 <= i < points.len() implies !lists_point(
        rest.nearest,
        (#[trigger] points[i]).idx,
    ) by {
        if lists_point(rest.nearest, points[i].idx) {
            let j = choose|j: int|
                0 <= j < rest.nearest.len() && (#[trigger] rest.nearest[j]).idx == points[i].idx;
            assert(state.visited.contains(state.nearest[j].idx));
            assert(new.contains(points[i].idx));
        }
    }
    lemma_offer_all_outcome(rest, ef, points);
    let after = layer.expand(ef, state);
    assert(after == rest.offer_all(ef, points));
    assert forall|i: int| rest.candidates.len() <= i < after.candidates.len() implies new.contains(
        #[trigger] after.candidates[i],
    ) by {
        let j = choose|j: int|
            0 <= j < points.len() && (#[trigger] points[j]).idx == after.candidates[i];
    }
    assert forall|p: PointOffsetType| #[trigger] new.contains(p) implies lists_point(
        after.nearest,
        p,
    ) || after.nearest.len() == ef && all_at_least(after.nearest, (scoring.query)(p) as int) by {
        assert(found.to_set().contains(p));
        let i = choose|i: int| 0 <= i < found.len() && found[i] == p;
        assert(points[i].idx == p);
    }
    assert forall|i: int| 0 <= i < after.nearest.len() implies state.nearest.contains(
        #[trigger] after.nearest[i],
    ) || {
        &&& new.contains(after.nearest[i].idx)
        &&& after.nearest[i].score == (scoring.query)(after.nearest[i].idx)
        &&& after.candidates.contains(after.nearest[i].idx)
    } by {
        if !state.nearest.contains(after.nearest[i]) {
            let j = choose|j: int| 0 <= j < points.len() && points[j] == after.nearest[i];
            assert(new.contains(points[j].idx));
        }
    }
    stop
}

/// Whether `at` gives, rising, where in a list the new admitted points stand that an
/// expansion takes: each point where it occurs first, from the first one on, up to a limit.
pub open spec fn are_taken_at(
    at: Seq<int>,
    list: Seq<PointOffsetType>,
    limit: nat,
    admits: PointCheck,
    visited: Set<PointOffsetType>,
) -> bool {
    &&& at.len() <= limit
    &&& forall|i: int|
        0 <= i < at.len() ==> 0 <= #[trigger] at[i] < list.len() && is_new_at(
            list,
            admits,
            visited,
            at[i],
        )
    &&& forall|i: int, j: int| 0 <= i < j < at.len() ==> #[trigger] at[i] < #[trigger] at[j]
    &&& forall|k: int|
        0 <= k < list.len() && #[trigger] is_new_at(list, admits, visited, k) && !at.contains(k)
            ==> at.len() == limit && forall|i: int| 0 <= i < at.len() ==> #[trigger] at[i] < k
}

/// Whether the point at an index of the list is admitted, was not visited before, and does
/// not occur earlier in the list.
pub open spec fn is_new_at(
    list: Seq<PointOffsetType>,
    admits: PointCheck,
    visited: Set<PointOffsetType>,
    at: int,
) -> bool {
    &&& admits(list[at])
    &&& !visited.contains(list[at])
    &&& forall|k: int| 0 <= k < at ==> #[trigger] list[k] != list[at]
}

proof fn lemma_scan_indices(
    list: Seq<PointOffsetType>,
    limit: nat,
    admits: PointCheck,
    visited: Set<PointOffsetType>,
) -> (at: Seq<int>)
    ensures
        are_taken_at(at, list, limit, admits, visited),
        at.len() == scan(list, limit, admits, visited).0.len(),
        forall|i: int|
            0 <= i < at.len() ==> list[#[trigger] at[i]] == scan(
                list,
                limit,
                admits,
                visited,
            ).0[i],
    decreases list.len(),
{
    let found = scan(list, limit, admits, visited).0;
    if list.len() == 0 {
        Seq::empty()
    } else {
        let head = list.drop_last();
        let last = list.len() - 1;
        let point = list[last];
        let at = lemma_scan_indices(head, limit, admits, visited);
        let before = scan(head, limit, admits, visited).0;
        let seen = scan(head, limit, admits, visited).1;
        let stop = lemma_scan_reads(head, limit, admits, visited);
        assert forall|k: int| 0 <= k < last implies (#[trigger] is_new_at(list, admits, visited, k)
            <==> is_new_at(head, admits, visited, k)) by {
            assert(list[k] == head[k]);
            assert(forall|j: int| 0 <= j < k ==> #[trigger] list[j] == head[j]);
        }
        assert forall|i: int| 0 <= i < at.len() implies 0 <= #[trigger] at[i] < last && is_new_at(
            list,
            admits,
            visited,
            at[i],
        ) by {
            assert(is_new_at(head, admits, visited, at[i]));
        }
        assert(!at.contains(last));
        if before.len() < limit {
            assert(stop == head.len());
            assert(head.take(stop) =~= head);
            assert(is_new_at(list, admits, visited, last) <==> admits(point) && !seen.contains(
                point,
            )) by {
                if head.contains(point) {
                    let k = choose|k: int| 0 <= k < head.len() && head[k] == point;
                    assert(list[k] == point);
                    assert(head.to_set().contains(point));
                } else {
                    assert(!head.to_set().contains(point));
                    assert forall|k: int| 0 <= k < last implies #[trigger] list[k] != point by {
                        assert(head[k] == list[k]);
                    }
                }
            }
        }
        if before.len() < limit && admits(point) && !seen.contains(point) {
            let longer = at.push(last);
            assert forall|k: int|
                0 <= k < list.len() && #[trigger] is_new_at(list, admits, visited, k)
                    && !longer.contains(k) implies longer.len() == limit && forall|i: int|
                0 <= i < longer.len() ==> #[trigger] longer[i] < k by {
                assert(longer[at.len() as int] == last);
                if at.contains(k) {
                    let i = choose|i: int| 0 <= i < at.len() && at[i] == k;
                    assert(longer[i] == k);
                }
                assert(is_new_at(head, admits, visited, k));
            }
            assert forall|i: int, j: int| 0 <= i < j < longer.len() implies #[trigger] longer[i]
                < #[trigger] longer[j] by {
                assert(longer[i] == at[i]);
                if j < at.len() {
                    assert(longer[j] == at[j]);
                }
            }
            assert forall|i: int| 0 <= i < longer.len() implies list[#[trigger] longer[i]]
                == found[i] by {
                if i < at.len() {
                    assert(longer[i] == at[i]);
                    assert(head[at[i]] == before[i]);
                }
            }
            longer
        } else {
            assert forall|k: int|
                0 <= k < list.len() && #[trigger] is_new_at(list, admits, visited, k)
                    && !at.contains(k) implies at.len() == limit && forall|i: int|
                0 <= i < at.len() ==> #[trigger] at[i] < k by {
                if k < last {
                    assert(is_new_at(head, admits, visited, k));
                }
            }
            assert forall|i: int| 0 <= i < at.len() implies list[#[trigger] at[i]] == found[i] by {
                assert(head[at[i]] == before[i]);
            }
            at
        }
    }
}

/// Whether `after` is the state after a point was offered to the nearest of `before`. If
/// there is room, or the point is closer than the last of them, it comes in, and is a
/// candidate from then on. Else nothing changes.
pub open spec fn is_offered(
    before: SearchState,
    ef: nat,
    x: ScoredPointOffset,
    after: SearchState,
) -> bool {
    if before.nearest.len() < ef {
        &&& after.visited == before.visited
        &&& after.candidates == before.candidates.push(x.idx)
        &&& exists|at: int| is_inserted_at(before.nearest, x, after.nearest, at)
    } else if before.nearest.len() > 0 && x.score > before.nearest.last().score {
        &&& after.visited == before.visited
        &&& after.candidates == before.candidates.push(x.idx)
        &&& exists|at: int| is_inserted_at(before.nearest.drop_last(), x, after.nearest, at)
    } else {
        after == before
    }
}

proof fn lemma_offer_is_offered(state: SearchState, ef: nat, x: ScoredPointOffset)
    requires
        forall|i: int|
            0 <= i < state.nearest.len() ==> (#[trigger] state.nearest[i]).idx != x.idx,
    ensures
        is_offered(state, ef, x, state.offer(ef, x)),
{
    let s = state.nearest;
    let after = state.offer(ef, x);
    law_only_closer_points_are_followed(s, ef, x);
    law_push_comes_after_equals(s, ef, x);
    assert(after.nearest == offered(s, ef, x));
    if s.len() < ef {
        let at = choose|at: int| is_inserted_at(s, x, offered(s, ef, x), at);
        assert(is_inserted_at(s, x, after.nearest, at));
    } else if s.len() > 0 && x.score > s.last().score {
        assert(x.priority() > s.last().priority());
        let at = choose|at: int| is_inserted_at(s.drop_last(), x, offered(s, ef, x), at);
        assert(is_inserted_at(s.drop_last(), x, after.nearest, at));
    } else {
        assert(after.nearest == s);
        assert(after.candidates == state.candidates);
        assert(after.visited == state.visited);
    }
}

/// An expansion offers the new admitted points of the list one after the other, in the
/// order of the list. The points stand at the returned indices, and the states are those
/// in between.
pub proof fn law_expansion_offers_in_order(
    graph: Graph,
    level: int,
    scoring: Scoring,
    ef: nat,
    state: SearchState,
) -> (r: (Seq<int>, Seq<SearchState>))
    requires
        state.candidates.len() > 0,
        state.nearest.len() <= ef,
        forall|i: int, j: int|
            0 <= i <= j < state.nearest.len() ==> (#[trigger] state.nearest[i]).score >= (
            #[trigger] state.nearest[j]).score,
        forall|i: int|
            0 <= i < state.nearest.len() ==> state.visited.contains(
                (#[trigger] state.nearest[i]).idx,
            ),
    ensures
        ({
            let list = graph.links[state.candidates.last() as int][level];
            let limit = if level == 0 {
                graph.m0
            } else {
                graph.m
            };
            let after = graph.layer(graph.links, level, scoring).expand(ef, state);
            let at = r.0;
            let states = r.1;
            &&& are_taken_at(at, list, limit, scoring.admits, state.visited)
            &&& states.len() == at.len() + 1
            &&& states[0].nearest == state.nearest
            &&& states[0].candidates == state.candidates.take(state.candidates.len() - 1)
            &&& states[0].visited == after.visited
            &&& states.last() == after
            &&& forall|i: int|
                0 <= i < at.len() ==> is_offered(
                    states[i],
                    ef,
                    ScoredPointOffset {
                        idx: list[#[trigger] at[i]],
                        score: (scoring.query)(list[at[i]]),
                    },
                    states[i + 1],
                )
        }),
{
    let layer = graph.layer(graph.links, level, scoring);
    let list = graph.links[state.candidates.last() as int][level];
    let limit = if level == 0 {
        graph.m0
    } else {
        graph.m
    };
    let at = lemma_scan_indices(list, limit, scoring.admits, state.visited);
    let stop = lemma_scan_reads(list, limit, scoring.admits, state.visited);
    let found = scan(list, limit, scoring.admits, state.visited).0;
    let seen = scan(list, limit, scoring.admits, state.visited).1;
    let rest = SearchState {
        nearest: state.nearest,
        candidates: state.candidates.drop_last(),
        visited: seen,
    };
    let points = scoring.scored(found);
    let after = layer.expand(ef, state);
    let states = Seq::new(
        (found.len() + 1) as nat,
        |i: int| rest.offer_all(ef, points.take(i)),
    );
    assert(after == rest.offer_all(ef, points));
    assert(points.take(found.len() as int) =~= points);
    assert(points.take(0) =~= Seq::empty());
    lemma_offer_all_visited(rest, ef, points, seen);
    assert(state.candidates.drop_last() =~= state.candidates.take(state.candidates.len() - 1));
    assert forall|i: int| 0 <= i < points.len() implies !lists_point(
        rest.nearest,
        (#[trigger] points[i]).idx,
    ) by {
        if lists_point(rest.nearest, points[i].idx) {
            let j = choose|j: int|
                0 <= j < rest.nearest.len() && (#[trigger] rest.nearest[j]).idx == points[i].idx;
            assert(state.visited.contains(state.nearest[j].idx));
            assert(list[at[i]] == found[i]);
        }
    }
    assert forall|i: int| 0 <= i < at.len() implies is_offered(
        states[i],
        ef,
        ScoredPointOffset { idx: list[#[trigger] at[i]], score: (scoring.query)(list[at[i]]) },
        states[i + 1],
    ) by {
        let x = points[i];
        assert(list[at[i]] == found[i]);
        let head = points.take(i);
        assert(points.take(i + 1).drop_last() =~= head);
        assert(states[i + 1] == states[i].offer(ef, x));
        assert(distinct_points(head)) by {
            assert forall|a: int, b: int| 0 <= a < b < head.len() implies (
            #[trigger] head[a]).idx != (#[trigger] head[b]).idx by {
                assert(found[a] != found[b]);
            }
        }
        assert forall|a: int| 0 <= a < head.len() implies !lists_point(
            rest.nearest,
            (#[trigger] head[a]).idx,
        ) by {
            assert(head[a] == points[a]);
        }
        lemma_offer_all_outcome(rest, ef, head);
        let s = states[i].nearest;
        assert forall|a: int| 0 <= a < s.len() implies (#[trigger] s[a]).idx != x.idx by {
            if rest.nearest.contains(s[a]) {
                let b = choose|b: int| 0 <= b < rest.nearest.len() && rest.nearest[b] == s[a];
                if s[a].idx == x.idx {
                    assert(lists_point(rest.nearest, points[i].idx));
                }
            } else {
                let b = choose|b: int| 0 <= b < head.len() && head[b] == s[a];
                assert(found[b] != found[i]);
            }
        }
        lemma_offer_is_offered(states[i], ef, x);
    }
    (at, states)
}

// The whole search

proof fn lemma_expand_times_chain(layer: Layer, ef: nat, state: SearchState, times: nat) -> (states:
    Seq<SearchState>)
    ensures
        is_chain(layer, ef, states),
        states[0] == state,
        states.last() == layer.expand_times(ef, state, times),
        states.last().candidates.len() == 0 || states.len() == times + 1,
    decreases times,
{
    if times == 0 || state.candidates.len() == 0 {
        seq![state]
    } else {
        let next = layer.expand(ef, state);
        let rest = lemma_expand_times_chain(layer, ef, next, (times - 1) as nat);
        let states = seq![state] + rest;
        lemma_chain_begins_earlier(layer, ef, state, rest);
        assert(states.last() == rest.last());
        states
    }
}

proof fn lemma_chain_begins_earlier(
    layer: Layer,
    ef: nat,
    state: SearchState,
    rest: Seq<SearchState>,
)
    requires
        is_chain(layer, ef, rest),
        state.candidates.len() > 0,
        rest[0] == layer.expand(ef, state),
    ensures
        is_chain(layer, ef, seq![state] + rest),
{
    let states = seq![state] + rest;
    assert forall|i: int| 0 <= i < states.len() - 1 implies (
    #[trigger] states[i]).candidates.len() > 0 by {
        if i > 0 {
            assert(states[i] == rest[i - 1]);
        }
    }
    assert forall|i: int| 1 <= i < states.len() implies #[trigger] states[i] == layer.expand(
        ef,
        states[i - 1],
    ) by {
        assert(states[i] == rest[i - 1]);
        if i > 1 {
            assert(states[i - 1] == rest[i - 2]);
        }
    }
}

/// Whether each state follows from the one before, which has candidates, by an expansion.
pub open spec fn is_chain(layer: Layer, ef: nat, states: Seq<SearchState>) -> bool {
    &&& states.len() > 0
    &&& forall|i: int|
        0 <= i < states.len() - 1 ==> (#[trigger] states[i]).candidates.len() > 0
    &&& forall|i: int|
        1 <= i < states.len() ==> #[trigger] states[i] == layer.expand(ef, states[i - 1])
}

/// A search expands one candidate after the other for as long as there is one. At first
/// the entry is the only candidate, the only point come across, and, if any is asked for,
/// the nearest. What is nearest at the end was found.
pub proof fn law_search_expands_all_candidates(
    graph: Graph,
    level: int,
    scoring: Scoring,
    ef: nat,
    entry: ScoredPointOffset,
) -> (states: Seq<SearchState>)
    requires
        links_wf(graph.links),
        has_level(graph.links, entry.idx as int, level),
    ensures
        is_chain(graph.layer(graph.links, level, scoring), ef, states),
        states[0].nearest == if ef > 0 {
            seq![entry]
        } else {
            Seq::empty()
        },
        states[0].candidates == seq![entry.idx],
        states[0].visited == set![entry.idx],
        states.last().candidates.len() == 0,
        states.last().nearest == graph.layer(graph.links, level, scoring).search(ef, entry),
{
    let layer = graph.layer(graph.links, level, scoring);
    let start = search_start(entry, ef);
    let none = Seq::<ScoredPointOffset>::empty();
    law_push_comes_after_equals(none, ef, entry);
    if ef > 0 {
        let at = choose|at: int| is_inserted_at(none, entry, offered(none, ef, entry), at);
        assert(start.nearest =~= seq![entry]);
    } else {
        assert(start.nearest =~= none);
    }
    assert(start.visited =~= set![entry.idx]);
    law_search_leaves_no_candidates(layer, ef, entry);
    lemma_expand_times_chain(layer, ef, start, start.candidates.len() + layer.links.len())
}

/// From any state, a search goes on by expansions until no candidate is left, or there were
/// as many expansions as there are candidates and points.
pub proof fn law_search_goes_on_from_any_state(
    graph: Graph,
    level: int,
    scoring: Scoring,
    ef: nat,
    state: SearchState,
) -> (states: Seq<SearchState>)
    ensures
        is_chain(graph.layer(graph.links, level, scoring), ef, states),
        states[0] == state,
        states.last() == graph.layer(graph.links, level, scoring).search_end(ef, state),
        states.last().candidates.len() == 0 || states.len() == state.candidates.len()
            + graph.links.len() + 1,
{
    let layer = graph.layer(graph.links, level, scoring);
    lemma_expand_times_chain(layer, ef, state, state.candidates.len() + layer.links.len())
}

// Greedy search

proof fn lemma_followed_rank(list: Seq<PointOffsetType>, admits: PointCheck, at: int)
    requires
        0 <= at < list.len(),
        admits(list[at]),
    ensures
        list.take(at).filter(admits).len() < list.filter(admits).len(),
        list.filter(admits)[list.take(at).filter(admits).len() as int] == list[at],
{
    let a = list.take(at);
    let one = seq![list[at]];
    let b = list.skip(at + 1);
    assert(a + one + b =~= list);
    Seq::filter_distributes_over_add(a + one, b, admits);
    Seq::filter_distributes_over_add(a, one, admits);
    reveal(Seq::filter);
    assert(one.drop_last() =~= Seq::empty());
    assert(one.filter(admits) =~= one);
}

proof fn lemma_rank_is_followed(list: Seq<PointOffsetType>, admits: PointCheck, r: int) -> (at: int)
    requires
        0 <= r < list.filter(admits).len(),
    ensures
        0 <= at < list.len(),
        admits(list[at]),
        list.take(at).filter(admits).len() == r,
        list.filter(admits)[r] == list[at],
    decreases list.len(),
{
    reveal(Seq::filter);
    let head = list.drop_last();
    if r < head.filter(admits).len() {
        let at = lemma_rank_is_followed(head, admits, r);
        assert(head.take(at) =~= list.take(at));
        at
    } else {
        let at = list.len() - 1;
        assert(list.take(at) =~= head);
        at
    }
}

/// Whether the greedy search goes on from one point to the other: to the first of the
/// closest among the followed links of the point, which is closer than the point.
pub open spec fn is_best_step(
    list: Seq<PointOffsetType>,
    limit: nat,
    scoring: Scoring,
    from: ScoredPointOffset,
    to: ScoredPointOffset,
) -> bool {
    &&& to.score > from.score
    &&& to.score == (scoring.query)(to.idx)
    &&& exists|at: int| #[trigger]
        is_followed(list, limit, scoring.admits, at) && to.idx == list[at] && forall|i: int|
            #[trigger]
            is_followed(list, limit, scoring.admits, i) ==> (scoring.query)(list[i]) <= to.score
                && (i < at ==> (scoring.query)(list[i]) < to.score)
}

/// Whether no followed link leads to a point with a higher score.
pub open spec fn is_local_best(
    list: Seq<PointOffsetType>,
    limit: nat,
    scoring: Scoring,
    score: ScoreType,
) -> bool {
    forall|i: int| #[trigger]
        is_followed(list, limit, scoring.admits, i) ==> (scoring.query)(list[i]) <= score
}

/// Whether the greedy search on a level takes this way: by best steps, up to where there
/// is none.
pub open spec fn is_ascent(
    links: Links,
    level: int,
    limit: nat,
    scoring: Scoring,
    way: Seq<ScoredPointOffset>,
) -> bool {
    &&& way.len() > 0
    &&& forall|i: int|
        1 <= i < way.len() ==> is_best_step(
            links[way[i - 1].idx as int][level],
            limit,
            scoring,
            way[i - 1],
            #[trigger] way[i],
        )
    &&& is_local_best(links[way.last().idx as int][level], limit, scoring, way.last().score)
}

proof fn lemma_climb_is_ascent(layer: Layer, current: ScoredPointOffset) -> (way: Seq<
    ScoredPointOffset,
>)
    ensures
        is_ascent(layer.links, layer.level, layer.m, layer.scoring, way),
        way[0] == current,
        way.last() == layer.climb(current),
    decreases ScoreType::MAX - current.score,
{
    let scoring = layer.scoring;
    let admits = scoring.admits;
    let list = layer.neighbours(current.idx);
    let all = list.filter(admits);
    let points = layer.next_points(current.idx);
    let next = best_of(current, points);
    law_best_is_the_first_of_the_closest(current, points);
    assert forall|i: int| #[trigger] is_followed(list, layer.m, admits, i) implies ({
        let r = list.take(i).filter(admits).len() as int;
        r < points.len() && points[r].idx == list[i] && points[r].score == (scoring.query)(list[i])
    }) by {
        lemma_followed_rank(list, admits, i);
    }
    if next.score > current.score {
        assert(!forall|i: int|
            0 <= i < points.len() ==> (#[trigger] points[i]).score <= current.score);
        let at = choose|at: int|
            0 <= at < points.len() && next == #[trigger] points[at] && next.score > current.score
                && (forall|i: int|
                0 <= i < points.len() ==> (#[trigger] points[i]).score <= next.score) && (forall|
                i: int,
            | 0 <= i < at ==> (#[trigger] points[i]).score < next.score);
        let k = lemma_rank_is_followed(list, admits, at);
        assert(is_followed(list, layer.m, admits, k));
        assert(points[at].idx == all[at]);
        assert forall|i: int| #[trigger] is_followed(list, layer.m, admits, i) implies (
        scoring.query)(list[i]) <= next.score && (i < k ==> (scoring.query)(list[i])
            < next.score) by {
            let r = list.take(i).filter(admits).len() as int;
            assert(points[r].score <= next.score);
            if i < k {
                lemma_followed_rank(list.take(k), admits, i);
                assert(list.take(k).take(i) =~= list.take(i));
                assert(points[r].score < next.score);
            }
        }
        let rest = lemma_climb_is_ascent(layer, next);
        let way = seq![current] + rest;
        assert forall|i: int| 1 <= i < way.len() implies is_best_step(
            layer.links[way[i - 1].idx as int][layer.level],
            layer.m,
            scoring,
            way[i - 1],
            #[trigger] way[i],
        ) by {
            assert(way[i] == rest[i - 1]);
            if i == 1 {
                assert(is_best_step(list, layer.m, scoring, current, next));
            } else {
                assert(way[i - 1] == rest[i - 2]);
            }
        }
        assert(way.last() == rest.last());
        way
    } else {
        assert forall|i: int| #[trigger] is_followed(list, layer.m, admits, i) implies (
        scoring.query)(list[i]) <= current.score by {
            let r = list.take(i).filter(admits).len() as int;
            if points[r].score > current.score {
                let at = choose|at: int|
                    0 <= at < points.len() && next == #[trigger] points[at] && next.score
                        > current.score;
            }
        }
        seq![current]
    }
}

/// A greedy descent goes through the levels from `top` down to the one above `target`, on
/// each by best steps from where it ended on the level before, up to where there is none.
/// On a level, up to `m` admitted links of a point are looked at, `m0` on the lowest.
pub proof fn law_descent_takes_the_best_steps(
    graph: Graph,
    start: ScoredPointOffset,
    top: int,
    target: int,
    scoring: Scoring,
) -> (ways: Seq<Seq<ScoredPointOffset>>)
    ensures
        top <= target ==> graph.descend(start, top, target, scoring) == start,
        top > target ==> {
            &&& ways.len() == top - target
            &&& ways[0][0] == start
            &&& ways.last().last() == graph.descend(start, top, target, scoring)
            &&& forall|i: int| 1 <= i < ways.len() ==> (#[trigger] ways[i])[0] == ways[i - 1].last()
            &&& forall|i: int|
                0 <= i < ways.len() ==> is_ascent(
                    graph.links,
                    top - i,
                    if top - i == 0 {
                        graph.m0
                    } else {
                        graph.m
                    },
                    scoring,
                    #[trigger] ways[i],
                )
        },
    decreases top - target,
{
    if top <= target {
        Seq::empty()
    } else {
        let layer = graph.layer(graph.links, top, scoring);
        let first = lemma_climb_is_ascent(layer, start);
        let next = layer.climb(start);
        let rest = law_descent_takes_the_best_steps(graph, next, top - 1, target, scoring);
        if top - 1 <= target {
            let ways = seq![first];
            assert(graph.descend(next, top - 1, target, scoring) == next);
            ways
        } else {
            let ways = seq![first] + rest;
            assert forall|i: int| 0 <= i < ways.len() implies is_ascent(
                graph.links,
                top - i,
                if top - i == 0 {
                    graph.m0
                } else {
                    graph.m
                },
                scoring,
                #[trigger] ways[i],
            ) by {
                if i > 0 {
                    assert(ways[i] == rest[i - 1]);
                    assert(top - 1 - (i - 1) == top - i);
                }
            }
            assert forall|i: int| 1 <= i < ways.len() implies (#[trigger] ways[i])[0] == ways[i
                - 1].last() by {
                assert(ways[i] == rest[i - 1]);
                if i > 1 {
                    assert(ways[i - 1] == rest[i - 2]);
                }
            }
            assert(ways.last() == rest.last());
            ways
        }
    }
}

/// Where a greedy descent ends, no admitted point in the list of the last level has a
/// higher score against the query, if the list has at most `m` points (on the lowest level
/// `m0`).
pub proof fn law_descent_ends_at_the_closest_of_the_list(
    graph: Graph,
    start: ScoredPointOffset,
    top: int,
    target: int,
    scoring: Scoring,
    i: int,
)
    requires
        top > target,
        graph.links[graph.descend(start, top, target, scoring).idx as int][target + 1].len()
            <= if target + 1 == 0 {
            graph.m0
        } else {
            graph.m
        },
        0 <= i < graph.links[graph.descend(start, top, target, scoring).idx as int][target
            + 1].len(),
        (scoring.admits)(
            graph.links[graph.descend(start, top, target, scoring).idx as int][target + 1][i],
        ),
    ensures
        (scoring.query)(
            graph.links[graph.descend(start, top, target, scoring).idx as int][target + 1][i],
        ) <= graph.descend(start, top, target, scoring).score,
        graph.descend(start, top, target, scoring).score >= start.score,
{
    let end = graph.descend(start, top, target, scoring);
    let ways = law_descent_takes_the_best_steps(graph, start, top, target, scoring);
    let last = ways.len() - 1;
    let limit = if target + 1 == 0 {
        graph.m0
    } else {
        graph.m
    };
    assert(ways[last].last() == end);
    assert(top - last == target + 1);
    assert(is_ascent(graph.links, target + 1, limit, scoring, ways[last]));
    let list = graph.links[end.idx as int][target + 1];
    lemma_short_list_is_followed(list, limit, scoring.admits, i);
    assert(is_followed(list, limit, scoring.admits, i));
    law_descent_gets_no_farther(graph, start, top, target, scoring);
}

} // verus!
