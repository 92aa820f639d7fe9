//! What linking a new point does to the graph. The laws tell by the points that a search
//! on the graph as it was before finds what becomes of each list.

use crate::building_laws::lemma_connected_no_duplicates;
use crate::entry_points::EntryPoint;
use crate::linking_laws::{
    changed_on, connected_all, is_fresh, law_connecting_keeps_the_order,
    law_linking_keeps_higher_lists, law_linking_keeps_levels,
    law_linking_leaves_higher_levels_empty, lemma_linked_down_changes, lemma_linked_on_changes,
    lemma_linking_start, lemma_reachable_is_linked, lemma_unlinked_below, point_ids, prepared,
    unlinked_up_to,
};
use crate::linking_lemmas::{lemma_raised, lemma_selected_from, same_shape};
use crate::list_laws::{
    adopts, has_no_entry, is_diverse_selection, is_first_entry, law_adopting_selects_anew,
    law_adopting_takes_in_a_far_point, law_best_is_the_first_of_the_closest,
    law_connecting_takes_in, law_first_admitted_point_becomes_an_entry,
    law_higher_point_becomes_the_entry, law_selection_is_diverse, law_taking_in, takes_in,
};
use crate::model::{
    adopt_all, adopted, best_of, connect, connect_nearest, connected, farther_than, has_level,
    links_wf, raised, search_start, selected, with_list, Graph, Layer, Links, SearchState,
};
use crate::ranking::{first_index, lemma_first_index, Prioritized};
use crate::scorer::{PairScore, Scoring};
use crate::search_laws::{distinct_points, law_search_result, lists_point};
use crate::search_lemmas::{lemma_best_of, lemma_offered_contains};
use crate::types::{PointOffsetType, ScoreType, ScoredPointOffset};
use vstd::prelude::*;

verus! {

// Search knows nothing but the lists of a level

/// Whether the second layer has all lists of the first.
spec fn same_lists(a: Layer, b: Layer) -> bool {
    &&& a.level == b.level
    &&& a.m == b.m
    &&& a.scoring == b.scoring
    &&& a.links.len() == b.links.len()
    &&& forall|p: int|
        has_level(a.links, p, a.level) ==> #[trigger] b.links[p][b.level] == a.links[p][a.level]
}

proof fn lemma_expand_times_same(a: Layer, b: Layer, ef: nat, state: SearchState, times: nat)
    requires
        same_lists(a, b),
        links_wf(a.links),
        a.holds(state),
    ensures
        b.expand_times(ef, state, times) == a.expand_times(ef, state, times),
    decreases times,
{
    if times > 0 && state.candidates.len() > 0 {
        let point = state.candidates.last();
        assert(a.has_point(state.candidates[state.candidates.len() - 1]));
        assert(b.links[point as int][b.level] == a.links[point as int][a.level]);
        assert(b.expand(ef, state) == a.expand(ef, state));
        a.lemma_expand_holds(ef, state);
        lemma_expand_times_same(a, b, ef, a.expand(ef, state), (times - 1) as nat);
    }
}

proof fn lemma_search_same(a: Layer, b: Layer, ef: nat, entry: ScoredPointOffset)
    requires
        same_lists(a, b),
        links_wf(a.links),
        a.has_point(entry.idx),
    ensures
        b.search(ef, entry) == a.search(ef, entry),
{
    let start = search_start(entry, ef);
    assert forall|i: int| 0 <= i < start.nearest.len() implies a.has_point(
        (#[trigger] start.nearest[i]).idx,
    ) by {
        lemma_offered_contains(Seq::empty(), ef, entry, i);
    }
    lemma_expand_times_same(a, b, ef, start, start.candidates.len() + a.links.len());
}

proof fn lemma_climb_same(a: Layer, b: Layer, current: ScoredPointOffset)
    requires
        same_lists(a, b),
        links_wf(a.links),
        a.has_point(current.idx),
    ensures
        b.climb(current) == a.climb(current),
    decreases ScoreType::MAX - current.score,
{
    let points = a.next_points(current.idx);
    assert(b.links[current.idx as int][b.level] == a.links[current.idx as int][a.level]);
    assert(b.next_points(current.idx) == points);
    let next = best_of(current, points);
    if next.score > current.score {
        lemma_best_of(current, points);
        a.lemma_next_points_on_level(current.idx);
        let i = choose|i: int| 0 <= i < points.len() && points[i] == next;
        assert(a.has_point(points[i].idx));
        lemma_climb_same(a, b, next);
    }
}

proof fn lemma_descend_same(
    a: Graph,
    b: Graph,
    current: ScoredPointOffset,
    top: int,
    target: int,
    scoring: Scoring,
)
    requires
        a.m == b.m,
        a.m0 == b.m0,
        a.links.len() == b.links.len(),
        links_wf(a.links),
        0 <= target <= top,
        has_level(a.links, current.idx as int, top),
        forall|p: int, l: int|
            has_level(a.links, p, l) ==> #[trigger] b.links[p][l] == a.links[p][l],
    ensures
        b.descend(current, top, target, scoring) == a.descend(current, top, target, scoring),
    decreases top - target,
{
    if top > target {
        let la = a.layer(a.links, top, scoring);
        let lb = b.layer(b.links, top, scoring);
        assert(same_lists(la, lb));
        lemma_climb_same(la, lb, current);
        la.lemma_climb_on_level(current);
        lemma_descend_same(a, b, la.climb(current), top - 1, target, scoring);
    }
}

// The lists of one level, without the heuristic

proof fn lemma_connect_nearest_lists(
    links: Links,
    level: int,
    limit: nat,
    point: PointOffsetType,
    nearest: Seq<ScoredPointOffset>,
    pair: PairScore,
)
    requires
        has_level(links, point as int, level),
        distinct_points(nearest),
        forall|i: int|
            0 <= i < nearest.len() ==> has_level(links, (#[trigger] nearest[i]).idx as int, level)
                && nearest[i].idx != point,
    ensures
        ({
            let after = connect_nearest(links, level, limit, point, nearest, pair);
            &&& after.len() == links.len()
            &&& forall|p: int|
                0 <= p < links.len() ==> (#[trigger] after[p]).len() == links[p].len()
            &&& forall|q: PointOffsetType|
                has_level(links, q as int, level) && q != point ==> (
                #[trigger] after[q as int])[level] == if lists_point(nearest, q) {
                    connected(links[q as int][level], limit, q, point, pair)
                } else {
                    links[q as int][level]
                }
            &&& after[point as int][level] == connected_all(
                links[point as int][level],
                limit,
                point,
                point_ids(nearest),
                pair,
            )
        }),
    decreases nearest.len(),
{
    let after = connect_nearest(links, level, limit, point, nearest, pair);
    if nearest.len() > 0 {
        let head = nearest.drop_last();
        let other = nearest[nearest.len() - 1].idx;
        assert forall|i: int| 0 <= i < head.len() implies has_level(
            links,
            (#[trigger] head[i]).idx as int,
            level,
        ) && head[i].idx != point by {
            assert(head[i] == nearest[i]);
        }
        assert(distinct_points(head)) by {
            assert forall|i: int, j: int| 0 <= i < j < head.len() implies (
            #[trigger] head[i]).idx != (#[trigger] head[j]).idx by {
                assert(nearest[i].idx != nearest[j].idx);
            }
        }
        lemma_connect_nearest_lists(links, level, limit, point, head, pair);
        let before = connect_nearest(links, level, limit, point, head, pair);
        let there = connect(before, level, limit, point, other, pair);
        assert(has_level(links, other as int, level) && other != point);
        assert(before[other as int].len() == links[other as int].len());
        assert(before[point as int].len() == links[point as int].len());
        assert(point_ids(nearest).drop_last() =~= point_ids(head));
        assert(!lists_point(head, other)) by {
            if lists_point(head, other) {
                let i = choose|i: int| 0 <= i < head.len() && (#[trigger] head[i]).idx == other;
                assert(nearest[i].idx != nearest[nearest.len() - 1].idx);
            }
        }
        assert forall|q: PointOffsetType|
            has_level(links, q as int, level) && q != point implies (
        #[trigger] after[q as int])[level] == if lists_point(nearest, q) {
            connected(links[q as int][level], limit, q, point, pair)
        } else {
            links[q as int][level]
        } by {
            assert(there[q as int] == before[q as int]);
            assert(before[q as int].len() == links[q as int].len());
            if q == other {
                assert(nearest[nearest.len() - 1].idx == q);
            } else {
                assert(after[q as int] == before[q as int]);
                if lists_point(head, q) {
                    let i = choose|i: int| 0 <= i < head.len() && (#[trigger] head[i]).idx == q;
                    assert(nearest[i].idx == q);
                } else if lists_point(nearest, q) {
                    let i = choose|i: int|
                        0 <= i < nearest.len() && (#[trigger] nearest[i]).idx == q;
                    assert(head[i].idx == q);
                }
            }
        }
    } else {
        assert(point_ids(nearest) =~= Seq::empty());
    }
}

/// Whether `own` holds the closest of the points found, the closest first: as many as there
/// are, up to a limit, and none twice.
pub open spec fn keeps_closest(
    found: Seq<ScoredPointOffset>,
    limit: nat,
    point: PointOffsetType,
    pair: PairScore,
    own: Seq<PointOffsetType>,
) -> bool {
    &&& own.len() == if found.len() < limit {
        found.len()
    } else {
        limit
    }
    &&& own.no_duplicates()
    &&& forall|i: int, j: int|
        0 <= i <= j < own.len() ==> pair(point, #[trigger] own[i]) >= pair(point, #[trigger] own[j])
    &&& forall|i: int| 0 <= i < own.len() ==> lists_point(found, #[trigger] own[i])
    &&& forall|i: int, j: int|
        0 <= i < found.len() && 0 <= j < own.len() && !own.contains((#[trigger] found[i]).idx)
            ==> pair(point, #[trigger] own[j]) >= pair(point, found[i].idx)
}

proof fn lemma_connected_all_keeps_closest(
    found: Seq<ScoredPointOffset>,
    limit: nat,
    point: PointOffsetType,
    pair: PairScore,
)
    requires
        distinct_points(found),
    ensures
        keeps_closest(
            found,
            limit,
            point,
            pair,
            connected_all(Seq::empty(), limit, point, point_ids(found), pair),
        ),
    decreases found.len(),
{
    let after = connected_all(Seq::empty(), limit, point, point_ids(found), pair);
    if found.len() == 0 {
        assert(point_ids(found) =~= Seq::empty());
    } else {
        let head = found.drop_last();
        let last = found.len() - 1;
        let x = found[last].idx;
        assert(distinct_points(head)) by {
            assert forall|i: int, j: int| 0 <= i < j < head.len() implies (
            #[trigger] head[i]).idx != (#[trigger] head[j]).idx by {
                assert(found[i].idx != found[j].idx);
            }
        }
        lemma_connected_all_keeps_closest(head, limit, point, pair);
        assert(point_ids(found).drop_last() =~= point_ids(head));
        let before = connected_all(Seq::empty(), limit, point, point_ids(head), pair);
        let far = farther_than(point, x, pair);
        let at = first_index(before, far);
        lemma_first_index(before, far);
        assert(after == connected(before, limit, point, x, pair));
        law_connecting_keeps_the_order(before, limit, point, x, pair);
        law_connecting_takes_in(before, limit, point, x, pair);
        law_taking_in(before, limit, point, x, pair, after);
        assert(!before.contains(x)) by {
            if before.contains(x) {
                let i = choose|i: int| 0 <= i < before.len() && before[i] == x;
                assert(lists_point(head, before[i]));
                let j = choose|j: int| 0 <= j < head.len() && (#[trigger] head[j]).idx == x;
                assert(found[j].idx != found[last].idx);
            }
        }
        lemma_connected_no_duplicates(before, limit, point, x, pair);
        assert forall|i: int| 0 <= i < after.len() implies lists_point(
            found,
            #[trigger] after[i],
        ) by {
            if after[i] == x {
                assert(found[last].idx == x);
            } else {
                let j = choose|j: int| 0 <= j < before.len() && before[j] == after[i];
                assert(lists_point(head, before[j]));
                let k = choose|k: int| 0 <= k < head.len() && (#[trigger] head[k]).idx == before[j];
                assert(found[k].idx == after[i]);
            }
        }
        assert forall|i: int, j: int|
            0 <= i < found.len() && 0 <= j < after.len() && !after.contains(
                (#[trigger] found[i]).idx,
            ) implies pair(point, #[trigger] after[j]) >= pair(point, found[i].idx) by {
            let p = found[i].idx;
            if i < last {
                assert(head[i] == found[i]);
                // The list was full, and its points were all at least as close
                if before.contains(p) {
                    let k = choose|k: int| 0 <= k < before.len() && before[k] == p;
                    assert(k == before.len() - 1 && before.len() >= limit);
                    assert(forall|t: int|
                        0 <= t < before.len() ==> pair(point, #[trigger] before[t]) >= pair(
                            point,
                            before[k],
                        ));
                } else {
                    assert(forall|t: int|
                        0 <= t < before.len() ==> pair(point, #[trigger] before[t]) >= pair(
                            point,
                            head[i].idx,
                        ));
                    if before.len() < limit {
                        assert(before.len() == head.len());
                        lemma_all_kept(head, before, i);
                    }
                }
                if after[j] == x {
                    assert(at < before.len());
                    assert(far(before[at]));
                    assert(pair(point, before[at]) >= pair(point, p));
                } else {
                    let t = choose|t: int| 0 <= t < before.len() && before[t] == after[j];
                }
            }
        }
    }
}

/// A list without repetition that has as many points as were found contains all of them.
proof fn lemma_all_kept(found: Seq<ScoredPointOffset>, own: Seq<PointOffsetType>, i: int)
    requires
        distinct_points(found),
        own.no_duplicates(),
        own.len() == found.len(),
        forall|j: int| 0 <= j < own.len() ==> lists_point(found, #[trigger] own[j]),
        0 <= i < found.len(),
    ensures
        own.contains(found[i].idx),
{
    let ids = point_ids(found);
    assert(ids.no_duplicates()) by {
        assert forall|a: int, b: int| 0 <= a < ids.len() && 0 <= b < ids.len() && a != b implies
            ids[a] != ids[b] by {
            if a < b {
                assert(found[a].idx != found[b].idx);
            } else {
                assert(found[b].idx != found[a].idx);
            }
        }
    }
    ids.unique_seq_to_set();
    own.unique_seq_to_set();
    assert forall|p: PointOffsetType| #[trigger]
        own.to_set().contains(p) implies ids.to_set().contains(p) by {
        let j = choose|j: int| 0 <= j < own.len() && own[j] == p;
        assert(lists_point(found, own[j]));
        let k = choose|k: int| 0 <= k < found.len() && (#[trigger] found[k]).idx == p;
        assert(ids[k] == p);
    }
    vstd::set_lib::lemma_subset_equality(own.to_set(), ids.to_set());
    assert(ids[i] == found[i].idx);
    assert(ids.to_set().contains(found[i].idx));
    assert(own.to_set().contains(found[i].idx));
}

// The lists of one level, with the heuristic

proof fn lemma_adopt_all_lists(
    links: Links,
    level: int,
    m: nat,
    point: PointOffsetType,
    others: Seq<PointOffsetType>,
    pair: PairScore,
)
    requires
        others.no_duplicates(),
        forall|i: int|
            0 <= i < others.len() ==> has_level(links, #[trigger] others[i] as int, level)
                && others[i] != point,
    ensures
        ({
            let after = adopt_all(links, level, m, point, others, pair);
            &&& after.len() == links.len()
            &&& forall|p: int|
                0 <= p < links.len() ==> (#[trigger] after[p]).len() == links[p].len()
            &&& forall|q: PointOffsetType|
                has_level(links, q as int, level) ==> (#[trigger] after[q as int])[level]
                    == if others.contains(q) {
                    adopted(links[q as int][level], m, point, q, pair)
                } else {
                    links[q as int][level]
                }
        }),
    decreases others.len(),
{
    if others.len() > 0 {
        let head = others.drop_last();
        let other = others[others.len() - 1];
        assert forall|i: int| 0 <= i < head.len() implies has_level(
            links,
            #[trigger] head[i] as int,
            level,
        ) && head[i] != point by {
            assert(head[i] == others[i]);
        }
        lemma_adopt_all_lists(links, level, m, point, head, pair);
        let before = adopt_all(links, level, m, point, head, pair);
        let after = adopt_all(links, level, m, point, others, pair);
        assert(has_level(links, other as int, level));
        assert(before[other as int].len() == links[other as int].len());
        assert forall|q: PointOffsetType| has_level(links, q as int, level) implies (
        #[trigger] after[q as int])[level] == if others.contains(q) {
            adopted(links[q as int][level], m, point, q, pair)
        } else {
            links[q as int][level]
        } by {
            assert(before[q as int].len() == links[q as int].len());
            if q == other {
                assert(others[others.len() - 1] == q);
                assert(!head.contains(q)) by {
                    if head.contains(q) {
                        let i = choose|i: int| 0 <= i < head.len() && head[i] == q;
                        assert(others[i] != others[others.len() - 1]);
                    }
                }
            } else {
                assert(after[q as int] == before[q as int]);
                if head.contains(q) {
                    let i = choose|i: int| 0 <= i < head.len() && head[i] == q;
                    assert(others[i] == q);
                } else if others.contains(q) {
                    let i = choose|i: int| 0 <= i < others.len() && others[i] == q;
                    assert(head[i] == q);
                }
            }
        }
    }
}

// Linking on one level

/// Whether the points are a diverse selection of those found.
pub open spec fn is_selected_from(
    found: Seq<ScoredPointOffset>,
    limit: nat,
    chosen: Seq<PointOffsetType>,
    pair: PairScore,
) -> bool {
    exists|at: Seq<int>| is_diverse_selection(at, found, limit, chosen, pair)
}

/// Whether a point was linked with a diverse selection of the points found: these are its
/// links now. Each of them has taken it in, at the end of its list, or by a new selection if
/// the list was full. All other lists are as before.
pub open spec fn is_linked_by_selection(
    before: Links,
    after: Links,
    level: int,
    limit: nat,
    point: PointOffsetType,
    found: Seq<ScoredPointOffset>,
    pair: PairScore,
) -> bool {
    &&& is_selected_from(found, limit, after[point as int][level], pair)
    &&& forall|q: PointOffsetType|
        #![trigger after[q as int]]
        has_level(before, q as int, level) && q != point ==> if after[point as int][
            level
        ].contains(q) {
            adopts(before[q as int][level], limit, point, q, pair, after[q as int][level])
        } else {
            after[q as int][level] == before[q as int][level]
        }
}

/// Whether a point was linked with all points found: its links are the closest of them now,
/// and each of them has taken it in by its score. All other lists are as before.
pub open spec fn is_linked_by_score(
    before: Links,
    after: Links,
    level: int,
    limit: nat,
    point: PointOffsetType,
    found: Seq<ScoredPointOffset>,
    pair: PairScore,
) -> bool {
    &&& keeps_closest(found, limit, point, pair, after[point as int][level])
    &&& forall|q: PointOffsetType|
        #![trigger after[q as int]]
        has_level(before, q as int, level) && q != point ==> if lists_point(found, q) {
            takes_in(before[q as int][level], limit, q, point, pair, after[q as int][level])
        } else {
            after[q as int][level] == before[q as int][level]
        }
}

/// Whether the lists of a level are those that linking the point leaves there, when the
/// search for its neighbours begins at `start`. It is linked with the points that a search
/// on the graph as it was finds: by selection with the heuristic, by score without it. Up
/// to `m` links are wanted, `m0` on the lowest level.
pub open spec fn is_linked_on(
    graph: Graph,
    point: PointOffsetType,
    scoring: Scoring,
    level: int,
    start: ScoredPointOffset,
    after: Links,
) -> bool {
    let limit = if level == 0 {
        graph.m0
    } else {
        graph.m
    };
    let found = graph.layer(graph.links, level, scoring).search(graph.ef_construct, start);
    &&& has_level(graph.links, start.idx as int, level)
    &&& start.idx != point
    &&& if graph.use_heuristic {
        is_linked_by_selection(graph.links, after, level, limit, point, found, scoring.pair)
    } else {
        is_linked_by_score(graph.links, after, level, limit, point, found, scoring.pair)
    }
}

/// Whether `links` have all lists of the graph up to a level.
spec fn agrees_up_to(graph: Graph, links: Links, level: int) -> bool {
    &&& links.len() == graph.links.len()
    &&& forall|p: int|
        0 <= p < links.len() ==> (#[trigger] links[p]).len() >= graph.links[p].len()
    &&& forall|p: int, l: int|
        has_level(graph.links, p, l) && l <= level ==> #[trigger] links[p][l] == graph.links[p][l]
}

proof fn lemma_linked_on_outcome(
    graph: Graph,
    links: Links,
    level: int,
    point: PointOffsetType,
    start: ScoredPointOffset,
    scoring: Scoring,
)
    requires
        links_wf(graph.links),
        links_wf(links),
        agrees_up_to(graph, links, level),
        unlinked_up_to(links, point, level),
        has_level(links, point as int, level),
        has_level(graph.links, start.idx as int, level),
        start.idx != point,
        !graph.use_heuristic ==> links[point as int][level].len() == 0,
    ensures
        ({
            let found = graph.layer(links, level, scoring).search(graph.ef_construct, start);
            let after = graph.linked_on(links, level, point, found, scoring.pair);
            &&& found == graph.layer(graph.links, level, scoring).search(graph.ef_construct, start)
            &&& is_linked_on(graph, point, scoring, level, start, after)
        }),
{
    let limit = if level == 0 {
        graph.m0
    } else {
        graph.m
    };
    let pair = scoring.pair;
    let a = graph.layer(graph.links, level, scoring);
    let b = graph.layer(links, level, scoring);
    assert(same_lists(a, b));
    lemma_search_same(a, b, graph.ef_construct, start);
    let found = a.search(graph.ef_construct, start);
    law_search_result(a, graph.ef_construct, start);
    law_search_result(b, graph.ef_construct, start);
    assert forall|i: int| 0 <= i < found.len() implies has_level(
        links,
        (#[trigger] found[i]).idx as int,
        level,
    ) && found[i].idx != point by {
        let x = b.search(graph.ef_construct, start)[i];
        assert(b.has_point(x.idx));
        lemma_reachable_is_linked(b, start.idx, x.idx, point);
    }
    let after = graph.linked_on(links, level, point, found, pair);
    if graph.use_heuristic {
        let chosen = selected(found, limit, pair);
        let own = with_list(links, point as int, level, chosen);
        let at = law_selection_is_diverse(found, limit, pair);
        assert forall|i: int| 0 <= i < chosen.len() implies has_level(
            own,
            #[trigger] chosen[i] as int,
            level,
        ) && chosen[i] != point by {
            let j = lemma_selected_from(found, limit, pair, i);
            assert(has_level(links, found[j].idx as int, level));
        }
        assert(chosen.no_duplicates()) by {
            assert forall|i: int, j: int| 0 <= i < chosen.len() && 0 <= j < chosen.len() && i != j
                implies chosen[i] != chosen[j] by {
                assert(found[at[i]].idx == chosen[i] && found[at[j]].idx == chosen[j]);
                if i < j {
                    assert(at[i] < at[j]);
                    assert(found[at[i]].idx != found[at[j]].idx);
                } else {
                    assert(at[j] < at[i]);
                    assert(found[at[j]].idx != found[at[i]].idx);
                }
            }
        }
        lemma_adopt_all_lists(own, level, limit, point, chosen, pair);
        assert(after == adopt_all(own, level, limit, point, chosen, pair));
        assert(!chosen.contains(point));
        assert(has_level(own, point as int, level));
        assert(after[point as int][level] == chosen);
        assert(is_diverse_selection(at, found, limit, after[point as int][level], pair));
        assert forall|q: PointOffsetType|
            #![trigger after[q as int]]
            has_level(graph.links, q as int, level) && q != point implies if after[point as int][
            level
        ].contains(q) {
            adopts(graph.links[q as int][level], limit, point, q, pair, after[q as int][level])
        } else {
            after[q as int][level] == graph.links[q as int][level]
        } by {
            assert(links[q as int][level] == graph.links[q as int][level]);
            assert(has_level(own, q as int, level));
            law_adopting_selects_anew(graph.links[q as int][level], limit, point, q, pair);
        }
        assert(is_linked_by_selection(graph.links, after, level, limit, point, found, pair));
    } else {
        lemma_connect_nearest_lists(links, level, limit, point, found, pair);
        assert(after == connect_nearest(links, level, limit, point, found, pair));
        assert(links[point as int][level] =~= Seq::empty());
        lemma_connected_all_keeps_closest(found, limit, point, pair);
        assert forall|q: PointOffsetType|
            #![trigger after[q as int]]
            has_level(graph.links, q as int, level) && q != point implies if lists_point(found, q) {
            takes_in(graph.links[q as int][level], limit, q, point, pair, after[q as int][level])
        } else {
            after[q as int][level] == graph.links[q as int][level]
        } by {
            assert(links[q as int][level] == graph.links[q as int][level]);
            law_connecting_takes_in(graph.links[q as int][level], limit, q, point, pair);
        }
        assert(is_linked_by_score(graph.links, after, level, limit, point, found, pair));
    }
}

// Linking on all levels

/// Where the search on the level below begins, after one on a level with these links: with
/// the heuristic at the same point, without it at the closest point found, if that is closer.
pub open spec fn next_start(
    graph: Graph,
    links: Links,
    level: int,
    scoring: Scoring,
    start: ScoredPointOffset,
) -> ScoredPointOffset {
    let found = graph.layer(links, level, scoring).search(graph.ef_construct, start);
    if !graph.use_heuristic && found.len() > 0 && found[0].score > start.score {
        found[0]
    } else {
        start
    }
}

/// Whether on each level but the highest the search begins where that above has led.
pub open spec fn starts_follow(
    graph: Graph,
    scoring: Scoring,
    starts: Seq<ScoredPointOffset>,
) -> bool {
    forall|l: int|
        1 <= l < starts.len() ==> starts[l - 1] == next_start(
            graph,
            graph.links,
            l,
            scoring,
            #[trigger] starts[l],
        )
}

proof fn lemma_next_start(start: ScoredPointOffset, found: Seq<ScoredPointOffset>)
    requires
        forall|i: int, j: int|
            0 <= i <= j < found.len() ==> (#[trigger] found[i]).priority() >= (
            #[trigger] found[j]).priority(),
    ensures
        best_of(start, found) == if found.len() > 0 && found[0].score > start.score {
            found[0]
        } else {
            start
        },
{
    law_best_is_the_first_of_the_closest(start, found);
    let best = best_of(start, found);
    if found.len() > 0 {
        assert forall|i: int| 0 <= i < found.len() implies (#[trigger] found[i]).score
            <= found[0].score by {
            assert(found[0].priority() >= found[i].priority());
        }
        if found[0].score > start.score {
            let at = choose|at: int|
                0 <= at < found.len() && best == #[trigger] found[at] && best.score > start.score
                    && (forall|i: int|
                    0 <= i < found.len() ==> (#[trigger] found[i]).score <= best.score) && (forall|
                    i: int,
                | 0 <= i < at ==> (#[trigger] found[i]).score < best.score);
            if at > 0 {
                assert(found[0].score < best.score);
            }
        }
    }
}

proof fn lemma_agrees_below(graph: Graph, a: Links, b: Links, level: int)
    requires
        agrees_up_to(graph, a, level),
        changed_on(a, b, level),
    ensures
        agrees_up_to(graph, b, level - 1),
{
    assert forall|p: int| 0 <= p < b.len() implies (#[trigger] b[p]).len()
        >= graph.links[p].len() by {
        assert(a[p].len() == b[p].len());
    }
    assert forall|p: int, l: int| has_level(graph.links, p, l) && l <= level - 1 implies
        #[trigger] b[p][l] == graph.links[p][l] by {
        assert(a[p][l] == graph.links[p][l]);
        assert(a[p].len() == b[p].len());
        assert(b[p][l] == a[p][l]);
    }
}

/// What the first step of linking leaves for the levels below.
proof fn lemma_linked_step(
    graph: Graph,
    links: Links,
    level: int,
    point: PointOffsetType,
    start: ScoredPointOffset,
    scoring: Scoring,
)
    requires
        level >= 0,
        links_wf(graph.links),
        links_wf(links),
        agrees_up_to(graph, links, level),
        unlinked_up_to(links, point, level),
        has_level(links, point as int, level),
        has_level(graph.links, start.idx as int, level),
        start.idx != point,
        !graph.use_heuristic ==> forall|l: int|
            0 <= l <= level ==> (#[trigger] links[point as int][l]).len() == 0,
    ensures
        ({
            let found = graph.layer(links, level, scoring).search(graph.ef_construct, start);
            let mid = graph.linked_on(links, level, point, found, scoring.pair);
            let next = if !graph.use_heuristic && found.len() > 0 && found[0].score > start.score {
                found[0]
            } else {
                start
            };
            &&& found == graph.layer(graph.links, level, scoring).search(graph.ef_construct, start)
            &&& is_linked_on(graph, point, scoring, level, start, mid)
            &&& changed_on(links, mid, level)
            &&& links_wf(mid)
            &&& agrees_up_to(graph, mid, level - 1)
            &&& unlinked_up_to(mid, point, level - 1)
            &&& has_level(graph.links, next.idx as int, level)
            &&& next.idx != point
            &&& !graph.use_heuristic ==> best_of(start, found) == next
            &&& !graph.use_heuristic ==> forall|l: int|
                0 <= l <= level - 1 ==> (#[trigger] mid[point as int][l]).len() == 0
        }),
{
    let layer = graph.layer(links, level, scoring);
    let found = layer.search(graph.ef_construct, start);
    let pair = scoring.pair;
    assert(links[start.idx as int][level] == graph.links[start.idx as int][level]);
    assert(has_level(links, start.idx as int, level));
    law_search_result(layer, graph.ef_construct, start);
    layer.lemma_search_on_level(graph.ef_construct, start);
    if !graph.use_heuristic {
        assert(links[point as int][level].len() == 0);
    }
    lemma_linked_on_outcome(graph, links, level, point, start, scoring);
    graph.lemma_linked_on(links, level, point, found, pair);
    lemma_linked_on_changes(graph, links, level, point, found, pair);
    let mid = graph.linked_on(links, level, point, found, pair);
    lemma_next_start(start, found);
    lemma_agrees_below(graph, links, mid, level);
    lemma_unlinked_below(links, mid, level, point);
    if found.len() > 0 {
        let a = graph.layer(graph.links, level, scoring);
        a.lemma_search_on_level(graph.ef_construct, start);
        assert(a.has_point(a.search(graph.ef_construct, start)[0].idx));
        assert(layer.reachable(start.idx, layer.search(graph.ef_construct, start)[0].idx));
        lemma_reachable_is_linked(layer, start.idx, found[0].idx, point);
    }
    if !graph.use_heuristic {
        assert forall|l: int| 0 <= l <= level - 1 implies (
        #[trigger] mid[point as int][l]).len() == 0 by {
            assert(links[point as int][l].len() == 0);
            assert(mid[point as int][l] == links[point as int][l]);
        }
    }
}

proof fn lemma_linked_down_outcome(
    graph: Graph,
    links: Links,
    level: int,
    point: PointOffsetType,
    start: ScoredPointOffset,
    scoring: Scoring,
) -> (starts: Seq<ScoredPointOffset>)
    requires
        level >= -1,
        links_wf(graph.links),
        links_wf(links),
        agrees_up_to(graph, links, level),
        unlinked_up_to(links, point, level),
        level >= 0 ==> has_level(links, point as int, level),
        level >= 0 ==> has_level(graph.links, start.idx as int, level),
        start.idx != point,
        !graph.use_heuristic ==> forall|l: int|
            0 <= l <= level ==> (#[trigger] links[point as int][l]).len() == 0,
    ensures
        starts.len() == level + 1,
        level >= 0 ==> starts[level] == start,
        starts_follow(graph, scoring, starts),
        forall|l: int|
            0 <= l <= level ==> is_linked_on(
                graph,
                point,
                scoring,
                l,
                #[trigger] starts[l],
                graph.linked_down(links, level, point, start, scoring),
            ),
    decreases level + 1,
{
    if level < 0 {
        Seq::empty()
    } else {
        let found = graph.layer(links, level, scoring).search(graph.ef_construct, start);
        let mid = graph.linked_on(links, level, point, found, scoring.pair);
        let next = if !graph.use_heuristic && found.len() > 0 && found[0].score > start.score {
            found[0]
        } else {
            start
        };
        lemma_linked_step(graph, links, level, point, start, scoring);
        assert(mid[point as int].len() == links[point as int].len());
        let rest = lemma_linked_down_outcome(graph, mid, level - 1, point, next, scoring);
        let after = graph.linked_down(links, level, point, start, scoring);
        assert(after == graph.linked_down(mid, level - 1, point, next, scoring));
        if level >= 1 {
            assert(has_level(mid, next.idx as int, level - 1)) by {
                assert(mid[next.idx as int][level - 1] == graph.links[next.idx as int][level - 1]);
            }
        }
        lemma_linked_down_changes(graph, mid, level - 1, point, next, scoring);
        assert(is_linked_on(graph, point, scoring, level, start, after)) by {
            assert(has_level(mid, point as int, level));
            assert(after[point as int][level] == mid[point as int][level]);
            assert forall|q: PointOffsetType| has_level(graph.links, q as int, level) implies (
            #[trigger] after[q as int])[level] == mid[q as int][level] by {
                assert(links[q as int][level] == graph.links[q as int][level]);
                assert(links[q as int].len() == mid[q as int].len());
                assert(has_level(mid, q as int, level));
                assert(after[q as int][level] == mid[q as int][level]);
            }
            lemma_linked_on_same(graph, point, scoring, level, start, mid, after);
        }
        let starts = rest.push(start);
        assert forall|l: int| 1 <= l < starts.len() implies starts[l - 1] == next_start(
            graph,
            graph.links,
            l,
            scoring,
            #[trigger] starts[l],
        ) by {
            if l < rest.len() {
                assert(starts[l] == rest[l]);
                assert(starts[l - 1] == rest[l - 1]);
            }
        }
        assert forall|l: int| 0 <= l <= level implies is_linked_on(
            graph,
            point,
            scoring,
            l,
            #[trigger] starts[l],
            after,
        ) by {
            if l < level {
                assert(starts[l] == rest[l]);
            }
        }
        starts
    }
}

proof fn lemma_linked_on_same(
    graph: Graph,
    point: PointOffsetType,
    scoring: Scoring,
    level: int,
    start: ScoredPointOffset,
    a: Links,
    b: Links,
)
    requires
        is_linked_on(graph, point, scoring, level, start, a),
        b[point as int][level] == a[point as int][level],
        forall|q: PointOffsetType|
            has_level(graph.links, q as int, level) ==> (#[trigger] b[q as int])[level]
                == a[q as int][level],
    ensures
        is_linked_on(graph, point, scoring, level, start, b),
{
    assert forall|q: PointOffsetType| has_level(graph.links, q as int, level) implies (
    #[trigger] b[q as int])[level] == a[q as int][level] && a[q as int] == a[q as int] by {}
}

/// Where the search for the neighbours of a new point begins: where a greedy search from
/// the entry point ends if that is higher than the new point, else at the entry point, with
/// its score against the new point.
pub open spec fn first_start(
    graph: Graph,
    point: PointOffsetType,
    level: usize,
    entry: EntryPoint,
    scoring: Scoring,
) -> ScoredPointOffset {
    if entry.level > level {
        graph.descend(
            ScoredPointOffset { idx: entry.point_id, score: (scoring.query)(entry.point_id) },
            entry.level as int,
            level as int,
            scoring,
        )
    } else {
        ScoredPointOffset { idx: entry.point_id, score: (scoring.pair)(point, entry.point_id) }
    }
}

/// A fresh point is linked on each level that both it and the first admitted entry point
/// reach, from the highest of these down. What becomes of the lists on such a level is told
/// by the points that a search on the graph as it was finds there. With the returned
/// points these searches begin, the last one on the highest level.
pub proof fn law_new_point_is_linked_with_what_is_found(
    graph: Graph,
    point: PointOffsetType,
    level: usize,
    scoring: Scoring,
    at: int,
) -> (starts: Seq<ScoredPointOffset>)
    requires
        graph.wf(),
        point < graph.links.len(),
        is_fresh(graph, point),
        !graph.use_heuristic ==> forall|l: int|
            0 <= l < graph.links[point as int].len() ==> (
            #[trigger] graph.links[point as int][l]).len() == 0,
        is_first_entry(graph.entries.main, scoring.admits, at),
    ensures
        ({
            let after = graph.with_point(point, level, scoring);
            let entry = graph.entries.main[at];
            let top = if level < entry.level {
                level as int
            } else {
                entry.level as int
            };
            &&& starts.len() == top + 1
            &&& starts[top] == first_start(graph, point, level, entry, scoring)
            &&& starts_follow(graph, scoring, starts)
            &&& forall|l: int|
                0 <= l <= top ==> is_linked_on(
                    graph,
                    point,
                    scoring,
                    l,
                    #[trigger] starts[l],
                    after.links,
                )
            &&& forall|p: int, l: int|
                has_level(graph.links, p, l) && l > top ==> #[trigger] after.links[p][l]
                    == graph.links[p][l]
            &&& forall|l: int|
                graph.links[point as int].len() <= l <= level && l > top ==> (
                #[trigger] after.links[point as int][l]).len() == 0
        }),
{
    let entry = graph.entries.main[at];
    let before = prepared(graph, point, level, scoring);
    let after = graph.with_point(point, level, scoring);
    let top = if level < entry.level {
        level as int
    } else {
        entry.level as int
    };
    let new = EntryPoint { point_id: point, level };
    law_higher_point_becomes_the_entry(graph.entries, new, scoring.admits, at);
    lemma_raised(graph.links, point as int, level as nat);
    let start = lemma_linking_start(graph, point, level, scoring, entry, point);
    assert(has_level(graph.links, entry.point_id as int, entry.level as int));
    assert forall|p: int, l: int| has_level(graph.links, p, l) implies has_level(
        before.links,
        p,
        l,
    ) && #[trigger] before.links[p][l] == graph.links[p][l] by {
        assert(raised(graph.links, point as int, level as nat)[p][l] == graph.links[p][l]);
    }
    if entry.level > level {
        let first = ScoredPointOffset {
            idx: entry.point_id,
            score: (scoring.query)(entry.point_id),
        };
        lemma_descend_same(graph, before, first, entry.level as int, level as int, scoring);
        graph.lemma_level_entry(point, level as nat, entry, scoring);
    }
    assert(start == first_start(graph, point, level, entry, scoring));
    if !graph.use_heuristic {
        assert forall|l: int| 0 <= l <= top implies (
        #[trigger] before.links[point as int][l]).len() == 0 by {
            if has_level(graph.links, point as int, l) {
                assert(graph.links[point as int][l].len() == 0);
                assert(before.links[point as int][l] == graph.links[point as int][l]);
            } else {
                assert(has_level(before.links, point as int, l));
                assert(raised(graph.links, point as int, level as nat)[point as int][l].len() == 0);
            }
        }
    }
    let starts = lemma_linked_down_outcome(graph, before.links, top, point, start, scoring);
    lemma_linked_down_same(graph, before, before.links, top, point, start, scoring);
    assert forall|p: int, l: int| has_level(graph.links, p, l) && l > top implies
        #[trigger] after.links[p][l] == graph.links[p][l] by {
        law_linking_keeps_higher_lists(graph, point, level, scoring, p, l);
    }
    assert forall|l: int| graph.links[point as int].len() <= l <= level && l > top implies (
    #[trigger] after.links[point as int][l]).len() == 0 by {
        law_linking_leaves_higher_levels_empty(graph, point, level, scoring, l);
    }
    starts
}

/// Linking looks at nothing of the graph but its parameters.
proof fn lemma_linked_down_same(
    a: Graph,
    b: Graph,
    links: Links,
    level: int,
    point: PointOffsetType,
    start: ScoredPointOffset,
    scoring: Scoring,
)
    requires
        a.m == b.m,
        a.m0 == b.m0,
        a.ef_construct == b.ef_construct,
        a.use_heuristic == b.use_heuristic,
    ensures
        a.linked_down(links, level, point, start, scoring) == b.linked_down(
            links,
            level,
            point,
            start,
            scoring,
        ),
    decreases level + 1,
{
    if level >= 0 {
        let found = a.layer(links, level, scoring).search(a.ef_construct, start);
        assert(b.layer(links, level, scoring) == a.layer(links, level, scoring));
        let next = if a.use_heuristic {
            start
        } else {
            best_of(start, found)
        };
        let mid = a.linked_on(links, level, point, found, scoring.pair);
        assert(b.linked_on(links, level, point, found, scoring.pair) == mid);
        lemma_linked_down_same(a, b, mid, level - 1, point, next, scoring);
    }
}

/// Without the heuristic, each of the points that the search on a level finds has the new
/// point in its list afterwards, or its list is full and holds only points that are at least
/// as close to it as the new point is. The same holds of the list of the new point and the
/// points found.
pub proof fn law_found_points_link_back(
    graph: Graph,
    point: PointOffsetType,
    level: usize,
    scoring: Scoring,
    at: int,
    l: int,
) -> (start: ScoredPointOffset)
    requires
        !graph.use_heuristic,
        graph.wf(),
        point < graph.links.len(),
        is_fresh(graph, point),
        forall|l: int|
            0 <= l < graph.links[point as int].len() ==> (
            #[trigger] graph.links[point as int][l]).len() == 0,
        is_first_entry(graph.entries.main, scoring.admits, at),
        0 <= l <= level,
        l <= graph.entries.main[at].level,
    ensures
        ({
            let after = graph.with_point(point, level, scoring).links;
            let found = graph.layer(graph.links, l, scoring).search(graph.ef_construct, start);
            let limit = if l == 0 {
                graph.m0
            } else {
                graph.m
            };
            &&& has_level(graph.links, start.idx as int, l)
            &&& forall|i: int|
                0 <= i < found.len() ==> {
                    let q = (#[trigger] found[i]).idx;
                    let list = after[q as int][l];
                    let own = after[point as int][l];
                    &&& list.contains(point) || list.len() >= limit && forall|j: int|
                        0 <= j < list.len() ==> (scoring.pair)(q, #[trigger] list[j]) >= (
                        scoring.pair)(q, point)
                    &&& own.contains(q) || own.len() >= limit && forall|j: int|
                        0 <= j < own.len() ==> (scoring.pair)(point, #[trigger] own[j]) >= (
                        scoring.pair)(point, q)
                }
        }),
{
    let starts = law_new_point_is_linked_with_what_is_found(graph, point, level, scoring, at);
    let start = starts[l];
    let after = graph.with_point(point, level, scoring).links;
    let layer = graph.layer(graph.links, l, scoring);
    let found = layer.search(graph.ef_construct, start);
    let limit = if l == 0 {
        graph.m0
    } else {
        graph.m
    };
    let own = after[point as int][l];
    assert(is_linked_on(graph, point, scoring, l, starts[l], after));
    law_search_result(layer, graph.ef_construct, start);
    assert forall|i: int| 0 <= i < found.len() implies {
        let q = (#[trigger] found[i]).idx;
        let list = after[q as int][l];
        &&& list.contains(point) || list.len() >= limit && forall|j: int|
            0 <= j < list.len() ==> (scoring.pair)(q, #[trigger] list[j]) >= (scoring.pair)(
                q,
                point,
            )
        &&& own.contains(q) || own.len() >= limit && forall|j: int|
            0 <= j < own.len() ==> (scoring.pair)(point, #[trigger] own[j]) >= (scoring.pair)(
                point,
                q,
            )
    } by {
        let q = found[i].idx;
        let list = after[q as int][l];
        assert(layer.has_point(layer.search(graph.ef_construct, start)[i].idx));
        assert(unlinked_up_to(graph.links, point, l));
        assert(layer.reachable(start.idx, layer.search(graph.ef_construct, start)[i].idx));
        lemma_reachable_is_linked(layer, start.idx, q, point);
        assert(lists_point(found, q));
        law_taking_in(graph.links[q as int][l], limit, q, point, scoring.pair, list);
        if !own.contains(q) && own.len() < limit {
            lemma_all_kept(found, own, i);
        }
    }
    start
}

/// With the heuristic, a point that the new one has chosen on a level takes it in although
/// its list is full, if the new point is farther from it than all its links: or than all
/// but one that the new point is no closer to than to it, where two links are wanted.
pub proof fn law_full_list_takes_in_a_far_new_point(
    graph: Graph,
    point: PointOffsetType,
    level: usize,
    scoring: Scoring,
    at: int,
    l: int,
    other: PointOffsetType,
    k: int,
)
    requires
        graph.use_heuristic,
        graph.wf(),
        point < graph.links.len(),
        is_fresh(graph, point),
        is_first_entry(graph.entries.main, scoring.admits, at),
        0 <= l <= level,
        l <= graph.entries.main[at].level,
        has_level(graph.links, other as int, l),
        other != point,
        graph.with_point(point, level, scoring).links[point as int][l].contains(other),
        ({
            let limit = if l == 0 {
                graph.m0
            } else {
                graph.m
            };
            let list = graph.links[other as int][l];
            let score = (scoring.pair)(point, other);
            &&& 1 <= limit <= list.len()
            &&& 0 <= k < limit
            &&& forall|i: int|
                0 <= i < limit && i != k ==> (scoring.pair)(#[trigger] list[i], other) > score
            &&& (scoring.pair)(list[k], other) > score || limit >= 2 && (scoring.pair)(
                point,
                list[k],
            ) <= score
        }),
    ensures
        graph.with_point(point, level, scoring).links[other as int][l].contains(point),
{
    let limit = if l == 0 {
        graph.m0
    } else {
        graph.m
    };
    let found = lemma_linked_by_selection(graph, point, level, scoring, at, l);
    lemma_chosen_takes_in_a_far_point(
        graph.links,
        graph.with_point(point, level, scoring).links,
        l,
        limit,
        point,
        found,
        scoring.pair,
        other,
        k,
    );
}

proof fn lemma_linked_by_selection(
    graph: Graph,
    point: PointOffsetType,
    level: usize,
    scoring: Scoring,
    at: int,
    l: int,
) -> (found: Seq<ScoredPointOffset>)
    requires
        graph.use_heuristic,
        graph.wf(),
        point < graph.links.len(),
        is_fresh(graph, point),
        is_first_entry(graph.entries.main, scoring.admits, at),
        0 <= l <= level,
        l <= graph.entries.main[at].level,
    ensures
        is_linked_by_selection(
            graph.links,
            graph.with_point(point, level, scoring).links,
            l,
            if l == 0 {
                graph.m0
            } else {
                graph.m
            },
            point,
            found,
            scoring.pair,
        ),
{
    let starts = law_new_point_is_linked_with_what_is_found(graph, point, level, scoring, at);
    let after = graph.with_point(point, level, scoring).links;
    assert(is_linked_on(graph, point, scoring, l, starts[l], after));
    graph.layer(graph.links, l, scoring).search(graph.ef_construct, starts[l])
}

proof fn lemma_chosen_takes_in_a_far_point(
    before: Links,
    after: Links,
    level: int,
    limit: nat,
    point: PointOffsetType,
    found: Seq<ScoredPointOffset>,
    pair: PairScore,
    other: PointOffsetType,
    k: int,
)
    requires
        is_linked_by_selection(before, after, level, limit, point, found, pair),
        has_level(before, other as int, level),
        other != point,
        after[point as int][level].contains(other),
        1 <= limit <= before[other as int][level].len(),
        0 <= k < limit,
        forall|i: int|
            0 <= i < limit && i != k ==> pair(#[trigger] before[other as int][level][i], other)
                > pair(point, other),
        pair(before[other as int][level][k], other) > pair(point, other) || limit >= 2 && pair(
            point,
            before[other as int][level][k],
        ) <= pair(point, other),
    ensures
        after[other as int][level].contains(point),
{
    let list = before[other as int][level];
    let list_after = after[other as int][level];
    assert(adopts(list, limit, point, other, pair, list_after));
    law_adopting_takes_in_a_far_point(list, limit, point, other, pair, list_after, k);
}

/// If no entry point is admitted, linking a point changes nothing but its levels, which are
/// empty at first, and the entry points.
pub proof fn law_without_an_entry_nothing_is_linked(
    graph: Graph,
    point: PointOffsetType,
    level: usize,
    scoring: Scoring,
)
    requires
        graph.wf(),
        point < graph.links.len(),
        has_no_entry(graph.entries.main, scoring.admits),
    ensures
        ({
            let after = graph.with_point(point, level, scoring);
            &&& forall|p: int, l: int|
                has_level(graph.links, p, l) ==> #[trigger] after.links[p][l] == graph.links[p][l]
            &&& forall|l: int|
                graph.links[point as int].len() <= l <= level ==> (
                #[trigger] after.links[point as int][l]).len() == 0
        }),
{
    let new = EntryPoint { point_id: point, level };
    law_first_admitted_point_becomes_an_entry(graph.entries, new, scoring.admits);
    let after = graph.with_point(point, level, scoring);
    assert forall|p: int, l: int| has_level(graph.links, p, l) implies #[trigger] after.links[p][l]
        == graph.links[p][l] by {
        law_linking_keeps_higher_lists(graph, point, level, scoring, p, l);
    }
    assert forall|l: int| graph.links[point as int].len() <= l <= level implies (
    #[trigger] after.links[point as int][l]).len() == 0 by {
        law_linking_leaves_higher_levels_empty(graph, point, level, scoring, l);
    }
}

/// Linking a point notes it among the entry points and its level as the highest, if it is.
/// It gives the point lists up to its level, and changes neither the parameters of the graph
/// nor the number of lists of any other point.
pub proof fn law_linking_notes_the_point(
    graph: Graph,
    point: PointOffsetType,
    level: usize,
    scoring: Scoring,
)
    requires
        graph.wf(),
        point < graph.links.len(),
    ensures
        ({
            let after = graph.with_point(point, level, scoring);
            &&& after.m == graph.m
            &&& after.m0 == graph.m0
            &&& after.ef_construct == graph.ef_construct
            &&& after.use_heuristic == graph.use_heuristic
            &&& after.max_level == if level > graph.max_level {
                level as nat
            } else {
                graph.max_level
            }
            &&& after.entries == graph.entries.with_point(
                EntryPoint { point_id: point, level },
                scoring.admits,
            )
            &&& after.links.len() == graph.links.len()
            &&& after.links[point as int].len() == if graph.links[point as int].len() > level {
                graph.links[point as int].len()
            } else {
                level as nat + 1
            }
            &&& forall|p: int|
                0 <= p < graph.links.len() && p != point ==> (#[trigger] after.links[p]).len()
                    == graph.links[p].len()
        }),
{
    law_linking_keeps_levels(graph, point, level, scoring);
}

// Linking step by step, also of points that were linked before

/// Whether no list differs but that of one point on one level.
pub open spec fn is_list_replaced(before: Links, after: Links, point: int, level: int) -> bool {
    &&& after.len() == before.len()
    &&& forall|p: int|
        0 <= p < before.len() ==> (#[trigger] after[p]).len() == before[p].len()
    &&& forall|p: int, l: int|
        has_level(before, p, l) && (p != point || l != level) ==> #[trigger] after[p][l]
            == before[p][l]
}

/// Whether the list of `target` on a level took in `new` by its score, and no other list
/// changed.
pub open spec fn is_connected(
    before: Links,
    after: Links,
    level: int,
    limit: nat,
    target: PointOffsetType,
    new: PointOffsetType,
    pair: PairScore,
) -> bool {
    &&& is_list_replaced(before, after, target as int, level)
    &&& takes_in(
        before[target as int][level],
        limit,
        target,
        new,
        pair,
        after[target as int][level],
    )
}

/// Whether the list of `other` on a level is what it becomes when `point` has chosen it, and
/// no other list changed.
pub open spec fn is_adopted(
    before: Links,
    after: Links,
    level: int,
    limit: nat,
    point: PointOffsetType,
    other: PointOffsetType,
    pair: PairScore,
) -> bool {
    &&& is_list_replaced(before, after, other as int, level)
    &&& adopts(
        before[other as int][level],
        limit,
        point,
        other,
        pair,
        after[other as int][level],
    )
}

proof fn lemma_connect_is_connected(
    links: Links,
    level: int,
    limit: nat,
    target: PointOffsetType,
    new: PointOffsetType,
    pair: PairScore,
)
    requires
        has_level(links, target as int, level),
    ensures
        is_connected(
            links,
            connect(links, level, limit, target, new, pair),
            level,
            limit,
            target,
            new,
            pair,
        ),
{
    law_connecting_takes_in(links[target as int][level], limit, target, new, pair);
}

/// Whether a point was connected with each of the points found, one after the other: first
/// the found one came into the list of the point, then the point into its list.
pub open spec fn are_score_steps(
    steps: Seq<Links>,
    level: int,
    limit: nat,
    point: PointOffsetType,
    found: Seq<ScoredPointOffset>,
    pair: PairScore,
) -> bool {
    &&& steps.len() == 2 * found.len() + 1
    &&& forall|k: int|
        0 <= k < found.len() ==> {
            let other = (#[trigger] found[k]).idx;
            &&& is_connected(steps[2 * k], steps[2 * k + 1], level, limit, point, other, pair)
            &&& is_connected(steps[2 * k + 1], steps[2 * k + 2], level, limit, other, point, pair)
        }
}

/// Whether each of the points in the list of `point` took it in, one after the other, in the
/// order of the list as it was in the first step.
pub open spec fn are_selection_steps(
    steps: Seq<Links>,
    level: int,
    limit: nat,
    point: PointOffsetType,
    chosen: Seq<PointOffsetType>,
    pair: PairScore,
) -> bool {
    &&& steps.len() == chosen.len() + 1
    &&& forall|k: int|
        0 <= k < chosen.len() ==> is_adopted(
            steps[k],
            steps[k + 1],
            level,
            limit,
            point,
            #[trigger] chosen[k],
            pair,
        )
}

proof fn lemma_connect_nearest_steps(
    links: Links,
    level: int,
    limit: nat,
    point: PointOffsetType,
    found: Seq<ScoredPointOffset>,
    pair: PairScore,
) -> (steps: Seq<Links>)
    requires
        has_level(links, point as int, level),
        forall|i: int|
            0 <= i < found.len() ==> has_level(links, (#[trigger] found[i]).idx as int, level),
    ensures
        are_score_steps(steps, level, limit, point, found, pair),
        steps[0] == links,
        steps.last() == connect_nearest(links, level, limit, point, found, pair),
        same_shape(links, steps.last()),
    decreases found.len(),
{
    if found.len() == 0 {
        seq![links]
    } else {
        let head = found.drop_last();
        let n = head.len() as int;
        let other = found[n].idx;
        assert forall|i: int| 0 <= i < head.len() implies has_level(
            links,
            (#[trigger] head[i]).idx as int,
            level,
        ) by {
            assert(head[i] == found[i]);
        }
        let before = lemma_connect_nearest_steps(links, level, limit, point, head, pair);
        let a = before.last();
        assert(has_level(links, other as int, level));
        assert(a[point as int].len() == links[point as int].len());
        assert(a[other as int].len() == links[other as int].len());
        let b = connect(a, level, limit, point, other, pair);
        lemma_connect_is_connected(a, level, limit, point, other, pair);
        assert(b[other as int].len() == a[other as int].len());
        let c = connect(b, level, limit, other, point, pair);
        lemma_connect_is_connected(b, level, limit, other, point, pair);
        let steps = before.push(b).push(c);
        assert(steps[2 * n] == a && steps[2 * n + 1] == b && steps[2 * n + 2] == c);
        assert forall|k: int| 0 <= k < found.len() implies {
            let other = (#[trigger] found[k]).idx;
            &&& is_connected(steps[2 * k], steps[2 * k + 1], level, limit, point, other, pair)
            &&& is_connected(steps[2 * k + 1], steps[2 * k + 2], level, limit, other, point, pair)
        } by {
            if k < n {
                assert(head[k] == found[k]);
                assert(steps[2 * k] == before[2 * k]);
                assert(steps[2 * k + 1] == before[2 * k + 1]);
                assert(steps[2 * k + 2] == before[2 * k + 2]);
            }
        }
        assert forall|p: int| 0 <= p < links.len() implies (#[trigger] links[p]).len()
            == c[p].len() by {
            assert(links[p].len() == a[p].len());
            assert(b[p].len() == a[p].len());
            assert(c[p].len() == b[p].len());
        }
        steps
    }
}

proof fn lemma_adopt_all_steps(
    links: Links,
    level: int,
    limit: nat,
    point: PointOffsetType,
    chosen: Seq<PointOffsetType>,
    pair: PairScore,
) -> (steps: Seq<Links>)
    requires
        forall|i: int|
            0 <= i < chosen.len() ==> has_level(links, #[trigger] chosen[i] as int, level),
    ensures
        are_selection_steps(steps, level, limit, point, chosen, pair),
        steps[0] == links,
        steps.last() == adopt_all(links, level, limit, point, chosen, pair),
        same_shape(links, steps.last()),
    decreases chosen.len(),
{
    if chosen.len() == 0 {
        seq![links]
    } else {
        let head = chosen.drop_last();
        let n = head.len() as int;
        let other = chosen[n];
        assert forall|i: int| 0 <= i < head.len() implies has_level(
            links,
            #[trigger] head[i] as int,
            level,
        ) by {
            assert(head[i] == chosen[i]);
        }
        let before = lemma_adopt_all_steps(links, level, limit, point, head, pair);
        let a = before.last();
        assert(has_level(links, other as int, level));
        assert(a[other as int].len() == links[other as int].len());
        let list = a[other as int][level];
        law_adopting_selects_anew(list, limit, point, other, pair);
        let b = with_list(a, other as int, level, adopted(list, limit, point, other, pair));
        assert(is_adopted(a, b, level, limit, point, other, pair));
        let steps = before.push(b);
        assert forall|k: int| 0 <= k < chosen.len() implies is_adopted(
            steps[k],
            steps[k + 1],
            level,
            limit,
            point,
            #[trigger] chosen[k],
            pair,
        ) by {
            if k < n {
                assert(head[k] == chosen[k]);
                assert(steps[k] == before[k]);
                assert(steps[k + 1] == before[k + 1]);
            } else {
                assert(steps[k] == a);
            }
        }
        assert forall|p: int| 0 <= p < links.len() implies (#[trigger] links[p]).len()
            == b[p].len() by {
            assert(links[p].len() == a[p].len());
        }
        steps
    }
}

/// Linking a point on a level with points found, by single steps. Without the heuristic,
/// the point and each of the points found are connected, in the order in which they were
/// found. With it, the list of the point becomes a diverse selection of the points found,
/// and each of these takes the point in. Up to `m` links are wanted, `m0` on the lowest
/// level.
pub proof fn law_linking_on_a_level_step_by_step(
    graph: Graph,
    links: Links,
    level: int,
    point: PointOffsetType,
    found: Seq<ScoredPointOffset>,
    pair: PairScore,
) -> (steps: Seq<Links>)
    requires
        has_level(links, point as int, level),
        forall|i: int|
            0 <= i < found.len() ==> has_level(links, (#[trigger] found[i]).idx as int, level),
    ensures
        ({
            let limit = if level == 0 {
                graph.m0
            } else {
                graph.m
            };
            &&& steps.len() > 0
            &&& steps.last() == graph.linked_on(links, level, point, found, pair)
            &&& if graph.use_heuristic {
                let chosen = steps[0][point as int][level];
                &&& is_list_replaced(links, steps[0], point as int, level)
                &&& is_selected_from(found, limit, chosen, pair)
                &&& are_selection_steps(steps, level, limit, point, chosen, pair)
            } else {
                &&& steps[0] == links
                &&& are_score_steps(steps, level, limit, point, found, pair)
            }
        }),
{
    let limit = if level == 0 {
        graph.m0
    } else {
        graph.m
    };
    if graph.use_heuristic {
        let chosen = selected(found, limit, pair);
        let own = with_list(links, point as int, level, chosen);
        let at = law_selection_is_diverse(found, limit, pair);
        assert forall|i: int| 0 <= i < chosen.len() implies has_level(
            own,
            #[trigger] chosen[i] as int,
            level,
        ) by {
            let j = lemma_selected_from(found, limit, pair, i);
            assert(has_level(links, found[j].idx as int, level));
        }
        assert(own[point as int][level] == chosen);
        assert(is_selected_from(found, limit, chosen, pair));
        assert(is_list_replaced(links, own, point as int, level));
        let steps = lemma_adopt_all_steps(own, level, limit, point, chosen, pair);
        assert(steps.last() == graph.linked_on(links, level, point, found, pair));
        steps
    } else {
        lemma_connect_nearest_steps(links, level, limit, point, found, pair)
    }
}

/// Whether `after` are the links after the point was linked on a level with what a search
/// on the links before finds, which begins at `start`.
pub open spec fn is_level_stage(
    graph: Graph,
    point: PointOffsetType,
    scoring: Scoring,
    level: int,
    before: Links,
    after: Links,
    start: ScoredPointOffset,
) -> bool {
    &&& links_wf(before)
    &&& has_level(before, point as int, level)
    &&& has_level(before, start.idx as int, level)
    &&& after == graph.linked_on(
        before,
        level,
        point,
        graph.layer(before, level, scoring).search(graph.ef_construct, start),
        scoring.pair,
    )
}

/// Whether the links pass from stage to stage, from the last one on: on each level, with
/// what a search on the links of the stage above finds, which begins at the point given for
/// the level.
pub open spec fn are_level_stages(
    graph: Graph,
    point: PointOffsetType,
    scoring: Scoring,
    stages: Seq<Links>,
    starts: Seq<ScoredPointOffset>,
) -> bool {
    &&& stages.len() == starts.len() + 1
    &&& forall|l: int|
        0 <= l < starts.len() ==> is_level_stage(
            graph,
            point,
            scoring,
            l,
            stages[l + 1],
            stages[l],
            #[trigger] starts[l],
        )
    &&& forall|l: int|
        1 <= l < starts.len() ==> starts[l - 1] == next_start(
            graph,
            stages[l + 1],
            l,
            scoring,
            #[trigger] starts[l],
        )
}

proof fn lemma_linked_down_stages(
    graph: Graph,
    links: Links,
    level: int,
    point: PointOffsetType,
    start: ScoredPointOffset,
    scoring: Scoring,
) -> (r: (Seq<Links>, Seq<ScoredPointOffset>))
    requires
        level >= -1,
        links_wf(links),
        level >= 0 ==> has_level(links, point as int, level),
        level >= 0 ==> has_level(links, start.idx as int, level),
    ensures
        are_level_stages(graph, point, scoring, r.0, r.1),
        r.1.len() == level + 1,
        r.0.last() == links,
        r.0[0] == graph.linked_down(links, level, point, start, scoring),
        level >= 0 ==> r.1.last() == start,
    decreases level + 1,
{
    if level < 0 {
        (seq![links], Seq::empty())
    } else {
        let layer = graph.layer(links, level, scoring);
        let found = layer.search(graph.ef_construct, start);
        law_search_result(layer, graph.ef_construct, start);
        layer.lemma_search_on_level(graph.ef_construct, start);
        graph.lemma_linked_on(links, level, point, found, scoring.pair);
        lemma_next_start(start, found);
        let mid = graph.linked_on(links, level, point, found, scoring.pair);
        let next = if !graph.use_heuristic && found.len() > 0 && found[0].score > start.score {
            found[0]
        } else {
            start
        };
        assert(has_level(links, next.idx as int, level)) by {
            if next != start {
                assert(layer.has_point(layer.search(graph.ef_construct, start)[0].idx));
            }
        }
        assert(mid[point as int].len() == links[point as int].len());
        assert(mid[next.idx as int].len() == links[next.idx as int].len());
        let (below, firsts) = lemma_linked_down_stages(
            graph,
            mid,
            level - 1,
            point,
            next,
            scoring,
        );
        assert(graph.linked_down(links, level, point, start, scoring) == graph.linked_down(
            mid,
            level - 1,
            point,
            next,
            scoring,
        ));
        lemma_stages_extended(graph, point, scoring, below, firsts, links, start);
        (below.push(links), firsts.push(start))
    }
}

proof fn lemma_stages_extended(
    graph: Graph,
    point: PointOffsetType,
    scoring: Scoring,
    below: Seq<Links>,
    firsts: Seq<ScoredPointOffset>,
    links: Links,
    start: ScoredPointOffset,
)
    requires
        are_level_stages(graph, point, scoring, below, firsts),
        is_level_stage(
            graph,
            point,
            scoring,
            firsts.len() as int,
            links,
            below.last(),
            start,
        ),
        firsts.len() > 0 ==> firsts.last() == next_start(
            graph,
            links,
            firsts.len() as int,
            scoring,
            start,
        ),
    ensures
        are_level_stages(graph, point, scoring, below.push(links), firsts.push(start)),
{
    let stages = below.push(links);
    let starts = firsts.push(start);
    let n = firsts.len() as int;
    assert(below.last() == stages[n]);
    assert(stages[n + 1] == links);
    assert forall|l: int| 0 <= l < starts.len() implies is_level_stage(
        graph,
        point,
        scoring,
        l,
        stages[l + 1],
        stages[l],
        #[trigger] starts[l],
    ) by {
        if l < n {
            assert(starts[l] == firsts[l]);
            assert(stages[l] == below[l]);
            assert(stages[l + 1] == below[l + 1]);
        }
    }
    assert forall|l: int| 1 <= l < starts.len() implies starts[l - 1] == next_start(
        graph,
        stages[l + 1],
        l,
        scoring,
        #[trigger] starts[l],
    ) by {
        assert(starts[l - 1] == firsts[l - 1]);
        if l < n {
            assert(starts[l] == firsts[l]);
            assert(stages[l + 1] == below[l + 1]);
        }
    }
}

/// A point for which there is an admitted entry point, whether it was linked before or not,
/// is given its levels and then linked on each level that it shares with the first such
/// entry point, from the highest down. The links of the last stage are those with the
/// levels, and those of the first stage are the result.
pub proof fn law_linking_goes_down_level_by_level(
    graph: Graph,
    point: PointOffsetType,
    level: usize,
    scoring: Scoring,
    at: int,
) -> (r: (Seq<Links>, Seq<ScoredPointOffset>))
    requires
        graph.wf(),
        point < graph.links.len(),
        is_first_entry(graph.entries.main, scoring.admits, at),
    ensures
        ({
            let entry = graph.entries.main[at];
            let raised = graph.with_levels(point, level as nat);
            let top = if level < entry.level {
                level as int
            } else {
                entry.level as int
            };
            &&& are_level_stages(graph, point, scoring, r.0, r.1)
            &&& r.1.len() == top + 1
            &&& r.1.last() == first_start(raised, point, level, entry, scoring)
            &&& r.0.last() == raised.links
            &&& r.0[0] == graph.with_point(point, level, scoring).links
        }),
{
    let entry = graph.entries.main[at];
    let before = prepared(graph, point, level, scoring);
    let raised = graph.with_levels(point, level as nat);
    let top = if level < entry.level {
        level as int
    } else {
        entry.level as int
    };
    let new = EntryPoint { point_id: point, level };
    law_higher_point_becomes_the_entry(graph.entries, new, scoring.admits, at);
    lemma_raised(graph.links, point as int, level as nat);
    let e = graph.entries.main[at];
    assert(has_level(graph.links, e.point_id as int, e.level as int));
    assert(raised.links[e.point_id as int][e.level as int] == graph.links[e.point_id as int][
        e.level as int
    ]);
    before.lemma_level_entry(point, level as nat, entry, scoring);
    if entry.level > level {
        let first = ScoredPointOffset {
            idx: entry.point_id,
            score: (scoring.query)(entry.point_id),
        };
        lemma_descend_same(raised, before, first, entry.level as int, level as int, scoring);
    }
    let start = first_start(raised, point, level, entry, scoring);
    assert(start == before.level_entry(point, level as nat, entry, scoring));
    lemma_linked_down_same(graph, before, before.links, top, point, start, scoring);
    lemma_linked_down_stages(graph, before.links, top, point, start, scoring)
}

// Single steps

/// Giving a point its levels adds empty lists up to its level, leaves all other lists as
/// they are, and raises the highest level noted to that of the point.
pub proof fn law_levels_are_added_empty(graph: Graph, point: PointOffsetType, level: nat)
    requires
        point < graph.links.len(),
    ensures
        ({
            let after = graph.with_levels(point, level);
            let old_len = graph.links[point as int].len();
            &&& after.max_level == if level > graph.max_level {
                level
            } else {
                graph.max_level
            }
            &&& after.links.len() == graph.links.len()
            &&& after.links[point as int].len() == if old_len > level {
                old_len
            } else {
                level + 1
            }
            &&& forall|l: int|
                0 <= l < after.links[point as int].len() ==> #[trigger] after.links[point as int][l]
                    == if l < old_len {
                    graph.links[point as int][l]
                } else {
                    Seq::empty()
                }
            &&& forall|p: int|
                0 <= p < graph.links.len() && p != point ==> #[trigger] after.links[p]
                    == graph.links[p]
            &&& after.entries == graph.entries
            &&& after.m == graph.m
            &&& after.m0 == graph.m0
            &&& after.ef_construct == graph.ef_construct
            &&& after.use_heuristic == graph.use_heuristic
        }),
{
}

/// Connecting a point to the list of another on a level takes it in by its score, with room
/// for `m` points, on the lowest level `m0`, and changes no other list.
pub proof fn law_connecting_on_a_level(
    graph: Graph,
    level: int,
    target: PointOffsetType,
    new: PointOffsetType,
    pair: PairScore,
)
    requires
        has_level(graph.links, target as int, level),
    ensures
        ({
            let after = connect(graph.links, level, graph.m_of(level), target, new, pair);
            &&& takes_in(
                graph.links[target as int][level],
                if level == 0 {
                    graph.m0
                } else {
                    graph.m
                },
                target,
                new,
                pair,
                after[target as int][level],
            )
            &&& after.len() == graph.links.len()
            &&& forall|p: int|
                0 <= p < after.len() ==> (#[trigger] after[p]).len() == graph.links[p].len()
            &&& forall|p: int, l: int|
                has_level(graph.links, p, l) && (p != target || l != level)
                    ==> #[trigger] after[p][l] == graph.links[p][l]
        }),
{
    let list = graph.links[target as int][level];
    law_connecting_takes_in(list, graph.m_of(level), target, new, pair);
}

/// A graph is well formed exactly if on each level all links lead to points that have a
/// list on that level, and all entry points have a list on the level noted for them.
pub proof fn law_well_formed_graphs(graph: Graph)
    ensures
        graph.wf() <==> {
            &&& forall|p: int, l: int, i: int|
                0 <= p < graph.links.len() && 0 <= l < graph.links[p].len() && 0 <= i
                    < graph.links[p][l].len() ==> (#[trigger] graph.links[p][l][i])
                    < graph.links.len() && l < graph.links[graph.links[p][l][i] as int].len()
            &&& forall|i: int|
                0 <= i < graph.entries.main.len() ==> (#[trigger] graph.entries.main[i]).point_id
                    < graph.links.len() && graph.entries.main[i].level
                    < graph.links[graph.entries.main[i].point_id as int].len()
            &&& forall|i: int|
                0 <= i < graph.entries.extra.len() ==> (#[trigger] graph.entries.extra[i]).point_id
                    < graph.links.len() && graph.entries.extra[i].level
                    < graph.links[graph.entries.extra[i].point_id as int].len()
        },
{
}

} // verus!
