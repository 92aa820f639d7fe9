//! What can be relied on of graphs that are built by linking one point after another.

use crate::entry_points::{entry_check, EntryPoint};
use crate::linking_laws::{
    admits_all, changed_on, closest_first, entry_on_top, is_fresh, law_connecting_keeps_the_order,
    law_entry_on_top_is_found, law_linked_point_has_links, law_linking_keeps_entry_on_top,
    law_linking_keeps_graph_well_formed, law_linking_keeps_higher_lists, law_linking_keeps_levels,
    law_linking_keeps_lists_within_limits, law_linking_leaves_higher_levels_empty,
    law_linking_makes_no_self_links, lemma_changed_twice, lemma_linking_start,
    lemma_reachable_is_linked, lemma_unlinked_below, linking_level, lists_within_limits,
    no_self_links, prepared, unlinked, unlinked_up_to,
};
use crate::linking_lemmas::{
    lemma_adopted, lemma_connected_from, lemma_raised, lemma_selected_from, same_shape,
};
use crate::model::{
    adopt_all, adopted, best_of, connect, connect_nearest, connected, farther_than, has_level,
    links_wf, selected, with_list, Graph, Links,
};
use crate::ranking::{first_index, lemma_first_index, lemma_first_index_is};
use crate::scorer::{PairScore, PointCheck, Scoring};
use crate::search_laws::{distinct_points, law_search_result, lists_point};
use crate::search_lemmas::lemma_best_of;
use crate::types::{PointOffsetType, ScoredPointOffset};
use vstd::prelude::*;

verus! {

// Order of the lists

/// Whether each list is ordered by the score of its point against the points in it, the
/// closest first, and contains none of them twice.
pub open spec fn lists_in_order(links: Links, pair: PairScore) -> bool {
    forall|p: PointOffsetType, l: int|
        has_level(links, p as int, l) ==> closest_first(p, #[trigger] links[p as int][l], pair)
            && links[p as int][l].no_duplicates()
}

/// Connecting a point that is not in a list makes no repetition.
pub proof fn lemma_connected_no_duplicates(
    list: Seq<PointOffsetType>,
    limit: nat,
    target: PointOffsetType,
    new: PointOffsetType,
    pair: PairScore,
)
    requires
        list.no_duplicates(),
        !list.contains(new),
    ensures
        connected(list, limit, target, new, pair).no_duplicates(),
{
    let p = farther_than(target, new, pair);
    let at = first_index(list, p);
    lemma_first_index(list, p);
    let after = connected(list, limit, target, new, pair);
    if list.len() < limit || at < list.len() {
        assert forall|i: int, j: int| 0 <= i < after.len() && 0 <= j < after.len() && i != j
            implies after[i] != after[j] by {
            if i < at {
                assert(after[i] == list[i]);
            } else if i > at {
                assert(after[i] == list[i - 1]);
            }
            if j < at {
                assert(after[j] == list[j]);
            } else if j > at {
                assert(after[j] == list[j - 1]);
            }
        }
    }
}

proof fn lemma_connect_in_order(
    links: Links,
    level: int,
    limit: nat,
    target: PointOffsetType,
    new: PointOffsetType,
    pair: PairScore,
)
    requires
        lists_in_order(links, pair),
        has_level(links, target as int, level),
        !links[target as int][level].contains(new),
    ensures
        lists_in_order(connect(links, level, limit, target, new, pair), pair),
        changed_on(links, connect(links, level, limit, target, new, pair), level),
{
    let list = links[target as int][level];
    let after = connect(links, level, limit, target, new, pair);
    law_connecting_keeps_the_order(list, limit, target, new, pair);
    lemma_connected_no_duplicates(list, limit, target, new, pair);
    assert forall|p: PointOffsetType, l: int| has_level(after, p as int, l) implies closest_first(
        p,
        #[trigger] after[p as int][l],
        pair,
    ) && after[p as int][l].no_duplicates() by {
        if p != target || l != level {
            assert(after[p as int][l] == links[p as int][l]);
        }
    }
}

/// Connecting a new point that nothing links to with distinct others keeps all lists
/// in order. The new point then links to the others alone, and only they link to it.
proof fn lemma_connect_nearest_in_order(
    links: Links,
    level: int,
    limit: nat,
    point: PointOffsetType,
    nearest: Seq<ScoredPointOffset>,
    pair: PairScore,
)
    requires
        lists_in_order(links, pair),
        has_level(links, point as int, level),
        links[point as int][level].len() == 0,
        unlinked_up_to(links, point, level),
        distinct_points(nearest),
        forall|i: int|
            0 <= i < nearest.len() ==> has_level(links, (#[trigger] nearest[i]).idx as int, level)
                && nearest[i].idx != point,
    ensures
        ({
            let after = connect_nearest(links, level, limit, point, nearest, pair);
            &&& lists_in_order(after, pair)
            &&& changed_on(links, after, level)
            &&& forall|q: PointOffsetType| #[trigger]
                after[point as int][level].contains(q) ==> lists_point(nearest, q)
            &&& forall|p: PointOffsetType|
                has_level(links, p as int, level) && (
                #[trigger] after[p as int])[level].contains(point) ==> lists_point(nearest, p)
        }),
    decreases nearest.len(),
{
    let after = connect_nearest(links, level, limit, point, nearest, pair);
    if nearest.len() > 0 {
        let head = nearest.drop_last();
        assert forall|i: int| 0 <= i < head.len() implies has_level(
            links,
            (#[trigger] head[i]).idx as int,
            level,
        ) && head[i].idx != point by {
            assert(head[i] == nearest[i]);
        }
        lemma_connect_nearest_in_order(links, level, limit, point, head, pair);
        let before = connect_nearest(links, level, limit, point, head, pair);
        let last = nearest[nearest.len() - 1];
        let other = last.idx;
        assert(has_level(links, other as int, level) && other != point);
        assert(before[point as int].len() == links[point as int].len());
        assert(before[other as int].len() == links[other as int].len());
        assert(!lists_point(head, other)) by {
            if lists_point(head, other) {
                let i = choose|i: int| 0 <= i < head.len() && (#[trigger] head[i]).idx == other;
                assert(nearest[i].idx != nearest[nearest.len() - 1].idx);
            }
        }
        lemma_connect_in_order(before, level, limit, point, other, pair);
        let there = connect(before, level, limit, point, other, pair);
        assert(there[other as int] == before[other as int]);
        lemma_connect_in_order(there, level, limit, other, point, pair);
        assert(after == connect(there, level, limit, other, point, pair));
        lemma_changed_twice(links, before, there, level);
        lemma_changed_twice(links, there, after, level);
        assert forall|q: PointOffsetType| lists_point(head, q) || q == other implies
            #[trigger] lists_point(nearest, q) by {
            if lists_point(head, q) {
                let i = choose|i: int| 0 <= i < head.len() && (#[trigger] head[i]).idx == q;
                assert(nearest[i].idx == q);
            } else {
                assert(nearest[nearest.len() - 1].idx == q);
            }
        }
        assert(after[point as int] == there[point as int]);
        assert forall|q: PointOffsetType| #[trigger]
            after[point as int][level].contains(q) implies lists_point(nearest, q) by {
            let list = there[point as int][level];
            let i = choose|i: int| 0 <= i < list.len() && list[i] == q;
            lemma_connected_from(before[point as int][level], limit, point, other, pair, i);
            assert(q == other || before[point as int][level].contains(q));
        }
        assert forall|p: PointOffsetType|
            has_level(links, p as int, level) && (
            #[trigger] after[p as int])[level].contains(point) implies lists_point(nearest, p) by {
            if p == point {
                assert(after[point as int][level].contains(point));
                assert(lists_point(nearest, point));
            } else if p != other {
                assert(after[p as int] == before[p as int]);
            }
        }
    } else {
        assert forall|p: PointOffsetType|
            has_level(links, p as int, level) implies !(
        #[trigger] after[p as int])[level].contains(point) by {
            if after[p as int][level].contains(point) {
                let list = links[p as int][level];
                let i = choose|i: int| 0 <= i < list.len() && list[i] == point;
                assert(links[p as int][level][i] != point);
            }
        }
    }
}

proof fn lemma_linked_down_in_order(
    graph: Graph,
    links: Links,
    level: int,
    point: PointOffsetType,
    entry: ScoredPointOffset,
    scoring: Scoring,
)
    requires
        !graph.use_heuristic,
        links_wf(links),
        lists_in_order(links, scoring.pair),
        unlinked_up_to(links, point, level),
        level >= 0 ==> has_level(links, point as int, level),
        level >= 0 ==> has_level(links, entry.idx as int, level),
        forall|l: int| 0 <= l <= level ==> (#[trigger] links[point as int][l]).len() == 0,
        entry.idx != point,
    ensures
        lists_in_order(graph.linked_down(links, level, point, entry, scoring), scoring.pair),
    decreases level + 1,
{
    if level >= 0 {
        let layer = graph.layer(links, level, scoring);
        let nearest = layer.search(graph.ef_construct, entry);
        law_search_result(layer, graph.ef_construct, entry);
        assert forall|i: int| 0 <= i < nearest.len() implies has_level(
            links,
            (#[trigger] nearest[i]).idx as int,
            level,
        ) && nearest[i].idx != point by {
            assert(layer.has_point(layer.search(graph.ef_construct, entry)[i].idx));
            lemma_reachable_is_linked(layer, entry.idx, nearest[i].idx, point);
        }
        graph.lemma_linked_on(links, level, point, nearest, scoring.pair);
        assert(links[point as int][level].len() == 0);
        lemma_connect_nearest_in_order(
            links,
            level,
            graph.m_of(level),
            point,
            nearest,
            scoring.pair,
        );
        lemma_best_of(entry, nearest);
        let next = best_of(entry, nearest);
        let mid = graph.linked_on(links, level, point, nearest, scoring.pair);
        assert(has_level(links, next.idx as int, level) && next.idx != point);
        assert(mid[point as int].len() == links[point as int].len());
        assert(mid[next.idx as int].len() == links[next.idx as int].len());
        lemma_unlinked_below(links, mid, level, point);
        assert forall|l: int| 0 <= l <= level - 1 implies (
        #[trigger] mid[point as int][l]).len() == 0 by {
            assert(links[point as int][l].len() == 0);
            assert(mid[point as int][l] == links[point as int][l]);
        }
        lemma_linked_down_in_order(graph, mid, level - 1, point, next, scoring);
    }
}

/// Without the heuristic, linking a fresh point that has no links keeps all lists in
/// order, the closest first, and free of repetition.
pub proof fn law_linking_keeps_lists_in_order(
    graph: Graph,
    point: PointOffsetType,
    level: usize,
    scoring: Scoring,
)
    requires
        !graph.use_heuristic,
        graph.wf(),
        point < graph.links.len(),
        is_fresh(graph, point),
        forall|l: int|
            0 <= l < graph.links[point as int].len() ==> (
            #[trigger] graph.links[point as int][l]).len() == 0,
        lists_in_order(graph.links, scoring.pair),
    ensures
        lists_in_order(graph.with_point(point, level, scoring).links, scoring.pair),
{
    let before = prepared(graph, point, level, scoring);
    lemma_raised(graph.links, point as int, level as nat);
    assert forall|p: PointOffsetType, l: int|
        has_level(before.links, p as int, l) implies closest_first(
        p,
        #[trigger] before.links[p as int][l],
        scoring.pair,
    ) && before.links[p as int][l].no_duplicates() by {
        if has_level(graph.links, p as int, l) {
            assert(before.links[p as int][l] == graph.links[p as int][l]);
        } else {
            assert(before.links[p as int][l].len() == 0);
        }
    }
    if let Some(entry) = graph.entries.first_main(scoring.admits) {
        let top = linking_level(level, entry);
        let start = lemma_linking_start(graph, point, level, scoring, entry, point);
        assert forall|l: int| 0 <= l <= top implies (
        #[trigger] before.links[point as int][l]).len() == 0 by {
            if has_level(graph.links, point as int, l) {
                assert(graph.links[point as int][l].len() == 0);
                assert(before.links[point as int][l] == graph.links[point as int][l]);
            } else {
                assert(has_level(before.links, point as int, l));
            }
        }
        lemma_linked_down_in_order(before, before.links, top, point, start, scoring);
    }
}

// Points that were not linked yet

/// Whether a point has one list, which is empty, and is neither in any list nor an
/// entry point.
pub open spec fn never_linked(graph: Graph, point: PointOffsetType) -> bool {
    &&& point < graph.links.len()
    &&& graph.links[point as int].len() == 1
    &&& graph.links[point as int][0].len() == 0
    &&& is_fresh(graph, point)
    &&& forall|i: int|
        0 <= i < graph.entries.extra.len() ==> (#[trigger] graph.entries.extra[i]).point_id
            != point
}

/// The point links to the same points as before, and still no list contains it.
spec fn spared(a: Links, b: Links, point: PointOffsetType) -> bool {
    &&& a.len() == b.len()
    &&& point < a.len() ==> b[point as int] == a[point as int]
    &&& unlinked(b, point)
}

proof fn lemma_with_list_spares(
    links: Links,
    p: int,
    level: int,
    list: Seq<PointOffsetType>,
    point: PointOffsetType,
)
    requires
        unlinked(links, point),
        has_level(links, p, level),
        p != point,
        !list.contains(point),
    ensures
        spared(links, with_list(links, p, level, list), point),
{
    let after = with_list(links, p, level, list);
    assert forall|q: int, l: int, i: int|
        has_level(after, q, l) && 0 <= i < after[q][l].len() implies #[trigger] after[q][l][i]
        != point by {
        if q == p && l == level {
            assert(after[q][l][i] == list[i]);
        } else {
            assert(after[q][l] == links[q][l]);
            assert(links[q][l][i] != point);
        }
    }
}

proof fn lemma_list_misses(links: Links, p: int, level: int, point: PointOffsetType)
    requires
        unlinked(links, point),
        has_level(links, p, level),
    ensures
        !links[p][level].contains(point),
{
    if links[p][level].contains(point) {
        let i = choose|i: int| 0 <= i < links[p][level].len() && links[p][level][i] == point;
        assert(links[p][level][i] != point);
    }
}

proof fn lemma_connect_spares(
    links: Links,
    level: int,
    limit: nat,
    target: PointOffsetType,
    new: PointOffsetType,
    pair: PairScore,
    point: PointOffsetType,
)
    requires
        unlinked(links, point),
        has_level(links, target as int, level),
        target != point,
        new != point,
    ensures
        spared(links, connect(links, level, limit, target, new, pair), point),
        same_shape(links, connect(links, level, limit, target, new, pair)),
{
    let list = links[target as int][level];
    let after = connected(list, limit, target, new, pair);
    lemma_list_misses(links, target as int, level, point);
    if after.contains(point) {
        let i = choose|i: int| 0 <= i < after.len() && after[i] == point;
        lemma_connected_from(list, limit, target, new, pair, i);
    }
    lemma_with_list_spares(links, target as int, level, after, point);
}

proof fn lemma_connect_nearest_spares(
    links: Links,
    level: int,
    limit: nat,
    new: PointOffsetType,
    nearest: Seq<ScoredPointOffset>,
    pair: PairScore,
    point: PointOffsetType,
)
    requires
        unlinked(links, point),
        has_level(links, new as int, level),
        new != point,
        forall|i: int|
            0 <= i < nearest.len() ==> has_level(links, (#[trigger] nearest[i]).idx as int, level)
                && nearest[i].idx != point,
    ensures
        spared(links, connect_nearest(links, level, limit, new, nearest, pair), point),
        same_shape(links, connect_nearest(links, level, limit, new, nearest, pair)),
    decreases nearest.len(),
{
    if nearest.len() > 0 {
        let head = nearest.drop_last();
        assert forall|i: int| 0 <= i < head.len() implies has_level(
            links,
            (#[trigger] head[i]).idx as int,
            level,
        ) && head[i].idx != point by {
            assert(head[i] == nearest[i]);
        }
        lemma_connect_nearest_spares(links, level, limit, new, head, pair, point);
        let before = connect_nearest(links, level, limit, new, head, pair);
        let other = nearest[nearest.len() - 1].idx;
        assert(has_level(links, other as int, level) && other != point);
        assert(before[new as int].len() == links[new as int].len());
        assert(before[other as int].len() == links[other as int].len());
        lemma_connect_spares(before, level, limit, new, other, pair, point);
        let there = connect(before, level, limit, new, other, pair);
        assert(there[other as int].len() == before[other as int].len());
        lemma_connect_spares(there, level, limit, other, new, pair, point);
        let after = connect(there, level, limit, other, new, pair);
        assert forall|p: int| 0 <= p < links.len() implies (#[trigger] links[p]).len()
            == after[p].len() by {
            assert(links[p].len() == before[p].len());
            assert(before[p].len() == there[p].len());
            assert(there[p].len() == after[p].len());
        }
    }
}

proof fn lemma_adopt_all_spares(
    links: Links,
    level: int,
    m: nat,
    new: PointOffsetType,
    others: Seq<PointOffsetType>,
    pair: PairScore,
    point: PointOffsetType,
)
    requires
        unlinked(links, point),
        new != point,
        forall|i: int|
            0 <= i < others.len() ==> has_level(links, #[trigger] others[i] as int, level)
                && others[i] != point,
    ensures
        spared(links, adopt_all(links, level, m, new, others, pair), point),
        same_shape(links, adopt_all(links, level, m, new, others, pair)),
    decreases others.len(),
{
    if others.len() > 0 {
        let head = others.drop_last();
        assert forall|i: int| 0 <= i < head.len() implies has_level(
            links,
            #[trigger] head[i] as int,
            level,
        ) && head[i] != point by {
            assert(head[i] == others[i]);
        }
        lemma_adopt_all_spares(links, level, m, new, head, pair, point);
        let before = adopt_all(links, level, m, new, head, pair);
        let other = others[others.len() - 1];
        assert(has_level(links, other as int, level) && other != point);
        assert(before[other as int].len() == links[other as int].len());
        let list = before[other as int][level];
        let front = adopted(list, m, new, other, pair);
        lemma_adopted(list, m, new, other, pair);
        lemma_list_misses(before, other as int, level, point);
        if front.contains(point) {
            let i = choose|i: int| 0 <= i < front.len() && front[i] == point;
            assert(front[i] == new || list.contains(front[i]));
        }
        lemma_with_list_spares(before, other as int, level, front, point);
        let after = with_list(before, other as int, level, front);
        assert forall|p: int| 0 <= p < links.len() implies (#[trigger] links[p]).len()
            == after[p].len() by {
            assert(links[p].len() == before[p].len());
        }
    }
}

proof fn lemma_linked_on_spares(
    graph: Graph,
    links: Links,
    level: int,
    new: PointOffsetType,
    nearest: Seq<ScoredPointOffset>,
    pair: PairScore,
    point: PointOffsetType,
)
    requires
        unlinked(links, point),
        has_level(links, new as int, level),
        new != point,
        forall|i: int|
            0 <= i < nearest.len() ==> has_level(links, (#[trigger] nearest[i]).idx as int, level)
                && nearest[i].idx != point,
    ensures
        spared(links, graph.linked_on(links, level, new, nearest, pair), point),
{
    let m = graph.m_of(level);
    if graph.use_heuristic {
        let chosen = selected(nearest, m, pair);
        let own = with_list(links, new as int, level, chosen);
        assert forall|i: int| 0 <= i < chosen.len() implies has_level(
            own,
            #[trigger] chosen[i] as int,
            level,
        ) && chosen[i] != point by {
            let j = lemma_selected_from(nearest, m, pair, i);
            assert(has_level(links, nearest[j].idx as int, level));
        }
        lemma_with_list_spares(links, new as int, level, chosen, point);
        lemma_adopt_all_spares(own, level, m, new, chosen, pair, point);
    } else {
        lemma_connect_nearest_spares(links, level, m, new, nearest, pair, point);
    }
}

proof fn lemma_linked_down_spares(
    graph: Graph,
    links: Links,
    level: int,
    new: PointOffsetType,
    entry: ScoredPointOffset,
    scoring: Scoring,
    point: PointOffsetType,
)
    requires
        links_wf(links),
        unlinked(links, point),
        level >= 0 ==> has_level(links, new as int, level),
        level >= 0 ==> has_level(links, entry.idx as int, level),
        new != point,
        entry.idx != point,
    ensures
        spared(links, graph.linked_down(links, level, new, entry, scoring), point),
    decreases level + 1,
{
    if level >= 0 {
        let layer = graph.layer(links, level, scoring);
        let nearest = layer.search(graph.ef_construct, entry);
        law_search_result(layer, graph.ef_construct, entry);
        assert forall|i: int| 0 <= i < nearest.len() implies has_level(
            links,
            (#[trigger] nearest[i]).idx as int,
            level,
        ) && nearest[i].idx != point by {
            assert(layer.has_point(layer.search(graph.ef_construct, entry)[i].idx));
            lemma_reachable_is_linked(layer, entry.idx, nearest[i].idx, point);
        }
        graph.lemma_linked_on(links, level, new, nearest, scoring.pair);
        lemma_linked_on_spares(graph, links, level, new, nearest, scoring.pair, point);
        lemma_best_of(entry, nearest);
        let next = if graph.use_heuristic {
            entry
        } else {
            best_of(entry, nearest)
        };
        let mid = graph.linked_on(links, level, new, nearest, scoring.pair);
        assert(has_level(links, next.idx as int, level) && next.idx != point);
        assert(mid[new as int].len() == links[new as int].len());
        assert(mid[next.idx as int].len() == links[next.idx as int].len());
        lemma_linked_down_spares(graph, mid, level - 1, new, next, scoring, point);
    }
}

/// A point that was never linked stays so while other points are linked.
pub proof fn law_linking_spares_points_never_linked(
    graph: Graph,
    point: PointOffsetType,
    level: usize,
    scoring: Scoring,
    other: PointOffsetType,
)
    requires
        graph.wf(),
        point < graph.links.len(),
        never_linked(graph, other),
        other != point,
    ensures
        never_linked(graph.with_point(point, level, scoring), other),
{
    let before = prepared(graph, point, level, scoring);
    let after = graph.with_point(point, level, scoring);
    let new = EntryPoint { point_id: point, level };
    graph.entries.lemma_with_point_from(new, scoring.admits);
    assert forall|i: int| 0 <= i < after.entries.main.len() implies (
    #[trigger] after.entries.main[i]).point_id != other by {
        let e = graph.entries.with_point(new, scoring.admits).main[i];
        if e != new {
            let j = choose|j: int| 0 <= j < graph.entries.main.len() && graph.entries.main[j] == e;
            assert(graph.entries.main[j].point_id != other);
        }
    }
    assert forall|i: int| 0 <= i < after.entries.extra.len() implies (
    #[trigger] after.entries.extra[i]).point_id != other by {
        let e = graph.entries.with_point(new, scoring.admits).extra[i];
        if graph.entries.main.contains(e) {
            let j = choose|j: int| 0 <= j < graph.entries.main.len() && graph.entries.main[j] == e;
            assert(graph.entries.main[j].point_id != other);
        } else if e != new {
            let j = choose|j: int|
                0 <= j < graph.entries.extra.len() && graph.entries.extra[j] == e;
            assert(graph.entries.extra[j].point_id != other);
        }
    }
    lemma_raised(graph.links, point as int, level as nat);
    assert(before.links[other as int] == graph.links[other as int]);
    if let Some(entry) = graph.entries.first_main(scoring.admits) {
        let top = linking_level(level, entry);
        let start = lemma_linking_start(graph, point, level, scoring, entry, other);
        lemma_linked_down_spares(before, before.links, top, point, start, scoring, other);
    } else {
        assert forall|p: int, l: int, i: int|
            has_level(after.links, p, l) && 0 <= i < after.links[p][l].len() implies
            #[trigger] after.links[p][l][i] != other by {
            assert(has_level(graph.links, p, l));
            assert(after.links[p][l] == graph.links[p][l]);
            assert(graph.links[p][l][i] != other);
        }
    }
}

// Building a graph

/// One point to be linked: its level, and how points are scored for it.
pub struct Linking {
    pub point: PointOffsetType,
    pub level: usize,
    pub scoring: Scoring,
}

/// The graph after points were linked, one after the other.
pub open spec fn built(graph: Graph, steps: Seq<Linking>) -> Graph
    decreases steps.len(),
{
    if steps.len() == 0 {
        graph
    } else {
        let step = steps.last();
        built(graph, steps.drop_last()).with_point(step.point, step.level, step.scoring)
    }
}

/// Whether no point was linked yet: each has one empty list, and there is no entry
/// point.
pub open spec fn is_new(graph: Graph) -> bool {
    &&& graph.max_level == 0
    &&& graph.entries.main.len() == 0
    &&& graph.entries.extra.len() == 0
    &&& forall|p: int|
        0 <= p < graph.links.len() ==> (#[trigger] graph.links[p]).len() == 1
            && graph.links[p][0].len() == 0
}

/// Whether the points to be linked belong to the graph, and none is linked twice.
pub open spec fn links_distinct_points(graph: Graph, steps: Seq<Linking>) -> bool {
    &&& forall|i: int| 0 <= i < steps.len() ==> (#[trigger] steps[i]).point < graph.links.len()
    &&& forall|i: int, j: int|
        0 <= i < j < steps.len() ==> (#[trigger] steps[i]).point != (#[trigger] steps[j]).point
}

/// Whether the point is among those to be linked.
pub open spec fn links_point(steps: Seq<Linking>, point: PointOffsetType) -> bool {
    exists|i: int| 0 <= i < steps.len() && (#[trigger] steps[i]).point == point
}

/// Whether all points of the graph are admitted whenever one is linked.
pub open spec fn always_admits_all(graph: Graph, steps: Seq<Linking>) -> bool {
    forall|i: int|
        0 <= i < steps.len() ==> admits_all(graph, (#[trigger] steps[i]).scoring.admits)
}

proof fn lemma_without_last(graph: Graph, steps: Seq<Linking>)
    requires
        steps.len() > 0,
        links_distinct_points(graph, steps),
    ensures
        links_distinct_points(graph, steps.drop_last()),
        steps.last().point < graph.links.len(),
        !links_point(steps.drop_last(), steps.last().point),
        forall|p: PointOffsetType| #[trigger]
            links_point(steps.drop_last(), p) ==> links_point(steps, p),
        always_admits_all(graph, steps) ==> always_admits_all(graph, steps.drop_last())
            && admits_all(graph, steps.last().scoring.admits),
{
    let head = steps.drop_last();
    let last = steps[steps.len() - 1];
    assert(last.point < graph.links.len());
    assert forall|i: int| 0 <= i < head.len() implies (#[trigger] head[i]).point
        < graph.links.len() && head[i].point != last.point by {
        assert(steps[i] == head[i]);
        assert(steps[i].point != steps[steps.len() - 1].point);
    }
    assert forall|i: int, j: int| 0 <= i < j < head.len() implies (#[trigger] head[i]).point != (
    #[trigger] head[j]).point by {
        assert(steps[i].point != steps[j].point);
    }
    assert forall|p: PointOffsetType| #[trigger] links_point(head, p) implies links_point(
        steps,
        p,
    ) by {
        let i = choose|i: int| 0 <= i < head.len() && (#[trigger] head[i]).point == p;
        assert(steps[i].point == p);
    }
    if always_admits_all(graph, steps) {
        assert(admits_all(graph, last.scoring.admits));
        assert forall|i: int| 0 <= i < head.len() implies admits_all(
            graph,
            (#[trigger] head[i]).scoring.admits,
        ) by {
            assert(admits_all(graph, steps[i].scoring.admits));
        }
    }
}

/// A graph whose points were linked one after the other, none twice, is well formed. Its
/// lists are within their limits, and no point links to itself. Each point that was
/// linked reaches up to its level; each other one is as it was at first.
pub proof fn law_built_graph(graph: Graph, steps: Seq<Linking>)
    requires
        is_new(graph),
        links_distinct_points(graph, steps),
    ensures
        ({
            let after = built(graph, steps);
            &&& after.wf()
            &&& after.links.len() == graph.links.len()
            &&& after.m == graph.m
            &&& after.m0 == graph.m0
            &&& after.ef_construct == graph.ef_construct
            &&& after.use_heuristic == graph.use_heuristic
            &&& lists_within_limits(after)
            &&& no_self_links(after.links)
            &&& forall|i: int|
                0 <= i < steps.len() ==> after.links[(#[trigger] steps[i]).point as int].len()
                    == steps[i].level + 1
            &&& forall|p: PointOffsetType|
                p < graph.links.len() && !links_point(steps, p) ==> #[trigger] never_linked(
                    after,
                    p,
                )
        }),
    decreases steps.len(),
{
    let after = built(graph, steps);
    if steps.len() > 0 {
        let head = steps.drop_last();
        let step = steps.last();
        lemma_without_last(graph, steps);
        law_built_graph(graph, head);
        let before = built(graph, head);
        assert(never_linked(before, step.point));
        law_linking_keeps_graph_well_formed(before, step.point, step.level, step.scoring);
        law_linking_keeps_levels(before, step.point, step.level, step.scoring);
        law_linking_keeps_lists_within_limits(before, step.point, step.level, step.scoring);
        law_linking_makes_no_self_links(before, step.point, step.level, step.scoring);
        assert forall|i: int| 0 <= i < steps.len() implies after.links[(
        #[trigger] steps[i]).point as int].len() == steps[i].level + 1 by {
            if i < head.len() {
                assert(head[i] == steps[i]);
                assert(steps[i].point != steps[steps.len() - 1].point);
                assert(before.links[head[i].point as int].len() == head[i].level + 1);
            }
        }
        assert forall|p: PointOffsetType|
            p < graph.links.len() && !links_point(steps, p) implies #[trigger] never_linked(
            after,
            p,
        ) by {
            assert(never_linked(before, p));
            assert(steps[steps.len() - 1].point != p);
            law_linking_spares_points_never_linked(
                before,
                step.point,
                step.level,
                step.scoring,
                p,
            );
        }
    } else {
        assert forall|p: int, l: int| has_level(graph.links, p, l) implies (
        #[trigger] graph.links[p][l]).len() == 0 by {
            assert(graph.links[p].len() == 1);
        }
    }
}

/// If all points are admitted whenever one is linked, then from the first linking on
/// there is one entry point, on the highest level of all points.
pub proof fn law_built_graph_has_entry_on_top(graph: Graph, steps: Seq<Linking>)
    requires
        is_new(graph),
        links_distinct_points(graph, steps),
        always_admits_all(graph, steps),
    ensures
        entry_on_top(built(graph, steps)),
        built(graph, steps).entries.main.len() == if steps.len() == 0 {
            0nat
        } else {
            1nat
        },
    decreases steps.len(),
{
    if steps.len() > 0 {
        let head = steps.drop_last();
        let step = steps.last();
        lemma_without_last(graph, steps);
        law_built_graph(graph, head);
        law_built_graph_has_entry_on_top(graph, head);
        let before = built(graph, head);
        assert(admits_all(before, step.scoring.admits));
        law_linking_keeps_entry_on_top(before, step.point, step.level, step.scoring);
    }
}

/// A lookup in such a graph then finds an entry point that reaches up to the highest
/// level of all points.
pub proof fn law_built_graph_is_entered_on_top(
    graph: Graph,
    steps: Seq<Linking>,
    admits: PointCheck,
)
    requires
        is_new(graph),
        links_distinct_points(graph, steps),
        always_admits_all(graph, steps),
        steps.len() > 0,
        admits_all(graph, admits),
    ensures
        ({
            let after = built(graph, steps);
            after.entries.lookup(admits) matches Some(entry)
                && after.links[entry.point_id as int].len() == entry.level + 1 && forall|p: int|
                0 <= p < after.links.len() ==> (#[trigger] after.links[p]).len() <= entry.level + 1
        }),
{
    let after = built(graph, steps);
    law_built_graph(graph, steps);
    law_built_graph_has_entry_on_top(graph, steps);
    assert(admits_all(after, admits));
    law_entry_on_top_is_found(after, admits);
}

/// If the heuristic is not used, and the same scores are taken between points
/// throughout, then all lists are in order, the closest first, and free of repetition.
pub proof fn law_built_lists_are_in_order(graph: Graph, steps: Seq<Linking>, pair: PairScore)
    requires
        is_new(graph),
        links_distinct_points(graph, steps),
        !graph.use_heuristic,
        forall|i: int| 0 <= i < steps.len() ==> (#[trigger] steps[i]).scoring.pair == pair,
    ensures
        lists_in_order(built(graph, steps).links, pair),
    decreases steps.len(),
{
    if steps.len() > 0 {
        let head = steps.drop_last();
        let step = steps[steps.len() - 1];
        lemma_without_last(graph, steps);
        law_built_graph(graph, head);
        assert forall|i: int| 0 <= i < head.len() implies (#[trigger] head[i]).scoring.pair
            == pair by {
            assert(steps[i].scoring.pair == pair);
        }
        law_built_lists_are_in_order(graph, head, pair);
        let before = built(graph, head);
        assert(never_linked(before, step.point));
        law_linking_keeps_lists_in_order(before, step.point, step.level, step.scoring);
    } else {
        assert forall|p: PointOffsetType, l: int| has_level(graph.links, p as int, l) implies (
        #[trigger] graph.links[p as int][l]).len() == 0 by {
            assert(graph.links[p as int].len() == 1);
        }
    }
}

/// One more point is linked into such a graph, while all points are admitted. Of its
/// levels, it then has links on exactly those that the graph had before. Other points
/// keep their lists on all levels above its own, and above those the graph had before.
pub proof fn law_linking_into_built_graph(graph: Graph, steps: Seq<Linking>, step: Linking)
    requires
        is_new(graph),
        graph.m > 0,
        graph.m0 > 0,
        graph.ef_construct > 0,
        steps.len() > 0,
        links_distinct_points(graph, steps.push(step)),
        always_admits_all(graph, steps.push(step)),
    ensures
        ({
            let before = built(graph, steps);
            let after = built(graph, steps.push(step));
            let top = if step.level < before.max_level {
                step.level as int
            } else {
                before.max_level as int
            };
            &&& forall|l: int|
                0 <= l <= step.level ==> ((#[trigger] after.links[step.point as int][l]).len() > 0
                    <==> l <= top)
            &&& forall|p: int, l: int|
                p != step.point && l > top && has_level(before.links, p, l)
                    ==> #[trigger] after.links[p][l] == before.links[p][l]
        }),
{
    let all = steps.push(step);
    assert(all.drop_last() =~= steps);
    lemma_without_last(graph, all);
    law_built_graph(graph, steps);
    law_built_graph_has_entry_on_top(graph, steps);
    let before = built(graph, steps);
    let after = built(graph, all);
    let entry = before.entries.main[0];
    let admits = step.scoring.admits;
    assert(has_level(before.links, entry.point_id as int, entry.level as int));
    assert(entry_check(admits)(entry));
    lemma_first_index_is(before.entries.main, entry_check(admits), 0);
    let top = linking_level(step.level, entry);
    assert(never_linked(before, step.point));
    assert forall|l: int| 0 <= l <= step.level implies ((
    #[trigger] after.links[step.point as int][l]).len() > 0 <==> l <= top) by {
        if l <= top {
            law_linked_point_has_links(before, step.point, step.level, step.scoring, entry, l);
        } else {
            law_linking_leaves_higher_levels_empty(
                before,
                step.point,
                step.level,
                step.scoring,
                l,
            );
        }
    }
    assert forall|p: int, l: int|
        p != step.point && l > top && has_level(before.links, p, l) implies
        #[trigger] after.links[p][l] == before.links[p][l] by {
        law_linking_keeps_higher_lists(before, step.point, step.level, step.scoring, p, l);
    }
}

} // verus!
