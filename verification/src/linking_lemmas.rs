//! Facts about lists of links and how linking changes them.

use crate::entry_points::EntryPoint;
use crate::model::{
    adopt_all, adopted, best_of, connect, connect_nearest, connected, farther_than, has_level,
    links_wf, raised, scored_against, selected, with_list, Graph, Links,
};
use crate::ranking::{
    first_index, law_ranked_orders_the_same_items, lemma_first_index, ranked,
};
use crate::scorer::{PairScore, Scoring};
use crate::search_lemmas::lemma_best_of;
use crate::types::{PointOffsetType, ScoredPointOffset};
use vstd::prelude::*;

verus! {

/// A selected point is one of the candidates.
pub proof fn lemma_selected_from(
    candidates: Seq<ScoredPointOffset>,
    m: nat,
    pair: PairScore,
    at: int,
) -> (i: int)
    requires
        0 <= at < selected(candidates, m, pair).len(),
    ensures
        0 <= i < candidates.len(),
        candidates[i].idx == selected(candidates, m, pair)[at],
    decreases candidates.len(),
{
    let before = selected(candidates.drop_last(), m, pair);
    if at < before.len() {
        lemma_selected_from(candidates.drop_last(), m, pair, at)
    } else {
        candidates.len() - 1
    }
}

/// No more points are selected than asked for, nor than there are candidates.
pub proof fn lemma_selected_len(candidates: Seq<ScoredPointOffset>, m: nat, pair: PairScore)
    ensures
        selected(candidates, m, pair).len() <= m,
        selected(candidates, m, pair).len() <= candidates.len(),
        candidates.len() > 0 && m > 0 ==> selected(candidates, m, pair).len() > 0,
    decreases candidates.len(),
{
    if candidates.len() > 0 {
        lemma_selected_len(candidates.drop_last(), m, pair);
    }
}

/// Once enough points are selected, the other candidates make no difference.
pub proof fn lemma_selected_full(
    candidates: Seq<ScoredPointOffset>,
    at: int,
    m: nat,
    pair: PairScore,
)
    requires
        0 <= at <= candidates.len(),
        at == candidates.len() || selected(candidates.take(at), m, pair).len() >= m,
    ensures
        selected(candidates, m, pair) == selected(candidates.take(at), m, pair),
    decreases candidates.len() - at,
{
    if at == candidates.len() {
        assert(candidates.take(at) =~= candidates);
    } else {
        assert(candidates.take(at + 1).drop_last() =~= candidates.take(at));
        lemma_selected_full(candidates, at + 1, m, pair);
    }
}

/// Whether two graphs have the same points on the same levels.
pub open spec fn same_shape(a: Links, b: Links) -> bool {
    &&& a.len() == b.len()
    &&& forall|p: int| 0 <= p < a.len() ==> (#[trigger] a[p]).len() == b[p].len()
}

/// Replacing a list keeps the shape, and by points of the same level also the good
/// order of the links.
pub proof fn lemma_with_list(links: Links, point: int, level: int, list: Seq<PointOffsetType>)
    requires
        links_wf(links),
        has_level(links, point, level),
        forall|i: int|
            0 <= i < list.len() ==> has_level(links, #[trigger] list[i] as int, level),
    ensures
        same_shape(links, with_list(links, point, level, list)),
        links_wf(with_list(links, point, level, list)),
{
    let after = with_list(links, point, level, list);
    assert forall|p: int, l: int, i: int|
        has_level(after, p, l) && 0 <= i < after[p][l].len() implies has_level(
        after,
        #[trigger] after[p][l][i] as int,
        l,
    ) by {
        if p == point && l == level {
            assert(after[p][l][i] == list[i]);
        } else {
            assert(after[p][l] == links[p][l]);
            assert(has_level(links, links[p][l][i] as int, l));
        }
    }
}

/// The links of a point are on the level of the list.
pub proof fn lemma_list_on_level(links: Links, point: int, level: int)
    requires
        links_wf(links),
        has_level(links, point, level),
    ensures
        forall|i: int|
            0 <= i < links[point][level].len() ==> has_level(
                links,
                #[trigger] links[point][level][i] as int,
                level,
            ),
{
}

/// What is in a list after a point was connected was there before, or is the point.
pub proof fn lemma_connected_from(
    list: Seq<PointOffsetType>,
    limit: nat,
    target: PointOffsetType,
    new: PointOffsetType,
    pair: PairScore,
    i: int,
)
    requires
        0 <= i < connected(list, limit, target, new, pair).len(),
    ensures
        connected(list, limit, target, new, pair)[i] == new || list.contains(
            connected(list, limit, target, new, pair)[i],
        ),
{
    let p = farther_than(target, new, pair);
    let at = first_index(list, p);
    lemma_first_index(list, p);
    let r = connected(list, limit, target, new, pair);
    if list.len() < limit || at < list.len() {
        if i < at {
            assert(r[i] == list[i]);
        } else if i > at {
            assert(r[i] == list[i - 1]);
        }
    } else {
        assert(r[i] == list[i]);
    }
}

/// Connecting a point of the level keeps the links well formed.
pub proof fn lemma_connect(
    links: Links,
    level: int,
    limit: nat,
    target: PointOffsetType,
    new: PointOffsetType,
    pair: PairScore,
)
    requires
        links_wf(links),
        has_level(links, target as int, level),
        has_level(links, new as int, level),
    ensures
        same_shape(links, connect(links, level, limit, target, new, pair)),
        links_wf(connect(links, level, limit, target, new, pair)),
{
    let list = links[target as int][level];
    let after = connected(list, limit, target, new, pair);
    lemma_list_on_level(links, target as int, level);
    assert forall|i: int| 0 <= i < after.len() implies has_level(
        links,
        #[trigger] after[i] as int,
        level,
    ) by {
        lemma_connected_from(list, limit, target, new, pair, i);
        if after[i] != new {
            let j = choose|j: int| 0 <= j < list.len() && list[j] == after[i];
            assert(has_level(links, list[j] as int, level));
        }
    }
    lemma_with_list(links, target as int, level, after);
}

/// Connecting a point with points of its level keeps the links well formed.
pub proof fn lemma_connect_nearest(
    links: Links,
    level: int,
    limit: nat,
    point: PointOffsetType,
    nearest: Seq<ScoredPointOffset>,
    pair: PairScore,
)
    requires
        links_wf(links),
        has_level(links, point as int, level),
        forall|i: int|
            0 <= i < nearest.len() ==> has_level(links, (#[trigger] nearest[i]).idx as int, level),
    ensures
        same_shape(links, connect_nearest(links, level, limit, point, nearest, pair)),
        links_wf(connect_nearest(links, level, limit, point, nearest, pair)),
    decreases nearest.len(),
{
    if nearest.len() > 0 {
        let head = nearest.drop_last();
        assert forall|i: int| 0 <= i < head.len() implies has_level(
            links,
            (#[trigger] head[i]).idx as int,
            level,
        ) by {
            assert(head[i] == nearest[i]);
        }
        lemma_connect_nearest(links, level, limit, point, head, pair);
        let before = connect_nearest(links, level, limit, point, head, pair);
        let other = nearest.last().idx;
        assert(has_level(links, nearest[nearest.len() - 1].idx as int, level));
        assert(before[point as int].len() == links[point as int].len());
        assert(before[other as int].len() == links[other as int].len());
        lemma_connect(before, level, limit, point, other, pair);
        let there = connect(before, level, limit, point, other, pair);
        lemma_connect(there, level, limit, other, point, pair);
    }
}

/// A ranked item is one of the items.
pub proof fn lemma_ranked_from(items: Seq<ScoredPointOffset>, at: int)
    requires
        0 <= at < ranked(items).len(),
    ensures
        items.contains(ranked(items)[at]),
{
    law_ranked_orders_the_same_items(items);
    let x = ranked(items)[at];
    assert(ranked(items).contains(x));
    vstd::seq_lib::to_multiset_contains(ranked(items), x);
    vstd::seq_lib::to_multiset_contains(items, x);
}

/// The candidates among which a full list chooses are the new point and points of
/// the list.
pub proof fn lemma_adoption_candidate(
    list: Seq<PointOffsetType>,
    m: nat,
    point: PointOffsetType,
    other: PointOffsetType,
    pair: PairScore,
    at: int,
)
    requires
        m <= list.len(),
        0 <= at <= m,
    ensures
        ({
            let candidates = ranked(
                scored_against(seq![point] + list.take(m as int), other, pair),
            ).reverse();
            candidates.len() == m + 1 && (candidates[at].idx == point || list.contains(
                candidates[at].idx,
            ))
        }),
{
    let points = seq![point] + list.take(m as int);
    let items = scored_against(points, other, pair);
    law_ranked_orders_the_same_items(items);
    lemma_ranked_from(items, m - at);
    let x = ranked(items)[m - at];
    let j = choose|j: int| 0 <= j < items.len() && items[j] == x;
    assert(items[j].idx == points[j]);
    if j > 0 {
        assert(points[j] == list[j - 1]);
    }
}

/// What is in a list after it adopted a point was there before, or is the point; the
/// list becomes no shorter, and no longer than the limit unless it was so before.
pub proof fn lemma_adopted(
    list: Seq<PointOffsetType>,
    m: nat,
    point: PointOffsetType,
    other: PointOffsetType,
    pair: PairScore,
)
    ensures
        forall|i: int|
            #![trigger adopted(list, m, point, other, pair)[i]]
            0 <= i < adopted(list, m, point, other, pair).len() ==> adopted(
                list,
                m,
                point,
                other,
                pair,
            )[i] == point || list.contains(adopted(list, m, point, other, pair)[i]),
        adopted(list, m, point, other, pair).len() == if list.len() < m {
            list.len() + 1
        } else {
            list.len()
        },
{
    let r = adopted(list, m, point, other, pair);
    if list.len() < m {
        assert forall|i: int| 0 <= i < r.len() implies r[i] == point || list.contains(
            #[trigger] r[i],
        ) by {
            if i < list.len() {
                assert(r[i] == list[i]);
            }
        }
    } else {
        let candidates = ranked(
            scored_against(seq![point] + list.take(m as int), other, pair),
        ).reverse();
        let front = selected(candidates, m, pair);
        lemma_selected_len(candidates, m, pair);
        assert forall|i: int| 0 <= i < r.len() implies r[i] == point || list.contains(
            #[trigger] r[i],
        ) by {
            if i < front.len() {
                let k = lemma_selected_from(candidates, m, pair, i);
                law_ranked_orders_the_same_items(
                    scored_against(seq![point] + list.take(m as int), other, pair),
                );
                lemma_adoption_candidate(list, m, point, other, pair, k);
            } else {
                assert(r[i] == list[i]);
            }
        }
    }
}

/// Adoption by points of the level keeps the links well formed.
pub proof fn lemma_adopt_all(
    links: Links,
    level: int,
    m: nat,
    point: PointOffsetType,
    others: Seq<PointOffsetType>,
    pair: PairScore,
)
    requires
        links_wf(links),
        has_level(links, point as int, level),
        forall|i: int|
            0 <= i < others.len() ==> has_level(links, #[trigger] others[i] as int, level),
    ensures
        same_shape(links, adopt_all(links, level, m, point, others, pair)),
        links_wf(adopt_all(links, level, m, point, others, pair)),
    decreases others.len(),
{
    if others.len() > 0 {
        let head = others.drop_last();
        assert forall|i: int| 0 <= i < head.len() implies has_level(
            links,
            #[trigger] head[i] as int,
            level,
        ) by {
            assert(head[i] == others[i]);
        }
        lemma_adopt_all(links, level, m, point, head, pair);
        let before = adopt_all(links, level, m, point, head, pair);
        let other = others.last();
        assert(has_level(links, others[others.len() - 1] as int, level));
        assert(before[point as int].len() == links[point as int].len());
        assert(before[other as int].len() == links[other as int].len());
        let list = before[other as int][level];
        let after = adopted(list, m, point, other, pair);
        lemma_adopted(list, m, point, other, pair);
        lemma_list_on_level(before, other as int, level);
        assert forall|i: int| 0 <= i < after.len() implies has_level(
            before,
            #[trigger] after[i] as int,
            level,
        ) by {
            if after[i] != point {
                let j = choose|j: int| 0 <= j < list.len() && list[j] == after[i];
                assert(has_level(before, list[j] as int, level));
            }
        }
        lemma_with_list(before, other as int, level, after);
    }
}

/// Points selected among points of a level are of that level.
pub proof fn lemma_selected_on_level(
    links: Links,
    level: int,
    candidates: Seq<ScoredPointOffset>,
    m: nat,
    pair: PairScore,
)
    requires
        forall|i: int|
            0 <= i < candidates.len() ==> has_level(
                links,
                (#[trigger] candidates[i]).idx as int,
                level,
            ),
    ensures
        forall|i: int|
            0 <= i < selected(candidates, m, pair).len() ==> has_level(
                links,
                #[trigger] selected(candidates, m, pair)[i] as int,
                level,
            ),
{
    assert forall|i: int| 0 <= i < selected(candidates, m, pair).len() implies has_level(
        links,
        #[trigger] selected(candidates, m, pair)[i] as int,
        level,
    ) by {
        let j = lemma_selected_from(candidates, m, pair, i);
        assert(has_level(links, candidates[j].idx as int, level));
    }
}

/// Raising a point keeps the links well formed, and takes no level from any point.
pub proof fn lemma_raised(links: Links, point: int, level: nat)
    requires
        links_wf(links),
        0 <= point < links.len(),
    ensures
        links_wf(raised(links, point, level)),
        has_level(raised(links, point, level), point, level as int),
        raised(links, point, level).len() == links.len(),
        forall|p: int, l: int|
            has_level(links, p, l) ==> has_level(raised(links, point, level), p, l)
                && #[trigger] raised(links, point, level)[p][l] == links[p][l],
        forall|p: int, l: int|
            #![trigger raised(links, point, level)[p][l]]
            has_level(raised(links, point, level), p, l) && !has_level(links, p, l)
                ==> raised(links, point, level)[p][l].len() == 0,
{
    let after = raised(links, point, level);
    assert forall|p: int, l: int, i: int|
        has_level(after, p, l) && 0 <= i < after[p][l].len() implies has_level(
        after,
        #[trigger] after[p][l][i] as int,
        l,
    ) by {
        if has_level(links, p, l) {
            assert(after[p][l] == links[p][l]);
            assert(has_level(links, links[p][l][i] as int, l));
        }
    }
}

impl Graph {
    /// A greedy descent ends at a point that reaches up to the target level.
    pub proof fn lemma_descend_on_level(
        self,
        current: ScoredPointOffset,
        top: int,
        target: int,
        scoring: Scoring,
    )
        requires
            links_wf(self.links),
            0 <= target <= top,
            has_level(self.links, current.idx as int, top),
        ensures
            has_level(self.links, self.descend(current, top, target, scoring).idx as int, target),
        decreases top - target,
    {
        if top > target {
            let layer = self.layer(self.links, top, scoring);
            layer.lemma_climb_on_level(current);
            self.lemma_descend_on_level(layer.climb(current), top - 1, target, scoring);
        }
    }

    /// Linking a point with points of its level keeps the links well formed.
    pub proof fn lemma_linked_on(
        self,
        links: Links,
        level: int,
        point: PointOffsetType,
        nearest: Seq<ScoredPointOffset>,
        pair: PairScore,
    )
        requires
            links_wf(links),
            has_level(links, point as int, level),
            forall|i: int|
                0 <= i < nearest.len() ==> has_level(
                    links,
                    (#[trigger] nearest[i]).idx as int,
                    level,
                ),
        ensures
            same_shape(links, self.linked_on(links, level, point, nearest, pair)),
            links_wf(self.linked_on(links, level, point, nearest, pair)),
    {
        let m = self.m_of(level);
        if self.use_heuristic {
            let chosen = selected(nearest, m, pair);
            lemma_selected_on_level(links, level, nearest, m, pair);
            lemma_with_list(links, point as int, level, chosen);
            let own = with_list(links, point as int, level, chosen);
            assert forall|i: int| 0 <= i < chosen.len() implies has_level(
                own,
                #[trigger] chosen[i] as int,
                level,
            ) by {
                assert(has_level(links, chosen[i] as int, level));
            }
            lemma_adopt_all(own, level, m, point, chosen, pair);
        } else {
            lemma_connect_nearest(links, level, m, point, nearest, pair);
        }
    }

    /// The search for the neighbours of a new point starts at a point of the highest
    /// level that both the new point and the entry point reach.
    pub proof fn lemma_level_entry(
        self,
        point: PointOffsetType,
        level: nat,
        entry: EntryPoint,
        scoring: Scoring,
    )
        requires
            links_wf(self.links),
            has_level(self.links, entry.point_id as int, entry.level as int),
        ensures
            has_level(
                self.links,
                self.level_entry(point, level, entry, scoring).idx as int,
                if level < entry.level {
                    level as int
                } else {
                    entry.level as int
                },
            ),
    {
        if entry.level > level {
            let start = ScoredPointOffset {
                idx: entry.point_id,
                score: (scoring.query)(entry.point_id),
            };
            self.lemma_descend_on_level(start, entry.level as int, level as int, scoring);
        }
    }

    /// Linking a point on several levels keeps the links well formed.
    pub proof fn lemma_linked_down(
        self,
        links: Links,
        level: int,
        point: PointOffsetType,
        entry: ScoredPointOffset,
        scoring: Scoring,
    )
        requires
            links_wf(links),
            level >= 0 ==> has_level(links, point as int, level),
            level >= 0 ==> has_level(links, entry.idx as int, level),
        ensures
            same_shape(links, self.linked_down(links, level, point, entry, scoring)),
            links_wf(self.linked_down(links, level, point, entry, scoring)),
        decreases level + 1,
    {
        if level >= 0 {
            let layer = self.layer(links, level, scoring);
            let nearest = layer.search(self.ef_construct, entry);
            layer.lemma_search_on_level(self.ef_construct, entry);
            self.lemma_linked_on(links, level, point, nearest, scoring.pair);
            lemma_best_of(entry, nearest);
            let next = if self.use_heuristic {
                entry
            } else {
                best_of(entry, nearest)
            };
            let after = self.linked_on(links, level, point, nearest, scoring.pair);
            assert(has_level(links, next.idx as int, level));
            assert(after[point as int].len() == links[point as int].len());
            assert(after[next.idx as int].len() == links[next.idx as int].len());
            self.lemma_linked_down(after, level - 1, point, next, scoring);
        }
    }

    /// Linking a new point keeps the graph well formed.
    pub proof fn lemma_with_point_wf(self, point: PointOffsetType, level: usize, scoring: Scoring)
        requires
            self.wf(),
            point < self.links.len(),
        ensures
            self.with_point(point, level, scoring).wf(),
            self.with_point(point, level, scoring).links.len() == self.links.len(),
    {
        let graph = self.with_levels(point, level as nat);
        let after = self.with_point(point, level, scoring);
        lemma_raised(self.links, point as int, level as nat);
        self.entries.lemma_first_main(scoring.admits);
        if let Some(entry) = self.entries.first_main(scoring.admits) {
            let top = if level < entry.level {
                level as int
            } else {
                entry.level as int
            };
            let with_entries = Graph { entries: after.entries, ..graph };
            with_entries.lemma_level_entry(point, level as nat, entry, scoring);
            with_entries.lemma_linked_down(
                graph.links,
                top,
                point,
                with_entries.level_entry(point, level as nat, entry, scoring),
                scoring,
            );
        }
        assert(same_shape(graph.links, after.links));
        let new_entry = EntryPoint { point_id: point, level };
        assert forall|i: int| 0 <= i < after.entries.main.len() implies has_level(
            after.links,
            (#[trigger] after.entries.main[i]).point_id as int,
            after.entries.main[i].level as int,
        ) by {
            let e = after.entries.main[i];
            self.entries.lemma_with_point_from(new_entry, scoring.admits);
            self.lemma_entry_on_level(e, point, level as nat);
            assert(graph.links[e.point_id as int].len() == after.links[e.point_id as int].len());
        }
        assert forall|i: int| 0 <= i < after.entries.extra.len() implies has_level(
            after.links,
            (#[trigger] after.entries.extra[i]).point_id as int,
            after.entries.extra[i].level as int,
        ) by {
            let e = after.entries.extra[i];
            self.entries.lemma_with_point_from(new_entry, scoring.admits);
            self.lemma_entry_on_level(e, point, level as nat);
            assert(graph.links[e.point_id as int].len() == after.links[e.point_id as int].len());
        }
    }

    /// The old entry points, and the new point, reach up to their levels.
    proof fn lemma_entry_on_level(self, entry: EntryPoint, point: PointOffsetType, level: nat)
        requires
            self.wf(),
            point < self.links.len(),
            entry.point_id == point && entry.level == level || self.entries.main.contains(entry)
                || self.entries.extra.contains(entry),
        ensures
            has_level(
                raised(self.links, point as int, level),
                entry.point_id as int,
                entry.level as int,
            ),
    {
        lemma_raised(self.links, point as int, level);
        if self.entries.main.contains(entry) {
            let i = choose|i: int|
                0 <= i < self.entries.main.len() && self.entries.main[i] == entry;
            let e = self.entries.main[i];
            assert(has_level(self.links, e.point_id as int, e.level as int));
        } else if self.entries.extra.contains(entry) {
            let i = choose|i: int|
                0 <= i < self.entries.extra.len() && self.entries.extra[i] == entry;
            let e = self.entries.extra[i];
            assert(has_level(self.links, e.point_id as int, e.level as int));
        }
    }
}

} // verus!
