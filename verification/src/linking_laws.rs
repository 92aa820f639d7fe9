//! What can be relied on of lists of links, of linking new points, and of the entry
//! points.

use crate::entry_points::{entry_check, Entries, EntryPoint};
use crate::linking_lemmas::{
    lemma_adopted, lemma_connected_from, lemma_raised, lemma_selected_from, lemma_selected_len,
    lemma_selected_on_level, lemma_with_list, same_shape,
};
use crate::model::{
    adopt_all, adopted, best_of, connect, connect_nearest, connected, farther_than,
    good_candidate, has_level, links_wf, raised, selected, with_list, Graph, Layer, Links,
};
use crate::priority_queue::{law_queue_keeps_the_best, offered, offered_all};
use crate::ranking::{
    first_index, law_ranked_orders_the_same_items, lemma_first_index, lemma_first_index_is,
    outranked_by, ranked, Prioritized,
};
use crate::scorer::{PairScore, PointCheck, Scoring};
use crate::search_laws::law_search_result;
use crate::search_lemmas::lemma_best_of;
use crate::types::{PointOffsetType, ScoreType, ScoredPointOffset};
use vstd::prelude::*;

verus! {

// Connecting points to a list

/// A list of `target` after all of `points` were connected to it, one by one.
pub open spec fn connected_all(
    list: Seq<PointOffsetType>,
    limit: nat,
    target: PointOffsetType,
    points: Seq<PointOffsetType>,
    pair: PairScore,
) -> Seq<PointOffsetType>
    decreases points.len(),
{
    if points.len() == 0 {
        list
    } else {
        connected(
            connected_all(list, limit, target, points.drop_last(), pair),
            limit,
            target,
            points.last(),
            pair,
        )
    }
}

/// Points with the scores of `target` against them.
pub open spec fn scored_from(
    target: PointOffsetType,
    points: Seq<PointOffsetType>,
    pair: PairScore,
) -> Seq<ScoredPointOffset> {
    points.map_values(|p: PointOffsetType| ScoredPointOffset { idx: p, score: pair(target, p) })
}

/// The points without their scores.
pub open spec fn point_ids(points: Seq<ScoredPointOffset>) -> Seq<PointOffsetType> {
    points.map_values(|p: ScoredPointOffset| p.idx)
}

/// The first items of a sequence, as many as there are up to a limit.
pub open spec fn first_of<A>(s: Seq<A>, limit: nat) -> Seq<A> {
    if s.len() <= limit {
        s
    } else {
        s.take(limit as int)
    }
}

/// Whether a list is ordered by the score of `target` against its points, the
/// closest first.
pub open spec fn closest_first(
    target: PointOffsetType,
    list: Seq<PointOffsetType>,
    pair: PairScore,
) -> bool {
    forall|i: int, j: int|
        0 <= i <= j < list.len() ==> pair(target, #[trigger] list[i]) >= pair(
            target,
            #[trigger] list[j],
        )
}

proof fn lemma_connected_is_offered(
    list: Seq<PointOffsetType>,
    limit: nat,
    target: PointOffsetType,
    new: PointOffsetType,
    pair: PairScore,
)
    requires
        closest_first(target, list, pair),
        list.len() <= limit,
    ensures
        scored_from(target, connected(list, limit, target, new, pair), pair) == offered(
            scored_from(target, list, pair),
            limit,
            ScoredPointOffset { idx: new, score: pair(target, new) },
        ),
{
    let s = scored_from(target, list, pair);
    let x = ScoredPointOffset { idx: new, score: pair(target, new) };
    let p = farther_than(target, new, pair);
    let at = first_index(list, p);
    lemma_first_index(list, p);
    let result = scored_from(target, connected(list, limit, target, new, pair), pair);
    if list.len() < limit {
        assert forall|i: int| 0 <= i < at implies !outranked_by(x)(#[trigger] s[i]) by {
            assert(!p(list[i]));
        }
        lemma_first_index_is(s, outranked_by(x), at);
        assert(result =~= s.insert(at, x));
    } else if at < list.len() {
        assert(p(list[at]));
        assert(pair(target, list[at]) >= pair(target, list[list.len() - 1]));
        let t = s.drop_last();
        assert forall|i: int| 0 <= i < at implies !outranked_by(x)(#[trigger] t[i]) by {
            assert(!p(list[i]));
        }
        lemma_first_index_is(t, outranked_by(x), at);
        assert(result =~= t.insert(at, x));
    } else if list.len() > 0 {
        assert(!p(list[list.len() - 1]));
    }
}

/// Connecting a point keeps a list in order, the closest first. It also keeps a list
/// within its limit.
pub proof fn law_connecting_keeps_the_order(
    list: Seq<PointOffsetType>,
    limit: nat,
    target: PointOffsetType,
    new: PointOffsetType,
    pair: PairScore,
)
    requires
        closest_first(target, list, pair),
    ensures
        closest_first(target, connected(list, limit, target, new, pair), pair),
        list.len() <= limit ==> connected(list, limit, target, new, pair).len() <= limit,
{
    let p = farther_than(target, new, pair);
    let at = first_index(list, p);
    lemma_first_index(list, p);
    let after = connected(list, limit, target, new, pair);
    if list.len() < limit || at < list.len() {
        assert forall|i: int, j: int| 0 <= i <= j < after.len() implies pair(
            target,
            #[trigger] after[i],
        ) >= pair(target, #[trigger] after[j]) by {
            if i < at {
                assert(after[i] == list[i]);
                assert(!p(list[i]));
            } else if i > at {
                assert(after[i] == list[i - 1]);
            }
            if j < at {
                assert(after[j] == list[j]);
            } else if j > at {
                assert(after[j] == list[j - 1]);
                assert(p(list[at]));
                assert(pair(target, list[at]) >= pair(target, list[j - 1]));
            }
        }
    }
}

proof fn lemma_connected_all_is_offered_all(
    limit: nat,
    target: PointOffsetType,
    points: Seq<PointOffsetType>,
    pair: PairScore,
)
    ensures
        ({
            let list = connected_all(Seq::empty(), limit, target, points, pair);
            &&& closest_first(target, list, pair)
            &&& list.len() <= limit
            &&& scored_from(target, list, pair) == offered_all(
                Seq::empty(),
                limit,
                scored_from(target, points, pair),
            )
        }),
    decreases points.len(),
{
    let xs = scored_from(target, points, pair);
    if points.len() > 0 {
        let head = points.drop_last();
        lemma_connected_all_is_offered_all(limit, target, head, pair);
        let before = connected_all(Seq::empty(), limit, target, head, pair);
        lemma_connected_is_offered(before, limit, target, points.last(), pair);
        law_connecting_keeps_the_order(before, limit, target, points.last(), pair);
        assert(xs.drop_last() =~= scored_from(target, head, pair));
    } else {
        assert(scored_from(target, Seq::empty(), pair) =~= Seq::empty());
    }
}

/// Whatever points are connected to an empty list, it contains only the closest ones:
/// the first of all of them in the order of their scores, as many as its limit
/// allows.
pub proof fn law_connecting_keeps_the_closest(
    limit: nat,
    target: PointOffsetType,
    points: Seq<PointOffsetType>,
    pair: PairScore,
)
    ensures
        connected_all(Seq::empty(), limit, target, points, pair) == first_of(
            point_ids(ranked(scored_from(target, points, pair))),
            limit,
        ),
{
    let list = connected_all(Seq::empty(), limit, target, points, pair);
    let xs = scored_from(target, points, pair);
    lemma_connected_all_is_offered_all(limit, target, points, pair);
    law_queue_keeps_the_best(limit, xs);
    law_ranked_orders_the_same_items(xs);
    assert(list =~= point_ids(scored_from(target, list, pair)));
    assert(point_ids(ranked(xs).take(list.len() as int)) =~= first_of(
        point_ids(ranked(xs)),
        limit,
    ));
}

proof fn lemma_strict_ranking_is_unique(a: Seq<ScoredPointOffset>, b: Seq<ScoredPointOffset>)
    requires
        a.to_multiset() == b.to_multiset(),
        forall|i: int, j: int|
            0 <= i < j < a.len() ==> (#[trigger] a[i]).score > (#[trigger] a[j]).score,
        forall|i: int, j: int|
            0 <= i < j < b.len() ==> (#[trigger] b[i]).score > (#[trigger] b[j]).score,
    ensures
        a == b,
    decreases a.len(),
{
    vstd::seq_lib::to_multiset_len(a);
    vstd::seq_lib::to_multiset_len(b);
    if a.len() > 0 {
        vstd::seq_lib::to_multiset_contains(a, a[0]);
        vstd::seq_lib::to_multiset_contains(b, a[0]);
        vstd::seq_lib::to_multiset_contains(a, b[0]);
        vstd::seq_lib::to_multiset_contains(b, b[0]);
        assert(a.contains(a[0]) && b.contains(b[0]));
        let j = choose|j: int| 0 <= j < b.len() && b[j] == a[0];
        let k = choose|k: int| 0 <= k < a.len() && a[k] == b[0];
        assert(a[0] == b[0]);
        let ra = a.remove(0);
        let rb = b.remove(0);
        vstd::seq_lib::to_multiset_remove(a, 0);
        vstd::seq_lib::to_multiset_remove(b, 0);
        assert forall|i: int, j: int| 0 <= i < j < ra.len() implies (#[trigger] ra[i]).score > (
        #[trigger] ra[j]).score by {
            assert(ra[i] == a[i + 1] && ra[j] == a[j + 1]);
        }
        assert forall|i: int, j: int| 0 <= i < j < rb.len() implies (#[trigger] rb[i]).score > (
        #[trigger] rb[j]).score by {
            assert(rb[i] == b[i + 1] && rb[j] == b[j + 1]);
        }
        lemma_strict_ranking_is_unique(ra, rb);
        assert forall|i: int| 0 <= i < a.len() implies a[i] == b[i] by {
            if i > 0 {
                assert(ra[i - 1] == rb[i - 1]);
            }
        }
        assert(a =~= b);
    } else {
        assert(a =~= b);
    }
}

proof fn lemma_strictly_ranked(items: Seq<ScoredPointOffset>)
    requires
        forall|i: int, j: int|
            0 <= i < j < items.len() ==> (#[trigger] items[i]).score != (#[trigger] items[j]).score,
    ensures
        forall|i: int, j: int|
            0 <= i < j < items.len() ==> (#[trigger] ranked(items)[i]).score > (
            #[trigger] ranked(items)[j]).score,
{
    law_ranked_orders_the_same_items(items);
    let r = ranked(items);
    assert(items.no_duplicates()) by {
        assert forall|i: int, j: int| 0 <= i < items.len() && 0 <= j < items.len() && i != j
            implies items[i] != items[j] by {
            if i < j {
                assert(items[i].score != items[j].score);
            } else {
                assert(items[j].score != items[i].score);
            }
        }
    }
    items.lemma_multiset_has_no_duplicates();
    r.lemma_multiset_has_no_duplicates_conv();
    assert forall|i: int, j: int| 0 <= i < j < items.len() implies (#[trigger] r[i]).score > (
    #[trigger] r[j]).score by {
        assert(r[i].priority() >= r[j].priority());
        if r[i].score == r[j].score {
            vstd::seq_lib::to_multiset_contains(r, r[i]);
            vstd::seq_lib::to_multiset_contains(r, r[j]);
            vstd::seq_lib::to_multiset_contains(items, r[i]);
            vstd::seq_lib::to_multiset_contains(items, r[j]);
            assert(r.contains(r[i]) && r.contains(r[j]));
            let a = choose|a: int| 0 <= a < items.len() && items[a] == r[i];
            let b = choose|b: int| 0 <= b < items.len() && items[b] == r[j];
            assert(a == b) by {
                if a < b {
                    assert(items[a].score != items[b].score);
                } else if b < a {
                    assert(items[b].score != items[a].score);
                }
            }
            assert(r[i] == r[j]);
            assert(false);
        }
    }
}

/// The order in which points are connected makes no difference, if no two of them are
/// equally close.
pub proof fn law_order_of_connecting_is_irrelevant(
    limit: nat,
    target: PointOffsetType,
    points: Seq<PointOffsetType>,
    shuffled: Seq<PointOffsetType>,
    pair: PairScore,
)
    requires
        points.to_multiset() == shuffled.to_multiset(),
        forall|i: int, j: int|
            0 <= i < j < points.len() ==> pair(target, #[trigger] points[i]) != pair(
                target,
                #[trigger] points[j],
            ),
    ensures
        connected_all(Seq::empty(), limit, target, points, pair) == connected_all(
            Seq::empty(),
            limit,
            target,
            shuffled,
            pair,
        ),
{
    let a = scored_from(target, points, pair);
    let b = scored_from(target, shuffled, pair);
    vstd::seq_lib::to_multiset_len(points);
    vstd::seq_lib::to_multiset_len(shuffled);
    assert(points.no_duplicates()) by {
        assert forall|i: int, j: int| 0 <= i < points.len() && 0 <= j < points.len() && i != j
            implies points[i] != points[j] by {
            if i < j {
                assert(pair(target, points[i]) != pair(target, points[j]));
            } else {
                assert(pair(target, points[j]) != pair(target, points[i]));
            }
        }
    }
    points.lemma_multiset_has_no_duplicates();
    shuffled.lemma_multiset_has_no_duplicates_conv();
    assert forall|i: int, j: int| 0 <= i < j < b.len() implies (#[trigger] b[i]).score != (
    #[trigger] b[j]).score by {
        vstd::seq_lib::to_multiset_contains(shuffled, shuffled[i]);
        vstd::seq_lib::to_multiset_contains(shuffled, shuffled[j]);
        vstd::seq_lib::to_multiset_contains(points, shuffled[i]);
        vstd::seq_lib::to_multiset_contains(points, shuffled[j]);
        assert(shuffled.contains(shuffled[i]) && shuffled.contains(shuffled[j]));
        let k = choose|k: int| 0 <= k < points.len() && points[k] == shuffled[i];
        let l = choose|l: int| 0 <= l < points.len() && points[l] == shuffled[j];
        assert(shuffled[i] != shuffled[j]);
        if k < l {
            assert(pair(target, points[k]) != pair(target, points[l]));
        } else {
            assert(pair(target, points[l]) != pair(target, points[k]));
        }
    }
    assert forall|i: int, j: int| 0 <= i < j < a.len() implies (#[trigger] a[i]).score != (
    #[trigger] a[j]).score by {
        assert(pair(target, points[i]) != pair(target, points[j]));
    }
    lemma_strictly_ranked(a);
    lemma_strictly_ranked(b);
    law_ranked_orders_the_same_items(a);
    law_ranked_orders_the_same_items(b);
    lemma_scored_same_items(target, points, shuffled, pair);
    lemma_strict_ranking_is_unique(ranked(a), ranked(b));
    law_connecting_keeps_the_closest(limit, target, points, pair);
    law_connecting_keeps_the_closest(limit, target, shuffled, pair);
}

proof fn lemma_scored_same_items(
    target: PointOffsetType,
    points: Seq<PointOffsetType>,
    shuffled: Seq<PointOffsetType>,
    pair: PairScore,
)
    requires
        points.to_multiset() == shuffled.to_multiset(),
    ensures
        scored_from(target, points, pair).to_multiset() == scored_from(
            target,
            shuffled,
            pair,
        ).to_multiset(),
    decreases points.len(),
{
    let a = scored_from(target, points, pair);
    let b = scored_from(target, shuffled, pair);
    vstd::seq_lib::to_multiset_len(points);
    vstd::seq_lib::to_multiset_len(shuffled);
    if points.len() > 0 {
        let p = points[0];
        vstd::seq_lib::to_multiset_contains(points, p);
        vstd::seq_lib::to_multiset_contains(shuffled, p);
        assert(points.contains(p));
        let k = choose|k: int| 0 <= k < shuffled.len() && shuffled[k] == p;
        vstd::seq_lib::to_multiset_remove(points, 0);
        vstd::seq_lib::to_multiset_remove(shuffled, k);
        lemma_scored_same_items(target, points.remove(0), shuffled.remove(k), pair);
        assert(scored_from(target, points.remove(0), pair) =~= a.remove(0));
        assert(scored_from(target, shuffled.remove(k), pair) =~= b.remove(k));
        assert(a.remove(0).insert(0, a[0]) =~= a);
        assert(b.remove(k).insert(k, b[k]) =~= b);
        vstd::seq_lib::to_multiset_insert(a.remove(0), 0, a[0]);
        vstd::seq_lib::to_multiset_insert(b.remove(k), k, b[k]);
    } else {
        assert(a =~= b);
    }
}

// Selection

/// Whether `at` gives, rising, the index at which each selected point stands among the
/// candidates.
pub open spec fn is_selection(
    at: Seq<int>,
    candidates: Seq<ScoredPointOffset>,
    chosen: Seq<PointOffsetType>,
) -> bool {
    &&& at.len() == chosen.len()
    &&& forall|i: int|
        0 <= i < at.len() ==> 0 <= #[trigger] at[i] < candidates.len() && candidates[at[i]].idx
            == chosen[i]
    &&& forall|i: int, j: int| 0 <= i < j < at.len() ==> #[trigger] at[i] < #[trigger] at[j]
}

/// Whether the points stand among the candidates, in this order.
pub open spec fn selected_in_order(
    candidates: Seq<ScoredPointOffset>,
    chosen: Seq<PointOffsetType>,
) -> bool {
    exists|at: Seq<int>| is_selection(at, candidates, chosen)
}

/// The heuristic selects candidates in their order, at most as many as asked for, and
/// the first one whenever any is asked for.
pub proof fn law_selection_keeps_the_order(
    candidates: Seq<ScoredPointOffset>,
    m: nat,
    pair: PairScore,
)
    ensures
        selected_in_order(candidates, selected(candidates, m, pair)),
        selected(candidates, m, pair).len() <= m,
        candidates.len() > 0 && m > 0 ==> selected(candidates, m, pair).len() > 0
            && selected(candidates, m, pair)[0] == candidates[0].idx,
    decreases candidates.len(),
{
    lemma_selected_len(candidates, m, pair);
    if candidates.len() > 0 {
        let head = candidates.drop_last();
        law_selection_keeps_the_order(head, m, pair);
        let before = selected(head, m, pair);
        let chosen = selected(candidates, m, pair);
        let at = choose|at: Seq<int>| is_selection(at, head, before);
        if chosen == before {
            assert forall|i: int| 0 <= i < at.len() implies 0 <= #[trigger] at[i]
                < candidates.len() && candidates[at[i]].idx == chosen[i] by {
                assert(head[at[i]].idx == before[i]);
            }
            assert(is_selection(at, candidates, chosen));
        } else {
            let longer = at.push(candidates.len() - 1);
            assert forall|i: int| 0 <= i < longer.len() implies 0 <= #[trigger] longer[i]
                < candidates.len() && candidates[longer[i]].idx == chosen[i] by {
                if i < at.len() {
                    assert(longer[i] == at[i]);
                    assert(head[at[i]].idx == before[i]);
                }
            }
            assert forall|i: int, j: int| 0 <= i < j < longer.len() implies #[trigger] longer[i]
                < #[trigger] longer[j] by {
                assert(longer[i] == at[i]);
            }
            assert(is_selection(longer, candidates, chosen));
        }
    } else {
        assert(is_selection(Seq::empty(), candidates, selected(candidates, m, pair)));
    }
}

/// Whether some candidate with this point is no closer to any of `earlier` than to
/// the base point.
pub open spec fn selected_for_good(
    candidates: Seq<ScoredPointOffset>,
    earlier: Seq<PointOffsetType>,
    point: PointOffsetType,
    pair: PairScore,
) -> bool {
    exists|i: int|
        0 <= i < candidates.len() && (#[trigger] candidates[i]).idx == point && good_candidate(
            earlier,
            candidates[i],
            pair,
        )
}

/// No selected point is closer to one that was selected before it than to the base
/// point.
pub proof fn law_selection_excludes_closer_to_selected(
    candidates: Seq<ScoredPointOffset>,
    m: nat,
    pair: PairScore,
    at: int,
)
    requires
        0 <= at < selected(candidates, m, pair).len(),
    ensures
        selected_for_good(
            candidates,
            selected(candidates, m, pair).take(at),
            selected(candidates, m, pair)[at],
            pair,
        ),
    decreases candidates.len(),
{
    let head = candidates.drop_last();
    let before = selected(head, m, pair);
    let chosen = selected(candidates, m, pair);
    if at < before.len() {
        law_selection_excludes_closer_to_selected(head, m, pair, at);
        assert(chosen.take(at) =~= before.take(at));
        let i = choose|i: int|
            0 <= i < head.len() && (#[trigger] head[i]).idx == before[at] && good_candidate(
                before.take(at),
                head[i],
                pair,
            );
        assert(candidates[i] == head[i]);
    } else {
        assert(chosen.take(at) =~= before);
        let last = candidates[candidates.len() - 1];
        assert(last.idx == chosen[at] && good_candidate(before, last, pair));
    }
}

/// While fewer points are selected than asked for, a candidate is left out only if it
/// is closer to a selected point than to the base point.
pub proof fn law_selection_leaves_out_only_closer(
    candidates: Seq<ScoredPointOffset>,
    m: nat,
    pair: PairScore,
    at: int,
)
    requires
        selected(candidates, m, pair).len() < m,
        0 <= at < candidates.len(),
        !selected(candidates, m, pair).contains(candidates[at].idx),
    ensures
        !good_candidate(selected(candidates, m, pair), candidates[at], pair),
    decreases candidates.len(),
{
    let head = candidates.drop_last();
    let before = selected(head, m, pair);
    let chosen = selected(candidates, m, pair);
    if at < head.len() {
        assert(forall|i: int| 0 <= i < before.len() ==> chosen[i] == before[i]);
        if before.contains(head[at].idx) {
            let i = choose|i: int| 0 <= i < before.len() && before[i] == head[at].idx;
            assert(chosen[i] == candidates[at].idx);
        }
        law_selection_leaves_out_only_closer(head, m, pair, at);
        let i = choose|i: int|
            0 <= i < before.len() && pair(head[at].idx, #[trigger] before[i]) > head[at].score;
        assert(chosen[i] == before[i]);
    } else if chosen != before {
        assert(chosen[chosen.len() - 1] == candidates[at].idx);
    }
}

// Linking a new point

/// Whether no list is longer than the graph wants on its level.
pub open spec fn lists_within_limits(graph: Graph) -> bool {
    forall|p: int, l: int|
        has_level(graph.links, p, l) ==> (#[trigger] graph.links[p][l]).len() <= if l == 0 {
            graph.m0
        } else {
            graph.m
        }
}

/// Only lists of one level differ, and they became no shorter, nor longer than `m`.
spec fn grown_on(a: Links, b: Links, level: int, m: nat) -> bool {
    &&& changed_on(a, b, level)
    &&& forall|p: int|
        has_level(a, p, level) ==> (#[trigger] b[p])[level].len() >= a[p][level].len() && (
        a[p][level].len() <= m ==> b[p][level].len() <= m)
}

/// Only lists of one level differ.
pub open spec fn changed_on(a: Links, b: Links, level: int) -> bool {
    &&& same_shape(a, b)
    &&& forall|p: int, l: int|
        has_level(a, p, l) && l != level ==> #[trigger] b[p][l] == a[p][l]
}

/// What changed twice on one level changed on that level.
pub proof fn lemma_changed_twice(a: Links, b: Links, c: Links, level: int)
    requires
        changed_on(a, b, level),
        changed_on(b, c, level),
    ensures
        changed_on(a, c, level),
{
    assert forall|p: int| 0 <= p < a.len() implies (#[trigger] a[p]).len() == c[p].len() by {
        assert(a[p].len() == b[p].len());
        assert(b[p].len() == c[p].len());
    }
    assert forall|p: int, l: int| has_level(a, p, l) && l != level implies #[trigger] c[p][l]
        == a[p][l] by {
        assert(a[p].len() == b[p].len());
        assert(b[p][l] == a[p][l]);
    }
}

proof fn lemma_grown_twice(a: Links, b: Links, c: Links, level: int, m: nat)
    requires
        grown_on(a, b, level, m),
        grown_on(b, c, level, m),
    ensures
        grown_on(a, c, level, m),
{
    lemma_changed_twice(a, b, c, level);
    assert forall|p: int| has_level(a, p, level) implies (#[trigger] c[p])[level].len()
        >= a[p][level].len() && (a[p][level].len() <= m ==> c[p][level].len() <= m) by {
        assert(a[p].len() == b[p].len());
        assert(has_level(b, p, level));
        assert(b[p][level].len() >= a[p][level].len());
    }
}

proof fn lemma_connect_grows(
    links: Links,
    level: int,
    limit: nat,
    target: PointOffsetType,
    new: PointOffsetType,
    pair: PairScore,
)
    requires
        has_level(links, target as int, level),
    ensures
        grown_on(links, connect(links, level, limit, target, new, pair), level, limit),
        limit > 0 ==> connect(links, level, limit, target, new, pair)[target as int][level].len()
            > 0,
{
    let list = links[target as int][level];
    lemma_first_index(list, farther_than(target, new, pair));
}

proof fn lemma_connect_nearest_grows(
    links: Links,
    level: int,
    limit: nat,
    point: PointOffsetType,
    nearest: Seq<ScoredPointOffset>,
    pair: PairScore,
)
    requires
        links_wf(links),
        has_level(links, point as int, level),
        forall|i: int|
            0 <= i < nearest.len() ==> has_level(links, (#[trigger] nearest[i]).idx as int, level),
    ensures
        grown_on(links, connect_nearest(links, level, limit, point, nearest, pair), level, limit),
        limit > 0 && nearest.len() > 0 ==> connect_nearest(
            links,
            level,
            limit,
            point,
            nearest,
            pair,
        )[point as int][level].len() > 0,
    decreases nearest.len(),
{
    if nearest.len() > 0 {
        let head = nearest.drop_last();
        assert forall|i: int| 0 <= i < head.len() implies has_level(
            links,
            (#[trigger] head[i]).idx as int,
            level,
        ) by {
            assert(head[i] == nearest[i]);
        }
        lemma_connect_nearest_grows(links, level, limit, point, head, pair);
        let before = connect_nearest(links, level, limit, point, head, pair);
        let other = nearest.last().idx;
        assert(has_level(links, nearest[nearest.len() - 1].idx as int, level));
        assert(before[point as int].len() == links[point as int].len());
        assert(before[other as int].len() == links[other as int].len());
        lemma_connect_grows(before, level, limit, point, other, pair);
        let there = connect(before, level, limit, point, other, pair);
        assert(there[other as int].len() == before[other as int].len());
        assert(there[point as int].len() == before[point as int].len());
        lemma_connect_grows(there, level, limit, other, point, pair);
        let after = connect(there, level, limit, other, point, pair);
        lemma_grown_twice(links, before, there, level, limit);
        lemma_grown_twice(links, there, after, level, limit);
        assert(has_level(there, point as int, level));
        assert(after[point as int][level].len() >= there[point as int][level].len());
    }
}

proof fn lemma_adopt_all_grows(
    links: Links,
    level: int,
    m: nat,
    point: PointOffsetType,
    others: Seq<PointOffsetType>,
    pair: PairScore,
)
    requires
        forall|i: int|
            0 <= i < others.len() ==> has_level(links, #[trigger] others[i] as int, level),
    ensures
        grown_on(links, adopt_all(links, level, m, point, others, pair), level, m),
    decreases others.len(),
{
    if others.len() > 0 {
        let head = others.drop_last();
        assert forall|i: int| 0 <= i < head.len() implies has_level(
            links,
            #[trigger] head[i] as int,
            level,
        ) by {
            assert(head[i] == others[i]);
        }
        lemma_adopt_all_grows(links, level, m, point, head, pair);
        let before = adopt_all(links, level, m, point, head, pair);
        let other = others.last();
        assert(has_level(links, others[others.len() - 1] as int, level));
        assert(before[other as int].len() == links[other as int].len());
        let list = before[other as int][level];
        lemma_adopted(list, m, point, other, pair);
        let after = with_list(before, other as int, level, adopted(list, m, point, other, pair));
        assert(grown_on(before, after, level, m));
        lemma_grown_twice(links, before, after, level, m);
    }
}

/// Linking a point on a level changes lists of that level alone, keeps them within their
/// limit, and gives the point a link if any is wanted.
pub proof fn lemma_linked_on_changes(
    graph: Graph,
    links: Links,
    level: int,
    point: PointOffsetType,
    nearest: Seq<ScoredPointOffset>,
    pair: PairScore,
)
    requires
        links_wf(links),
        has_level(links, point as int, level),
        forall|i: int|
            0 <= i < nearest.len() ==> has_level(links, (#[trigger] nearest[i]).idx as int, level),
    ensures
        ({
            let after = graph.linked_on(links, level, point, nearest, pair);
            &&& changed_on(links, after, level)
            &&& forall|p: int|
                has_level(links, p, level) && links[p][level].len() <= graph.m_of(level) ==> (
                #[trigger] after[p])[level].len() <= graph.m_of(level)
            &&& graph.m_of(level) > 0 && nearest.len() > 0 ==> after[point as int][level].len() > 0
        }),
{
    let m = graph.m_of(level);
    if graph.use_heuristic {
        let chosen = selected(nearest, m, pair);
        lemma_selected_len(nearest, m, pair);
        lemma_selected_on_level(links, level, nearest, m, pair);
        let own = with_list(links, point as int, level, chosen);
        lemma_with_list(links, point as int, level, chosen);
        assert forall|i: int| 0 <= i < chosen.len() implies has_level(
            own,
            #[trigger] chosen[i] as int,
            level,
        ) by {
            assert(has_level(links, chosen[i] as int, level));
        }
        lemma_adopt_all_grows(own, level, m, point, chosen, pair);
        let after = graph.linked_on(links, level, point, nearest, pair);
        assert(after == adopt_all(own, level, m, point, chosen, pair));
        assert(has_level(own, point as int, level));
        assert(after[point as int][level].len() >= own[point as int][level].len());
        assert forall|p: int| 0 <= p < links.len() implies (#[trigger] links[p]).len()
            == after[p].len() by {
            assert(links[p].len() == own[p].len());
            assert(own[p].len() == after[p].len());
        }
        assert forall|p: int, l: int| has_level(links, p, l) && l != level implies
            #[trigger] after[p][l] == links[p][l] by {
            assert(has_level(own, p, l));
            assert(own[p][l] == links[p][l]);
        }
        assert forall|p: int|
            has_level(links, p, level) && links[p][level].len() <= m implies (
        #[trigger] after[p])[level].len() <= m by {
            assert(has_level(own, p, level));
            assert(own[p][level].len() <= m);
        }
    } else {
        lemma_connect_nearest_grows(links, level, m, point, nearest, pair);
    }
}

/// Linking a point from a level down leaves higher lists as they are, keeps lists within
/// their limits, and gives the point links on each level where any are wanted.
pub proof fn lemma_linked_down_changes(
    graph: Graph,
    links: Links,
    level: int,
    point: PointOffsetType,
    entry: ScoredPointOffset,
    scoring: Scoring,
)
    requires
        links_wf(links),
        level >= 0 ==> has_level(links, point as int, level),
        level >= 0 ==> has_level(links, entry.idx as int, level),
    ensures
        ({
            let after = graph.linked_down(links, level, point, entry, scoring);
            &&& same_shape(links, after)
            &&& forall|p: int, l: int|
                has_level(links, p, l) && l > level ==> #[trigger] after[p][l] == links[p][l]
            &&& forall|p: int, l: int|
                has_level(links, p, l) && links[p][l].len() <= graph.m_of(l) ==> (
                #[trigger] after[p][l]).len() <= graph.m_of(l)
            &&& graph.ef_construct > 0 ==> forall|l: int|
                0 <= l <= level && graph.m_of(l) > 0 ==> (
                #[trigger] after[point as int][l]).len() > 0
        }),
    decreases level + 1,
{
    if level >= 0 {
        let layer = graph.layer(links, level, scoring);
        let nearest = layer.search(graph.ef_construct, entry);
        layer.lemma_search_on_level(graph.ef_construct, entry);
        law_search_result(layer, graph.ef_construct, entry);
        graph.lemma_linked_on(links, level, point, nearest, scoring.pair);
        lemma_linked_on_changes(graph, links, level, point, nearest, scoring.pair);
        lemma_best_of(entry, nearest);
        let next = if graph.use_heuristic {
            entry
        } else {
            best_of(entry, nearest)
        };
        let mid = graph.linked_on(links, level, point, nearest, scoring.pair);
        let after = graph.linked_down(links, level, point, entry, scoring);
        assert(has_level(links, next.idx as int, level));
        assert(mid[point as int].len() == links[point as int].len());
        assert(mid[next.idx as int].len() == links[next.idx as int].len());
        lemma_linked_down_changes(graph, mid, level - 1, point, next, scoring);
        assert(after == graph.linked_down(mid, level - 1, point, next, scoring));
        assert forall|p: int| 0 <= p < links.len() implies (#[trigger] links[p]).len()
            == after[p].len() by {
            assert(links[p].len() == mid[p].len());
            assert(mid[p].len() == after[p].len());
        }
        assert forall|p: int, l: int| has_level(links, p, l) && l > level implies
            #[trigger] after[p][l] == links[p][l] by {
            assert(links[p].len() == mid[p].len());
            assert(mid[p][l] == links[p][l]);
        }
        assert forall|p: int, l: int|
            has_level(links, p, l) && links[p][l].len() <= graph.m_of(l) implies (
        #[trigger] after[p][l]).len() <= graph.m_of(l) by {
            assert(links[p].len() == mid[p].len());
            if l != level {
                assert(mid[p][l] == links[p][l]);
            } else {
                assert(mid[p][level].len() <= graph.m_of(l));
            }
        }
        if graph.ef_construct > 0 {
            assert forall|l: int| 0 <= l <= level && graph.m_of(l) > 0 implies (
            #[trigger] after[point as int][l]).len() > 0 by {
                if l == level {
                    assert(after[point as int][l] == mid[point as int][l]);
                }
            }
        }
    }
}

/// Highest level on which a new point is linked: the lower of its own level and that
/// of the entry point.
pub open spec fn linking_level(level: usize, entry: EntryPoint) -> int {
    if level < entry.level {
        level as int
    } else {
        entry.level as int
    }
}

proof fn lemma_with_point_links(
    graph: Graph,
    point: PointOffsetType,
    level: usize,
    scoring: Scoring,
    entry: EntryPoint,
)
    requires
        graph.wf(),
        point < graph.links.len(),
        graph.entries.first_main(scoring.admits) == Some(entry),
    ensures
        ({
            let before = raised(graph.links, point as int, level as nat);
            let after = graph.with_point(point, level, scoring).links;
            let top = linking_level(level, entry);
            &&& same_shape(before, after)
            &&& forall|p: int, l: int|
                has_level(before, p, l) && l > top ==> #[trigger] after[p][l] == before[p][l]
            &&& forall|p: int, l: int|
                has_level(before, p, l) && before[p][l].len() <= graph.m_of(l) ==> (
                #[trigger] after[p][l]).len() <= graph.m_of(l)
            &&& graph.ef_construct > 0 ==> forall|l: int|
                0 <= l <= top && graph.m_of(l) > 0 ==> (
                #[trigger] after[point as int][l]).len() > 0
        }),
{
    let after = graph.with_point(point, level, scoring);
    let mid = Graph { entries: after.entries, ..graph.with_levels(point, level as nat) };
    let top = linking_level(level, entry);
    lemma_raised(graph.links, point as int, level as nat);
    graph.entries.lemma_first_main(scoring.admits);
    let i = choose|i: int| 0 <= i < graph.entries.main.len() && graph.entries.main[i] == entry;
    let e = graph.entries.main[i];
    assert(has_level(graph.links, e.point_id as int, e.level as int));
    mid.lemma_level_entry(point, level as nat, entry, scoring);
    let start = mid.level_entry(point, level as nat, entry, scoring);
    lemma_linked_down_changes(mid, mid.links, top, point, start, scoring);
    assert(after.links == mid.linked_down(mid.links, top, point, start, scoring));
    assert(forall|l: int| mid.m_of(l) == graph.m_of(l));
}

/// Linking a new point takes no level from any point, and gives levels to the new
/// point alone: up to its own level.
pub proof fn law_linking_keeps_levels(
    graph: Graph,
    point: PointOffsetType,
    level: usize,
    scoring: Scoring,
)
    requires
        graph.wf(),
        point < graph.links.len(),
    ensures
        graph.with_point(point, level, scoring).links.len() == graph.links.len(),
        forall|p: int|
            0 <= p < graph.links.len() && p != point ==> (#[trigger] graph.with_point(
                point,
                level,
                scoring,
            ).links[p]).len() == graph.links[p].len(),
        graph.with_point(point, level, scoring).links[point as int].len()
            == if graph.links[point as int].len() > level {
            graph.links[point as int].len()
        } else {
            level as nat + 1
        },
{
    let before = raised(graph.links, point as int, level as nat);
    let after = graph.with_point(point, level, scoring).links;
    if let Some(entry) = graph.entries.first_main(scoring.admits) {
        lemma_with_point_links(graph, point, level, scoring, entry);
    }
    assert(same_shape(before, after));
    assert(before[point as int].len() == after[point as int].len());
    assert forall|p: int| 0 <= p < graph.links.len() && p != point implies (
    #[trigger] after[p]).len() == graph.links[p].len() by {
        assert(before[p].len() == after[p].len());
    }
}

/// Linking a new point leaves the lists above the levels on which it is linked as
/// they are.
pub proof fn law_linking_keeps_higher_lists(
    graph: Graph,
    point: PointOffsetType,
    level: usize,
    scoring: Scoring,
    p: int,
    l: int,
)
    requires
        graph.wf(),
        point < graph.links.len(),
        has_level(graph.links, p, l),
        match graph.entries.first_main(scoring.admits) {
            None => true,
            Some(entry) => l > linking_level(level, entry),
        },
    ensures
        graph.with_point(point, level, scoring).links[p][l] == graph.links[p][l],
{
    lemma_raised(graph.links, point as int, level as nat);
    let before = raised(graph.links, point as int, level as nat);
    assert(before[p][l] == graph.links[p][l]);
    if let Some(entry) = graph.entries.first_main(scoring.admits) {
        lemma_with_point_links(graph, point, level, scoring, entry);
    }
}

/// The levels that a point is given above those on which it is linked have no links.
pub proof fn law_linking_leaves_higher_levels_empty(
    graph: Graph,
    point: PointOffsetType,
    level: usize,
    scoring: Scoring,
    l: int,
)
    requires
        graph.wf(),
        point < graph.links.len(),
        graph.links[point as int].len() <= l <= level,
        match graph.entries.first_main(scoring.admits) {
            None => true,
            Some(entry) => l > linking_level(level, entry),
        },
    ensures
        graph.with_point(point, level, scoring).links[point as int][l].len() == 0,
{
    lemma_raised(graph.links, point as int, level as nat);
    let before = raised(graph.links, point as int, level as nat);
    assert(has_level(before, point as int, l));
    assert(before[point as int][l].len() == 0);
    if let Some(entry) = graph.entries.first_main(scoring.admits) {
        lemma_with_point_links(graph, point, level, scoring, entry);
    }
}

/// If no list is longer than the graph wants, none is after a point was linked.
pub proof fn law_linking_keeps_lists_within_limits(
    graph: Graph,
    point: PointOffsetType,
    level: usize,
    scoring: Scoring,
)
    requires
        graph.wf(),
        point < graph.links.len(),
        lists_within_limits(graph),
    ensures
        lists_within_limits(graph.with_point(point, level, scoring)),
{
    lemma_raised(graph.links, point as int, level as nat);
    let before = raised(graph.links, point as int, level as nat);
    let after = graph.with_point(point, level, scoring);
    assert forall|p: int, l: int| has_level(before, p, l) implies (
    #[trigger] before[p][l]).len() <= graph.m_of(l) by {
        if has_level(graph.links, p, l) {
            assert(before[p][l] == graph.links[p][l]);
        }
    }
    if let Some(entry) = graph.entries.first_main(scoring.admits) {
        lemma_with_point_links(graph, point, level, scoring, entry);
        assert forall|p: int, l: int| has_level(after.links, p, l) implies (
        #[trigger] after.links[p][l]).len() <= after.m_of(l) by {
            assert(before[p].len() == after.links[p].len());
            assert(before[p][l].len() <= graph.m_of(l));
        }
    }
}

/// A new point for which there is an entry point gets a link on each level that both
/// reach, wherever links are wanted at all.
pub proof fn law_linked_point_has_links(
    graph: Graph,
    point: PointOffsetType,
    level: usize,
    scoring: Scoring,
    entry: EntryPoint,
    l: int,
)
    requires
        graph.wf(),
        point < graph.links.len(),
        graph.ef_construct > 0,
        graph.entries.first_main(scoring.admits) == Some(entry),
        0 <= l <= linking_level(level, entry),
        graph.m_of(l) > 0,
    ensures
        graph.with_point(point, level, scoring).links[point as int][l].len() > 0,
{
    lemma_with_point_links(graph, point, level, scoring, entry);
}

/// Linking a new point keeps the graph well formed.
pub proof fn law_linking_keeps_graph_well_formed(
    graph: Graph,
    point: PointOffsetType,
    level: usize,
    scoring: Scoring,
)
    requires
        graph.wf(),
        point < graph.links.len(),
    ensures
        graph.with_point(point, level, scoring).wf(),
{
    graph.lemma_with_point_wf(point, level, scoring);
}

// Links to the point itself

/// Whether no point links to itself.
pub open spec fn no_self_links(links: Links) -> bool {
    forall|p: int, l: int, i: int|
        has_level(links, p, l) && 0 <= i < links[p][l].len() ==> #[trigger] links[p][l][i] != p
}

/// Whether up to a level no list contains the point.
pub open spec fn unlinked_up_to(links: Links, point: PointOffsetType, level: int) -> bool {
    forall|p: int, l: int, i: int|
        has_level(links, p, l) && l <= level && 0 <= i < links[p][l].len()
            ==> #[trigger] links[p][l][i] != point
}

/// Whether no list contains the point.
pub open spec fn unlinked(links: Links, point: PointOffsetType) -> bool {
    forall|p: int, l: int, i: int|
        has_level(links, p, l) && 0 <= i < links[p][l].len() ==> #[trigger] links[p][l][i]
            != point
}

/// What changes on one level leaves a point out of the lists below.
pub proof fn lemma_unlinked_below(a: Links, b: Links, level: int, point: PointOffsetType)
    requires
        changed_on(a, b, level),
        unlinked_up_to(a, point, level),
    ensures
        unlinked_up_to(b, point, level - 1),
{
    assert forall|p: int, l: int, i: int|
        has_level(b, p, l) && l <= level - 1 && 0 <= i < b[p][l].len() implies
        #[trigger] b[p][l][i] != point by {
        assert(a[p].len() == b[p].len());
        assert(b[p][l] == a[p][l]);
        assert(a[p][l][i] != point);
    }
}

/// Whether no list contains the point, and it is not an entry point.
pub open spec fn is_fresh(graph: Graph, point: PointOffsetType) -> bool {
    &&& unlinked(graph.links, point)
    &&& forall|i: int|
        0 <= i < graph.entries.main.len() ==> (#[trigger] graph.entries.main[i]).point_id != point
}

/// From any other point, no path leads to a point that no list contains.
pub proof fn lemma_reachable_is_linked(
    layer: Layer,
    from: PointOffsetType,
    to: PointOffsetType,
    point: PointOffsetType,
)
    requires
        links_wf(layer.links),
        layer.has_point(from),
        layer.reachable(from, to),
        unlinked_up_to(layer.links, point, layer.level),
        from != point,
    ensures
        to != point,
{
    let path = choose|path: Seq<PointOffsetType>|
        #[trigger] layer.is_path(path) && path[0] == from && path.last() == to;
    lemma_path_is_linked(layer, path, path.len() - 1, point);
}

proof fn lemma_path_is_linked(
    layer: Layer,
    path: Seq<PointOffsetType>,
    at: int,
    point: PointOffsetType,
)
    requires
        links_wf(layer.links),
        layer.is_path(path),
        layer.has_point(path[0]),
        unlinked_up_to(layer.links, point, layer.level),
        path[0] != point,
        0 <= at < path.len(),
    ensures
        path[at] != point,
{
    if at > 0 {
        let before = path[at - 1];
        layer.lemma_path_on_level(path, at - 1);
        assert(layer.neighbours(before).contains(path[at]));
        let i = choose|i: int|
            0 <= i < layer.neighbours(before).len() && layer.neighbours(before)[i] == path[at];
        assert(layer.links[before as int][layer.level][i] != point);
    }
}

proof fn lemma_climb_stays_linked(layer: Layer, current: ScoredPointOffset, point: PointOffsetType)
    requires
        links_wf(layer.links),
        layer.has_point(current.idx),
        unlinked_up_to(layer.links, point, layer.level),
        current.idx != point,
    ensures
        layer.climb(current).idx != point,
    decreases ScoreType::MAX - current.score,
{
    let points = layer.next_points(current.idx);
    let next = best_of(current, points);
    if next.score > current.score {
        lemma_best_of(current, points);
        layer.lemma_next_points_on_level(current.idx);
        let i = choose|i: int| 0 <= i < points.len() && points[i] == next;
        assert(layer.has_point(points[i].idx));
        let list = layer.neighbours(current.idx);
        let all = list.filter(layer.scoring.admits);
        assert(next.idx == all[i]);
        list.lemma_filter_contains_rev(layer.scoring.admits, next.idx);
        let j = choose|j: int| 0 <= j < list.len() && list[j] == next.idx;
        assert(layer.links[current.idx as int][layer.level][j] != point);
        lemma_climb_stays_linked(layer, next, point);
    }
}

proof fn lemma_descend_stays_linked(
    graph: Graph,
    current: ScoredPointOffset,
    top: int,
    target: int,
    scoring: Scoring,
    point: PointOffsetType,
)
    requires
        links_wf(graph.links),
        0 <= target <= top,
        has_level(graph.links, current.idx as int, top),
        unlinked_up_to(graph.links, point, top),
        current.idx != point,
    ensures
        graph.descend(current, top, target, scoring).idx != point,
    decreases top - target,
{
    if top > target {
        let layer = graph.layer(graph.links, top, scoring);
        layer.lemma_climb_on_level(current);
        lemma_climb_stays_linked(layer, current, point);
        lemma_descend_stays_linked(
            graph,
            layer.climb(current),
            top - 1,
            target,
            scoring,
            point,
        );
    }
}

proof fn lemma_with_list_no_self_links(
    links: Links,
    point: int,
    level: int,
    list: Seq<PointOffsetType>,
)
    requires
        no_self_links(links),
        has_level(links, point, level),
        forall|i: int| 0 <= i < list.len() ==> #[trigger] list[i] != point,
    ensures
        no_self_links(with_list(links, point, level, list)),
{
    let after = with_list(links, point, level, list);
    assert forall|p: int, l: int, i: int|
        has_level(after, p, l) && 0 <= i < after[p][l].len() implies #[trigger] after[p][l][i]
        != p by {
        if p == point && l == level {
            assert(after[p][l][i] == list[i]);
        } else {
            assert(after[p][l] == links[p][l]);
            assert(links[p][l][i] != p);
        }
    }
}

proof fn lemma_connect_no_self_links(
    links: Links,
    level: int,
    limit: nat,
    target: PointOffsetType,
    new: PointOffsetType,
    pair: PairScore,
)
    requires
        no_self_links(links),
        has_level(links, target as int, level),
        target != new,
    ensures
        no_self_links(connect(links, level, limit, target, new, pair)),
{
    let list = links[target as int][level];
    let after = connected(list, limit, target, new, pair);
    assert forall|i: int| 0 <= i < after.len() implies #[trigger] after[i] != target as int by {
        lemma_connected_from(list, limit, target, new, pair, i);
        if after[i] != new {
            let j = choose|j: int| 0 <= j < list.len() && list[j] == after[i];
            assert(links[target as int][level][j] != target as int);
        }
    }
    lemma_with_list_no_self_links(links, target as int, level, after);
}

proof fn lemma_connect_nearest_no_self_links(
    links: Links,
    level: int,
    limit: nat,
    point: PointOffsetType,
    nearest: Seq<ScoredPointOffset>,
    pair: PairScore,
)
    requires
        links_wf(links),
        no_self_links(links),
        has_level(links, point as int, level),
        forall|i: int|
            0 <= i < nearest.len() ==> has_level(links, (#[trigger] nearest[i]).idx as int, level)
                && nearest[i].idx != point,
    ensures
        no_self_links(connect_nearest(links, level, limit, point, nearest, pair)),
    decreases nearest.len(),
{
    if nearest.len() > 0 {
        let head = nearest.drop_last();
        assert forall|i: int| 0 <= i < head.len() implies has_level(
            links,
            (#[trigger] head[i]).idx as int,
            level,
        ) && head[i].idx != point by {
            assert(head[i] == nearest[i]);
        }
        lemma_connect_nearest_no_self_links(links, level, limit, point, head, pair);
        lemma_connect_nearest_grows(links, level, limit, point, head, pair);
        let before = connect_nearest(links, level, limit, point, head, pair);
        let other = nearest.last().idx;
        assert(has_level(links, nearest[nearest.len() - 1].idx as int, level));
        assert(before[point as int].len() == links[point as int].len());
        assert(before[other as int].len() == links[other as int].len());
        lemma_connect_no_self_links(before, level, limit, point, other, pair);
        let there = connect(before, level, limit, point, other, pair);
        assert(there[other as int].len() == before[other as int].len());
        lemma_connect_no_self_links(there, level, limit, other, point, pair);
    }
}

proof fn lemma_adopt_all_no_self_links(
    links: Links,
    level: int,
    m: nat,
    point: PointOffsetType,
    others: Seq<PointOffsetType>,
    pair: PairScore,
)
    requires
        no_self_links(links),
        forall|i: int|
            0 <= i < others.len() ==> has_level(links, #[trigger] others[i] as int, level)
                && others[i] != point,
    ensures
        no_self_links(adopt_all(links, level, m, point, others, pair)),
    decreases others.len(),
{
    if others.len() > 0 {
        let head = others.drop_last();
        assert forall|i: int| 0 <= i < head.len() implies has_level(
            links,
            #[trigger] head[i] as int,
            level,
        ) && head[i] != point by {
            assert(head[i] == others[i]);
        }
        lemma_adopt_all_no_self_links(links, level, m, point, head, pair);
        lemma_adopt_all_grows(links, level, m, point, head, pair);
        let before = adopt_all(links, level, m, point, head, pair);
        let other = others.last();
        assert(has_level(links, others[others.len() - 1] as int, level));
        assert(before[other as int].len() == links[other as int].len());
        let list = before[other as int][level];
        let after = adopted(list, m, point, other, pair);
        lemma_adopted(list, m, point, other, pair);
        assert forall|i: int| 0 <= i < after.len() implies #[trigger] after[i] != other as int by {
            if after[i] != point {
                let j = choose|j: int| 0 <= j < list.len() && list[j] == after[i];
                assert(before[other as int][level][j] != other as int);
            }
        }
        lemma_with_list_no_self_links(before, other as int, level, after);
    }
}

proof fn lemma_linked_on_no_self_links(
    graph: Graph,
    links: Links,
    level: int,
    point: PointOffsetType,
    nearest: Seq<ScoredPointOffset>,
    pair: PairScore,
)
    requires
        links_wf(links),
        no_self_links(links),
        has_level(links, point as int, level),
        forall|i: int|
            0 <= i < nearest.len() ==> has_level(links, (#[trigger] nearest[i]).idx as int, level)
                && nearest[i].idx != point,
    ensures
        no_self_links(graph.linked_on(links, level, point, nearest, pair)),
{
    let m = graph.m_of(level);
    if graph.use_heuristic {
        let chosen = selected(nearest, m, pair);
        let own = with_list(links, point as int, level, chosen);
        assert forall|i: int| 0 <= i < chosen.len() implies has_level(
            own,
            #[trigger] chosen[i] as int,
            level,
        ) && chosen[i] != point by {
            let j = lemma_selected_from(nearest, m, pair, i);
            assert(has_level(links, nearest[j].idx as int, level));
        }
        lemma_with_list_no_self_links(links, point as int, level, chosen);
        lemma_adopt_all_no_self_links(own, level, m, point, chosen, pair);
    } else {
        lemma_connect_nearest_no_self_links(links, level, m, point, nearest, pair);
    }
}

proof fn lemma_linked_down_no_self_links(
    graph: Graph,
    links: Links,
    level: int,
    point: PointOffsetType,
    entry: ScoredPointOffset,
    scoring: Scoring,
)
    requires
        links_wf(links),
        no_self_links(links),
        unlinked_up_to(links, point, level),
        level >= 0 ==> has_level(links, point as int, level),
        level >= 0 ==> has_level(links, entry.idx as int, level),
        entry.idx != point,
    ensures
        no_self_links(graph.linked_down(links, level, point, entry, scoring)),
    decreases level + 1,
{
    if level >= 0 {
        let layer = graph.layer(links, level, scoring);
        let nearest = layer.search(graph.ef_construct, entry);
        law_search_result(layer, graph.ef_construct, entry);
        assert forall|i: int| 0 <= i < nearest.len() implies has_level(
            links,
            (#[trigger] nearest[i]).idx as int,
            level,
        ) && nearest[i].idx != point by {
            assert(layer.has_point(layer.search(graph.ef_construct, entry)[i].idx));
            lemma_reachable_is_linked(layer, entry.idx, nearest[i].idx, point);
        }
        graph.lemma_linked_on(links, level, point, nearest, scoring.pair);
        lemma_linked_on_changes(graph, links, level, point, nearest, scoring.pair);
        lemma_linked_on_no_self_links(graph, links, level, point, nearest, scoring.pair);
        lemma_best_of(entry, nearest);
        let next = if graph.use_heuristic {
            entry
        } else {
            best_of(entry, nearest)
        };
        let mid = graph.linked_on(links, level, point, nearest, scoring.pair);
        assert(has_level(links, next.idx as int, level) && next.idx != point);
        assert(mid[point as int].len() == links[point as int].len());
        assert(mid[next.idx as int].len() == links[next.idx as int].len());
        lemma_unlinked_below(links, mid, level, point);
        lemma_linked_down_no_self_links(graph, mid, level - 1, point, next, scoring);
    }
}

/// The graph in which a new point has its levels and is noted among the entry points,
/// but is not linked yet.
pub open spec fn prepared(
    graph: Graph,
    point: PointOffsetType,
    level: usize,
    scoring: Scoring,
) -> Graph {
    Graph {
        entries: graph.entries.with_point(EntryPoint { point_id: point, level }, scoring.admits),
        ..graph.with_levels(point, level as nat)
    }
}

/// Linking starts on the highest level that the new point and the entry point share, at
/// a point of that level. It is none that no list contains and that is not the entry
/// point.
pub proof fn lemma_linking_start(
    graph: Graph,
    point: PointOffsetType,
    level: usize,
    scoring: Scoring,
    entry: EntryPoint,
    other: PointOffsetType,
) -> (start: ScoredPointOffset)
    requires
        graph.wf(),
        point < graph.links.len(),
        graph.entries.first_main(scoring.admits) == Some(entry),
        is_fresh(graph, other),
    ensures
        ({
            let before = prepared(graph, point, level, scoring);
            let top = linking_level(level, entry);
            &&& links_wf(before.links)
            &&& unlinked(before.links, other)
            &&& has_level(before.links, point as int, top)
            &&& has_level(before.links, start.idx as int, top)
            &&& start.idx != other
            &&& start == before.level_entry(point, level as nat, entry, scoring)
            &&& graph.with_point(point, level, scoring).links == before.linked_down(
                before.links,
                top,
                point,
                start,
                scoring,
            )
        }),
{
    let before = prepared(graph, point, level, scoring);
    lemma_raised(graph.links, point as int, level as nat);
    assert forall|p: int, l: int, i: int|
        has_level(before.links, p, l) && 0 <= i < before.links[p][l].len() implies
        #[trigger] before.links[p][l][i] != other by {
        assert(has_level(graph.links, p, l));
        assert(before.links[p][l] == graph.links[p][l]);
        assert(graph.links[p][l][i] != other);
    }
    graph.entries.lemma_first_main(scoring.admits);
    let i = choose|i: int| 0 <= i < graph.entries.main.len() && graph.entries.main[i] == entry;
    let e = graph.entries.main[i];
    assert(has_level(graph.links, e.point_id as int, e.level as int) && e.point_id != other);
    before.lemma_level_entry(point, level as nat, entry, scoring);
    if entry.level > level {
        let first = ScoredPointOffset {
            idx: entry.point_id,
            score: (scoring.query)(entry.point_id),
        };
        lemma_descend_stays_linked(
            before,
            first,
            entry.level as int,
            level as int,
            scoring,
            other,
        );
    }
    before.level_entry(point, level as nat, entry, scoring)
}

/// If no point links to itself, none does after a fresh point was linked.
pub proof fn law_linking_makes_no_self_links(
    graph: Graph,
    point: PointOffsetType,
    level: usize,
    scoring: Scoring,
)
    requires
        graph.wf(),
        point < graph.links.len(),
        is_fresh(graph, point),
        no_self_links(graph.links),
    ensures
        no_self_links(graph.with_point(point, level, scoring).links),
{
    let before = prepared(graph, point, level, scoring);
    lemma_raised(graph.links, point as int, level as nat);
    assert forall|p: int, l: int, i: int|
        has_level(before.links, p, l) && 0 <= i < before.links[p][l].len() implies
        #[trigger] before.links[p][l][i] != p by {
        assert(has_level(graph.links, p, l));
        assert(before.links[p][l] == graph.links[p][l]);
        assert(graph.links[p][l][i] != p);
    }
    if let Some(entry) = graph.entries.first_main(scoring.admits) {
        let top = linking_level(level, entry);
        let start = lemma_linking_start(graph, point, level, scoring, entry, point);
        lemma_linked_down_no_self_links(before, before.links, top, point, start, scoring);
    }
}

// Entry points

/// Once a point that meets a condition was added, there is an entry point that meets
/// it and is at least as high, and at least as high as the one that was there before.
pub proof fn law_added_point_has_an_entry_point(
    entries: Entries,
    point: EntryPoint,
    check: PointCheck,
)
    requires
        check(point.point_id),
    ensures
        entries.with_point(point, check).lookup(check) matches Some(entry) && check(entry.point_id)
            && entry.level >= point.level && (entries.first_main(check) matches Some(before)
            ==> entry.level >= before.level),
{
    let p = entry_check(check);
    let at = first_index(entries.main, p);
    lemma_first_index(entries.main, p);
    let after = entries.with_point(point, check);
    assert forall|i: int| 0 <= i < at implies !p(#[trigger] after.main[i]) by {
        assert(after.main[i] == entries.main[i]);
    }
    lemma_first_index_is(after.main, p, at);
}

/// Whether no point is higher than the highest level noted, and the entry point, once
/// there is one, is on that level.
pub open spec fn entry_on_top(graph: Graph) -> bool {
    &&& forall|p: int|
        0 <= p < graph.links.len() ==> (#[trigger] graph.links[p]).len() <= graph.max_level + 1
    &&& graph.entries.main.len() == 0 ==> graph.max_level == 0
    &&& graph.entries.main.len() > 0 ==> graph.entries.main.len() == 1
        && graph.entries.main[0].level == graph.max_level
}

/// Whether the filter admits all points of the graph.
pub open spec fn admits_all(graph: Graph, admits: PointCheck) -> bool {
    forall|p: PointOffsetType| p < graph.links.len() ==> #[trigger] admits(p)
}

/// While all points are admitted, linking a point leaves one entry point, on the
/// highest level.
pub proof fn law_linking_keeps_entry_on_top(
    graph: Graph,
    point: PointOffsetType,
    level: usize,
    scoring: Scoring,
)
    requires
        graph.wf(),
        point < graph.links.len(),
        admits_all(graph, scoring.admits),
        entry_on_top(graph),
    ensures
        entry_on_top(graph.with_point(point, level, scoring)),
        graph.with_point(point, level, scoring).entries.main.len() == 1,
{
    let after = graph.with_point(point, level, scoring);
    law_linking_keeps_levels(graph, point, level, scoring);
    assert(graph.links[point as int].len() <= graph.max_level + 1);
    assert forall|p: int| 0 <= p < after.links.len() implies (#[trigger] after.links[p]).len()
        <= after.max_level + 1 by {
        assert(graph.links[p].len() <= graph.max_level + 1);
    }
    let p = entry_check(scoring.admits);
    if graph.entries.main.len() > 0 {
        let e = graph.entries.main[0];
        assert(has_level(graph.links, e.point_id as int, e.level as int));
        assert(p(e));
        lemma_first_index_is(graph.entries.main, p, 0);
    }
}

/// Such an entry point is what a lookup finds; it reaches up to the highest level of
/// all points.
pub proof fn law_entry_on_top_is_found(graph: Graph, admits: PointCheck)
    requires
        graph.wf(),
        entry_on_top(graph),
        admits_all(graph, admits),
        graph.entries.main.len() > 0,
    ensures
        graph.entries.lookup(admits) matches Some(entry) && graph.links[entry.point_id as int].len()
            == entry.level + 1 && forall|p: int|
            0 <= p < graph.links.len() ==> (#[trigger] graph.links[p]).len() <= entry.level + 1,
{
    let p = entry_check(admits);
    let e = graph.entries.main[0];
    assert(has_level(graph.links, e.point_id as int, e.level as int));
    assert(p(e));
    lemma_first_index_is(graph.entries.main, p, 0);
    assert(graph.links[e.point_id as int].len() <= graph.max_level + 1);
}

} // verus!
