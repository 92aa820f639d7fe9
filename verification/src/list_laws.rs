//! What becomes of a single list: of candidates that are selected, of links that take in
//! a point, and of a queue into which an item is pushed. The laws speak of the items and
//! their scores alone.

use crate::entry_points::{entry_check, Entries, EntryPoint};
use crate::linking_lemmas::lemma_selected_len;
use crate::model::{adopted, best_of, connected, farther_than, scored_against, selected};
use crate::priority_queue::{displaced, lemma_offered_keeps_order, offered};
use crate::ranking::{
    first_index, is_ranked, law_ranked_orders_the_same_items, lemma_first_index,
    lemma_first_index_is, lemma_ranked_insert, outranked_by, ranked, Prioritized,
};
use crate::scorer::{PairScore, PointCheck, Scoring};
use crate::search_context::taken_in;
use crate::types::{PointOffsetType, ScoredPointOffset};
use vstd::prelude::*;

verus! {

// Selection

/// Whether `at` gives, rising, the indices of the candidates that make up `chosen`, at
/// most `m` of them, such that
/// - none is closer to one selected before it than to the base point, against which the
///   candidates are scored, and
/// - a candidate is left out only if it is closer to one selected before it than to the
///   base point, or comes after `m` selected ones.
pub open spec fn is_diverse_selection(
    at: Seq<int>,
    candidates: Seq<ScoredPointOffset>,
    m: nat,
    chosen: Seq<PointOffsetType>,
    pair: PairScore,
) -> bool {
    &&& at.len() == chosen.len()
    &&& at.len() <= m
    &&& forall|i: int|
        0 <= i < at.len() ==> 0 <= #[trigger] at[i] < candidates.len() && candidates[at[i]].idx
            == chosen[i]
    &&& forall|i: int, j: int| 0 <= i < j < at.len() ==> #[trigger] at[i] < #[trigger] at[j]
    &&& forall|i: int, j: int|
        0 <= i < j < at.len() ==> pair(
            candidates[#[trigger] at[j]].idx,
            candidates[#[trigger] at[i]].idx,
        ) <= candidates[at[j]].score
    &&& forall|k: int|
        #![trigger candidates[k]]
        0 <= k < candidates.len() && !at.contains(k) ==> {
            ||| at.len() == m && forall|i: int| 0 <= i < at.len() ==> #[trigger] at[i] < k
            ||| exists|i: int|
                0 <= i < at.len() && #[trigger] at[i] < k && pair(
                    candidates[k].idx,
                    candidates[at[i]].idx,
                ) > candidates[k].score
        }
}

/// The heuristic makes a diverse selection: of any two selected points, the later one is
/// not closer to the earlier one than to the base point. No candidate is left out without
/// such a reason while there is room.
pub proof fn law_selection_is_diverse(
    candidates: Seq<ScoredPointOffset>,
    m: nat,
    pair: PairScore,
) -> (at: Seq<int>)
    ensures
        is_diverse_selection(at, candidates, m, selected(candidates, m, pair), pair),
    decreases candidates.len(),
{
    let chosen = selected(candidates, m, pair);
    lemma_selected_len(candidates, m, pair);
    if candidates.len() == 0 {
        Seq::empty()
    } else {
        let head = candidates.drop_last();
        let last = candidates.len() - 1;
        let before = selected(head, m, pair);
        let at = law_selection_is_diverse(head, m, pair);
        assert forall|i: int| 0 <= i < at.len() implies 0 <= #[trigger] at[i] < last
            && candidates[at[i]] == head[at[i]] && candidates[at[i]].idx == before[i] by {
            assert(head[at[i]].idx == before[i]);
        }
        assert(!at.contains(last));
        if chosen == before {
            assert forall|k: int|
                #![trigger candidates[k]]
                0 <= k < candidates.len() && !at.contains(k) implies {
                ||| at.len() == m && forall|i: int| 0 <= i < at.len() ==> #[trigger] at[i] < k
                ||| exists|i: int|
                    0 <= i < at.len() && #[trigger] at[i] < k && pair(
                        candidates[k].idx,
                        candidates[at[i]].idx,
                    ) > candidates[k].score
            } by {
                if k < last {
                    assert(head[k] == candidates[k]);
                } else if before.len() < m {
                    let i = choose|i: int|
                        0 <= i < before.len() && pair(candidates[k].idx, #[trigger] before[i])
                            > candidates[k].score;
                    assert(at[i] < k);
                }
            }
            at
        } else {
            let longer = at.push(last);
            assert forall|i: int, j: int| 0 <= i < j < longer.len() implies #[trigger] longer[i]
                < #[trigger] longer[j] && pair(candidates[longer[j]].idx, candidates[longer[i]].idx)
                <= candidates[longer[j]].score by {
                assert(longer[i] == at[i]);
                if j < at.len() {
                    assert(longer[j] == at[j]);
                    assert(at[i] < at[j]);
                } else {
                    assert(pair(candidates[last].idx, before[i]) <= candidates[last].score);
                }
            }
            assert forall|k: int|
                #![trigger candidates[k]]
                0 <= k < candidates.len() && !longer.contains(k) implies {
                ||| longer.len() == m && forall|i: int|
                    0 <= i < longer.len() ==> #[trigger] longer[i] < k
                ||| exists|i: int|
                    0 <= i < longer.len() && #[trigger] longer[i] < k && pair(
                        candidates[k].idx,
                        candidates[longer[i]].idx,
                    ) > candidates[k].score
            } by {
                assert(longer[at.len() as int] == last);
                assert(k < last);
                if at.contains(k) {
                    let i = choose|i: int| 0 <= i < at.len() && at[i] == k;
                    assert(longer[i] == k);
                }
                assert(head[k] == candidates[k]);
                let i = choose|i: int|
                    0 <= i < at.len() && #[trigger] at[i] < k && pair(
                        head[k].idx,
                        head[at[i]].idx,
                    ) > head[k].score;
                assert(longer[i] == at[i]);
            }
            longer
        }
    }
}

proof fn lemma_diverse_selections_agree(
    a: Seq<int>,
    b: Seq<int>,
    candidates: Seq<ScoredPointOffset>,
    m: nat,
    x: Seq<PointOffsetType>,
    y: Seq<PointOffsetType>,
    pair: PairScore,
    i: int,
)
    requires
        is_diverse_selection(a, candidates, m, x, pair),
        is_diverse_selection(b, candidates, m, y, pair),
        0 <= i < a.len(),
    ensures
        i < b.len(),
        a[i] == b[i],
    decreases i,
{
    if i > 0 {
        lemma_diverse_selections_agree(a, b, candidates, m, x, y, pair, i - 1);
    }
    assert forall|j: int| 0 <= j < i implies j < b.len() && #[trigger] a[j] == b[j] by {
        lemma_diverse_selections_agree(a, b, candidates, m, x, y, pair, j);
    }
    assert(i == 0 || i - 1 < b.len());
    lemma_selects_no_earlier(a, b, candidates, m, x, y, pair, i);
    lemma_selects_no_earlier(b, a, candidates, m, y, x, pair, i);
}

proof fn lemma_selects_no_earlier(
    a: Seq<int>,
    b: Seq<int>,
    candidates: Seq<ScoredPointOffset>,
    m: nat,
    x: Seq<PointOffsetType>,
    y: Seq<PointOffsetType>,
    pair: PairScore,
    i: int,
)
    requires
        is_diverse_selection(a, candidates, m, x, pair),
        is_diverse_selection(b, candidates, m, y, pair),
        0 <= i < a.len(),
        i <= b.len(),
        forall|j: int| 0 <= j < i ==> #[trigger] a[j] == b[j],
    ensures
        i < b.len(),
        b[i] <= a[i],
{
    let k = a[i];
    if i == b.len() || a[i] < b[i] {
        assert forall|j: int| 0 <= j < b.len() && #[trigger] b[j] <= k implies j < i by {
            if j > i {
                assert(b[i] < b[j]);
            }
        }
        assert(!b.contains(k)) by {
            if b.contains(k) {
                let j = choose|j: int| 0 <= j < b.len() && b[j] == k;
                assert(b[j] <= k);
                assert(a[j] < a[i]);
            }
        }
        assert(candidates[k].idx == x[i]);
        if b.len() == m && forall|j: int| 0 <= j < b.len() ==> #[trigger] b[j] < k {
            if b.len() > i {
                assert(b[i] < k);
            }
        } else {
            let j = choose|j: int|
                0 <= j < b.len() && #[trigger] b[j] < k && pair(
                    candidates[k].idx,
                    candidates[b[j]].idx,
                ) > candidates[k].score;
            assert(b[j] <= k);
            assert(a[j] == b[j]);
            assert(pair(candidates[a[i]].idx, candidates[a[j]].idx) <= candidates[a[i]].score);
        }
    }
}

/// There is only one diverse selection among candidates that stand in a given order, and
/// it is the one that the heuristic makes.
pub proof fn law_diverse_selection_is_unique(
    at: Seq<int>,
    candidates: Seq<ScoredPointOffset>,
    m: nat,
    chosen: Seq<PointOffsetType>,
    pair: PairScore,
)
    requires
        is_diverse_selection(at, candidates, m, chosen, pair),
    ensures
        chosen == selected(candidates, m, pair),
{
    let own = law_selection_is_diverse(candidates, m, pair);
    let result = selected(candidates, m, pair);
    if at.len() < own.len() {
        lemma_diverse_selections_agree(
            own,
            at,
            candidates,
            m,
            result,
            chosen,
            pair,
            at.len() as int,
        );
    } else if own.len() < at.len() {
        lemma_diverse_selections_agree(
            at,
            own,
            candidates,
            m,
            chosen,
            result,
            pair,
            own.len() as int,
        );
    }
    assert forall|i: int| 0 <= i < chosen.len() implies chosen[i] == result[i] by {
        lemma_diverse_selections_agree(at, own, candidates, m, chosen, result, pair, i);
        assert(candidates[at[i]].idx == chosen[i]);
        assert(candidates[own[i]].idx == result[i]);
    }
    assert(chosen =~= result);
}

// Taking in a point by its score

/// Whether all points of the list before `at` are at least as close to `target` as `new`
/// is, and the one at `at`, if there is one, is farther.
pub open spec fn is_place_of(
    list: Seq<PointOffsetType>,
    target: PointOffsetType,
    new: PointOffsetType,
    pair: PairScore,
    at: int,
) -> bool {
    &&& 0 <= at <= list.len()
    &&& forall|i: int| 0 <= i < at ==> pair(target, #[trigger] list[i]) >= pair(target, new)
    &&& at < list.len() ==> pair(target, list[at]) < pair(target, new)
}

/// Whether `after` is the list of `target` with `new` in its place. Where `limit` points
/// were in the list before, the last one is gone for it; if none of them was farther than
/// `new`, nothing has changed.
pub open spec fn takes_in(
    list: Seq<PointOffsetType>,
    limit: nat,
    target: PointOffsetType,
    new: PointOffsetType,
    pair: PairScore,
    after: Seq<PointOffsetType>,
) -> bool {
    exists|at: int| #[trigger]
        is_place_of(list, target, new, pair, at) && {
            if list.len() < limit {
                after == list.take(at).push(new) + list.skip(at)
            } else if at < list.len() {
                after == list.take(at).push(new) + list.subrange(at, list.len() - 1)
            } else {
                after == list
            }
        }
}

/// Connecting a point puts it in its place by its score. A full list lets its last point
/// go for it.
pub proof fn law_connecting_takes_in(
    list: Seq<PointOffsetType>,
    limit: nat,
    target: PointOffsetType,
    new: PointOffsetType,
    pair: PairScore,
)
    ensures
        takes_in(list, limit, target, new, pair, connected(list, limit, target, new, pair)),
{
    let p = farther_than(target, new, pair);
    let at = first_index(list, p);
    lemma_first_index(list, p);
    assert forall|i: int| 0 <= i < at implies pair(target, #[trigger] list[i]) >= pair(
        target,
        new,
    ) by {
        assert(!p(list[i]));
    }
    assert(is_place_of(list, target, new, pair, at));
    let after = connected(list, limit, target, new, pair);
    if list.len() < limit {
        assert(after =~= list.take(at).push(new) + list.skip(at));
    } else if at < list.len() {
        assert(after =~= list.take(at).push(new) + list.subrange(at, list.len() - 1));
    }
}

/// A list that takes in a point contains it afterwards, or is full and contains only
/// points that are at least as close. All points but the last stay in any case, the last
/// one too while there is room, and none but the new one comes in.
pub proof fn law_taking_in(
    list: Seq<PointOffsetType>,
    limit: nat,
    target: PointOffsetType,
    new: PointOffsetType,
    pair: PairScore,
    after: Seq<PointOffsetType>,
)
    requires
        takes_in(list, limit, target, new, pair, after),
    ensures
        after.contains(new) || after.len() >= limit && forall|i: int|
            0 <= i < after.len() ==> pair(target, #[trigger] after[i]) >= pair(target, new),
        after.len() == if list.len() < limit {
            list.len() + 1
        } else {
            list.len()
        },
        forall|i: int|
            0 <= i < after.len() ==> #[trigger] after[i] == new || list.contains(after[i]),
        forall|i: int|
            0 <= i < list.len() && (list.len() < limit || i < list.len() - 1) ==> after.contains(
                #[trigger] list[i],
            ),
{
    let at = choose|at: int| #[trigger]
        is_place_of(list, target, new, pair, at) && {
            if list.len() < limit {
                after == list.take(at).push(new) + list.skip(at)
            } else if at < list.len() {
                after == list.take(at).push(new) + list.subrange(at, list.len() - 1)
            } else {
                after == list
            }
        };
    if list.len() < limit || at < list.len() {
        assert(after[at] == new);
        assert forall|i: int| 0 <= i < after.len() implies #[trigger] after[i] == new
            || list.contains(after[i]) by {
            if i < at {
                assert(after[i] == list[i]);
            } else if i > at {
                assert(after[i] == list[i - 1]);
            }
        }
        assert forall|i: int|
            0 <= i < list.len() && (list.len() < limit || i < list.len() - 1) implies
            after.contains(#[trigger] list[i]) by {
            if i < at {
                assert(after[i] == list[i]);
            } else {
                assert(after[i + 1] == list[i]);
            }
        }
    }
}

// Taking in a point by a new selection

/// Whether `order` holds the points with their scores against `target`, in the order of
/// rising score.
pub open spec fn is_rising_order(
    order: Seq<ScoredPointOffset>,
    points: Seq<PointOffsetType>,
    target: PointOffsetType,
    pair: PairScore,
) -> bool {
    &&& order.to_multiset() == points.map_values(
        |p: PointOffsetType| ScoredPointOffset { idx: p, score: pair(p, target) },
    ).to_multiset()
    &&& forall|i: int, j: int|
        0 <= i <= j < order.len() ==> (#[trigger] order[i]).score <= (#[trigger] order[j]).score
}

/// Whether `after` is what the full list of `other` becomes when `point` has chosen it:
/// it begins with a diverse selection among `point` and the first `m` of the list, taken
/// in some order of rising score, and goes on as before.
pub open spec fn is_reselected(
    list: Seq<PointOffsetType>,
    m: nat,
    point: PointOffsetType,
    other: PointOffsetType,
    pair: PairScore,
    after: Seq<PointOffsetType>,
    order: Seq<ScoredPointOffset>,
    at: Seq<int>,
) -> bool {
    &&& is_rising_order(order, seq![point] + list.take(m as int), other, pair)
    &&& after.len() == list.len()
    &&& at.len() <= list.len()
    &&& is_diverse_selection(at, order, m, after.take(at.len() as int), pair)
    &&& forall|i: int| at.len() <= i < list.len() ==> #[trigger] after[i] == list[i]
}

/// Whether `after` is what the list of `other` becomes when `point` has chosen it.
pub open spec fn adopts(
    list: Seq<PointOffsetType>,
    m: nat,
    point: PointOffsetType,
    other: PointOffsetType,
    pair: PairScore,
    after: Seq<PointOffsetType>,
) -> bool {
    if list.len() < m {
        after == list.push(point)
    } else {
        exists|order: Seq<ScoredPointOffset>, at: Seq<int>| #[trigger]
            is_reselected(list, m, point, other, pair, after, order, at)
    }
}

/// A point that was chosen by another one appends it to its list while there is room.
/// Else its list begins with a new selection among the other point and its own ones.
pub proof fn law_adopting_selects_anew(
    list: Seq<PointOffsetType>,
    m: nat,
    point: PointOffsetType,
    other: PointOffsetType,
    pair: PairScore,
)
    ensures
        adopts(list, m, point, other, pair, adopted(list, m, point, other, pair)),
{
    if list.len() >= m {
        let after = adopted(list, m, point, other, pair);
        let points = seq![point] + list.take(m as int);
        let items = scored_against(points, other, pair);
        let order = ranked(items).reverse();
        law_ranked_orders_the_same_items(items);
        ranked(items).lemma_reverse_to_multiset();
        assert(items =~= points.map_values(
            |p: PointOffsetType| ScoredPointOffset { idx: p, score: pair(p, other) },
        ));
        assert forall|i: int, j: int| 0 <= i <= j < order.len() implies (
        #[trigger] order[i]).score <= (#[trigger] order[j]).score by {
            let n = order.len();
            assert(ranked(items)[n - 1 - j].priority() >= ranked(items)[n - 1 - i].priority());
        }
        let front = selected(order, m, pair);
        lemma_selected_len(order, m, pair);
        let at = law_selection_is_diverse(order, m, pair);
        assert(after.take(at.len() as int) =~= front);
        assert(is_reselected(list, m, point, other, pair, after, order, at));
    }
}

/// A full list takes in a point that has chosen its owner and is farther from it than
/// all its points, but for one at most that the point is no closer to than to the owner.
pub proof fn law_adopting_takes_in_a_far_point(
    list: Seq<PointOffsetType>,
    m: nat,
    point: PointOffsetType,
    other: PointOffsetType,
    pair: PairScore,
    after: Seq<PointOffsetType>,
    k: int,
)
    requires
        adopts(list, m, point, other, pair, after),
        1 <= m <= list.len(),
        0 <= k < m,
        forall|i: int|
            0 <= i < m && i != k ==> pair(#[trigger] list[i], other) > pair(point, other),
        pair(list[k], other) > pair(point, other) || m >= 2 && pair(point, list[k]) <= pair(
            point,
            other,
        ),
    ensures
        after.contains(point),
{
    let (order, at) = choose|order: Seq<ScoredPointOffset>, at: Seq<int>| #[trigger]
        is_reselected(list, m, point, other, pair, after, order, at);
    let points = seq![point] + list.take(m as int);
    let items = points.map_values(
        |p: PointOffsetType| ScoredPointOffset { idx: p, score: pair(p, other) },
    );
    let new = ScoredPointOffset { idx: point, score: pair(point, other) };
    let x = ScoredPointOffset { idx: list[k], score: pair(list[k], other) };
    assert(items[0] == new);
    vstd::seq_lib::to_multiset_contains(items, new);
    vstd::seq_lib::to_multiset_contains(order, new);
    assert(items.contains(new));
    let is_new = |y: ScoredPointOffset| y.idx == point;
    let j = first_index(order, is_new);
    lemma_first_index(order, is_new);
    let w = choose|w: int| 0 <= w < order.len() && order[w] == new;
    assert(is_new(order[w]));
    assert(j <= w);
    // Before the point, only the one that is not closer than it can stand.
    assert forall|i: int| 0 <= i < j implies #[trigger] order[i] == x by {
        assert(!is_new(order[i]));
        assert(order[i].score <= order[w].score);
        vstd::seq_lib::to_multiset_contains(order, order[i]);
        vstd::seq_lib::to_multiset_contains(items, order[i]);
        assert(order.contains(order[i]));
        let t = choose|t: int| 0 <= t < items.len() && items[t] == order[i];
        assert(t > 0);
        assert(points[t] == list[t - 1]);
        assert(t - 1 == k);
        assert(x.score <= new.score);
    }
    if j >= 2 {
        lemma_single_item(items, order, k + 1, x);
    }
    let front = after.take(at.len() as int);
    if at.contains(j) {
        let i = choose|i: int| 0 <= i < at.len() && at[i] == j;
        assert(order[at[i]].idx == front[i]);
        assert(after[i] == point);
    } else {
        assert(order[j].idx == point);
        vstd::seq_lib::to_multiset_contains(order, order[j]);
        vstd::seq_lib::to_multiset_contains(items, order[j]);
        assert(order.contains(order[j]));
        let t = choose|t: int| 0 <= t < items.len() && items[t] == order[j];
        assert(order[j].score == pair(point, other));
        if at.len() == m && forall|i: int| 0 <= i < at.len() ==> #[trigger] at[i] < j {
            assert(at[0] < j);
            assert(order[0] == x);
            assert(m >= 2);
            assert(at[0] < at[1]);
            assert(at[1] < j);
        } else {
            let i = choose|i: int|
                0 <= i < at.len() && #[trigger] at[i] < j && pair(
                    order[j].idx,
                    order[at[i]].idx,
                ) > order[j].score;
            assert(order[at[i]] == x);
        }
    }
}

proof fn lemma_single_item(
    items: Seq<ScoredPointOffset>,
    order: Seq<ScoredPointOffset>,
    at: int,
    x: ScoredPointOffset,
)
    requires
        order.to_multiset() == items.to_multiset(),
        0 <= at < items.len(),
        items[at] == x,
        forall|i: int| 0 <= i < items.len() && i != at ==> #[trigger] items[i] != x,
        order.len() >= 2,
        order[0] == x,
    ensures
        order[1] != x,
{
    vstd::seq_lib::to_multiset_remove(items, at);
    vstd::seq_lib::to_multiset_remove(order, 0);
    let a = items.remove(at);
    let b = order.remove(0);
    vstd::seq_lib::to_multiset_contains(a, x);
    vstd::seq_lib::to_multiset_contains(b, x);
    assert(b[0] == order[1]);
    if b[0] == x {
        assert(b.contains(x));
        let i = choose|i: int| 0 <= i < a.len() && a[i] == x;
        if i < at {
            assert(items[i] == x);
        } else {
            assert(items[i + 1] == x);
        }
    }
}

// The queue

/// Pushing an item into a queue that is in order keeps it in order. While there is room,
/// the item comes in and nothing leaves. Else one item leaves, none that stays has a lower
/// priority, and the new item itself leaves if its priority is not above the lowest.
pub proof fn law_push_lets_the_lowest_go<T: Prioritized>(s: Seq<T>, length: nat, x: T)
    requires
        s.len() <= length,
        forall|i: int, j: int|
            0 <= i <= j < s.len() ==> (#[trigger] s[i]).priority() >= (#[trigger] s[j]).priority(),
    ensures
        ({
            let after = offered(s, length, x);
            &&& forall|i: int, j: int|
                0 <= i <= j < after.len() ==> (#[trigger] after[i]).priority() >= (
                #[trigger] after[j]).priority()
            &&& match displaced(s, length, x) {
                None => s.len() < length && after.to_multiset() == s.to_multiset().insert(x),
                Some(out) => {
                    &&& s.len() == length
                    &&& after.to_multiset().insert(out) == s.to_multiset().insert(x)
                    &&& forall|i: int|
                        0 <= i < after.len() ==> (#[trigger] after[i]).priority() >= out.priority()
                    &&& (length == 0 || x.priority() <= s.last().priority()) ==> out == x && after
                        == s
                    &&& length > 0 && x.priority() > s.last().priority() ==> out == s.last()
                },
            }
        }),
{
    broadcast use vstd::multiset::group_multiset_axioms;

    let after = offered(s, length, x);
    assert(is_ranked(s));
    lemma_offered_keeps_order(s, length, x);
    lemma_ranked_insert(s, x);
    if s.len() == length && s.len() > 0 && x.priority() > s.last().priority() {
        let t = s.drop_last();
        lemma_ranked_insert(t, x);
        assert(t.push(s.last()) =~= s);
        vstd::seq_lib::to_multiset_build(t, s.last());
        assert(after.to_multiset().insert(s.last()) =~= s.to_multiset().insert(x));
        assert forall|i: int| 0 <= i < after.len() implies (#[trigger] after[i]).priority()
            >= s.last().priority() by {
            lemma_first_index(t, outranked_by(x));
            let at = first_index(t, outranked_by(x));
            if i < at {
                assert(after[i] == s[i]);
            } else if i > at {
                assert(after[i] == s[i - 1]);
            }
            assert(s[s.len() - 1] == s.last());
        }
    } else if s.len() == length && s.len() > 0 {
        assert forall|i: int| 0 <= i < after.len() implies (#[trigger] after[i]).priority()
            >= x.priority() by {
            assert(s[i].priority() >= s[s.len() - 1].priority());
        }
    }
}

/// Whether `after` is `s` with `x` at `at`, where only items of lower priority come behind
/// it and none before.
pub open spec fn is_inserted_at<T: Prioritized>(s: Seq<T>, x: T, after: Seq<T>, at: int) -> bool {
    &&& 0 <= at <= s.len()
    &&& after == s.insert(at, x)
    &&& forall|i: int| 0 <= i < at ==> (#[trigger] s[i]).priority() >= x.priority()
    &&& at < s.len() ==> s[at].priority() < x.priority()
}

/// An item that comes into a queue stands behind those of the same priority that were
/// there before.
pub proof fn law_push_comes_after_equals<T: Prioritized>(s: Seq<T>, length: nat, x: T)
    ensures
        s.len() < length ==> exists|at: int| is_inserted_at(s, x, offered(s, length, x), at),
        s.len() >= length && s.len() > 0 && x.priority() > s.last().priority() ==> exists|at: int|
            is_inserted_at(s.drop_last(), x, offered(s, length, x), at),
{
    let stay = if s.len() < length {
        s
    } else {
        s.drop_last()
    };
    let at = first_index(stay, outranked_by(x));
    lemma_first_index(stay, outranked_by(x));
    assert forall|i: int| 0 <= i < at implies (#[trigger] stay[i]).priority() >= x.priority() by {
        assert(!outranked_by(x)(stay[i]));
    }
    if s.len() < length {
        assert(is_inserted_at(s, x, offered(s, length, x), at));
    } else if s.len() > 0 && x.priority() > s.last().priority() {
        assert(is_inserted_at(s.drop_last(), x, offered(s, length, x), at));
    }
}

/// Points are ranked by their scores, and entry points by their levels.
pub proof fn law_priorities(point: ScoredPointOffset, entry: EntryPoint)
    ensures
        point.priority() == point.score,
        entry.priority() == entry.level,
{
}

/// The links of a point that was not found before are to be followed exactly if there is
/// room among the nearest, or it is closer than the last of them.
pub proof fn law_only_closer_points_are_followed(
    nearest: Seq<ScoredPointOffset>,
    ef: nat,
    point: ScoredPointOffset,
)
    requires
        forall|i: int| 0 <= i < nearest.len() ==> (#[trigger] nearest[i]).idx != point.idx,
    ensures
        taken_in(nearest, ef, point) <==> nearest.len() < ef || nearest.len() > 0 && point.score
            > nearest.last().score,
{
    if nearest.len() > 0 {
        assert(nearest[nearest.len() - 1].idx != point.idx);
    }
}

/// The best of several points and a current one is the first of those with the highest
/// score, the current one before all.
pub proof fn law_best_is_the_first_of_the_closest(
    current: ScoredPointOffset,
    points: Seq<ScoredPointOffset>,
)
    ensures
        ({
            let best = best_of(current, points);
            if forall|i: int| 0 <= i < points.len() ==> (#[trigger] points[i]).score
                <= current.score {
                best == current
            } else {
                exists|at: int|
                    0 <= at < points.len() && best == #[trigger] points[at] && best.score
                        > current.score && (forall|i: int|
                        0 <= i < points.len() ==> (#[trigger] points[i]).score <= best.score) && (
                    forall|i: int| 0 <= i < at ==> (#[trigger] points[i]).score < best.score)
            }
        }),
    decreases points.len(),
{
    if points.len() > 0 {
        let head = points.drop_last();
        let last = points[points.len() - 1];
        law_best_is_the_first_of_the_closest(current, head);
        let before = best_of(current, head);
        let best = best_of(current, points);
        assert forall|i: int| 0 <= i < head.len() implies (#[trigger] points[i]).score
            <= before.score by {
            assert(points[i] == head[i]);
        }
        if last.score > before.score {
            assert(best == points[points.len() - 1]);
        } else if forall|i: int| 0 <= i < head.len() ==> (#[trigger] head[i]).score
            <= current.score {
            assert(before == current);
            assert forall|i: int| 0 <= i < points.len() implies (#[trigger] points[i]).score
                <= current.score by {
                if i < head.len() {
                    assert(head[i].score <= current.score);
                }
            }
        } else {
            let at = choose|at: int|
                0 <= at < head.len() && before == #[trigger] head[at] && before.score
                    > current.score && (forall|i: int|
                    0 <= i < head.len() ==> (#[trigger] head[i]).score <= before.score) && (forall|
                    i: int,
                | 0 <= i < at ==> (#[trigger] head[i]).score < before.score);
            assert(points[at] == best);
            assert forall|i: int| 0 <= i < at implies (#[trigger] points[i]).score < best.score by {
                assert(points[i] == head[i]);
            }
        }
    }
}

/// Scoring under a filter takes the points that the filter admits, in their order, up to
/// the limit, each with its score against the query.
pub proof fn law_scoring_takes_the_first_admitted(
    scoring: Scoring,
    points: Seq<PointOffsetType>,
    limit: nat,
)
    ensures
        ({
            let all = points.filter(scoring.admits);
            let scored = scoring.scored(scoring.admitted(points, limit));
            &&& scored.len() == if all.len() < limit {
                all.len()
            } else {
                limit
            }
            &&& forall|i: int|
                0 <= i < scored.len() ==> #[trigger] scored[i] == (ScoredPointOffset {
                    idx: all[i],
                    score: (scoring.query)(all[i]),
                })
        }),
{
}

// Entry points

/// Whether `at` is the index of the first entry point that meets the condition.
pub open spec fn is_first_entry(main: Seq<EntryPoint>, check: PointCheck, at: int) -> bool {
    &&& 0 <= at < main.len()
    &&& check(main[at].point_id)
    &&& forall|i: int| 0 <= i < at ==> !check((#[trigger] main[i]).point_id)
}

/// Whether no entry point meets the condition.
pub open spec fn has_no_entry(main: Seq<EntryPoint>, check: PointCheck) -> bool {
    forall|i: int| 0 <= i < main.len() ==> !check((#[trigger] main[i]).point_id)
}

/// A new point is linked from the first entry point that meets the condition. The higher
/// of the two is the entry point from then on, the old one if they are equally high. The
/// other one is pushed to the extra ones.
pub proof fn law_higher_point_becomes_the_entry(
    entries: Entries,
    point: EntryPoint,
    check: PointCheck,
    at: int,
)
    requires
        is_first_entry(entries.main, check, at),
    ensures
        entries.first_main(check) == Some(entries.main[at]),
        ({
            let after = entries.with_point(point, check);
            let old_one = entries.main[at];
            &&& after.main == if point.level > old_one.level {
                entries.main.update(at, point)
            } else {
                entries.main
            }
            &&& after.extra == offered(
                entries.extra,
                entries.extra_length,
                if point.level > old_one.level {
                    old_one
                } else {
                    point
                },
            )
            &&& after.extra_length == entries.extra_length
        }),
{
    let p = entry_check(check);
    assert forall|i: int| 0 <= i < at implies !p(#[trigger] entries.main[i]) by {
        assert(!check(entries.main[i].point_id));
    }
    assert(p(entries.main[at]));
    lemma_first_index_is(entries.main, p, at);
}

/// If no entry point meets the condition, there is none to link a new point from, and the
/// new point becomes one.
pub proof fn law_first_admitted_point_becomes_an_entry(
    entries: Entries,
    point: EntryPoint,
    check: PointCheck,
)
    requires
        has_no_entry(entries.main, check),
    ensures
        entries.first_main(check) is None,
        entries.with_point(point, check).main == entries.main.push(point),
        entries.with_point(point, check).extra == entries.extra,
        entries.with_point(point, check).extra_length == entries.extra_length,
{
    let p = entry_check(check);
    assert forall|i: int| 0 <= i < entries.main.len() implies !p(#[trigger] entries.main[i]) by {
        assert(!check(entries.main[i].point_id));
    }
    lemma_first_index_is(entries.main, p, entries.main.len() as int);
}

/// A lookup gives the first entry point that meets the condition. If there is none, it
/// gives the first of the extra ones that meets it, if any does; as these are in order,
/// none that meets it is higher.
pub proof fn law_lookup(entries: Entries, check: PointCheck)
    requires
        forall|i: int, j: int|
            0 <= i <= j < entries.extra.len() ==> (#[trigger] entries.extra[i]).level >= (
            #[trigger] entries.extra[j]).level,
    ensures
        forall|at: int| #[trigger]
            is_first_entry(entries.main, check, at) ==> entries.lookup(check) == Some(
                entries.main[at],
            ),
        has_no_entry(entries.main, check) ==> match entries.lookup(check) {
            None => has_no_entry(entries.extra, check),
            Some(entry) => {
                &&& entries.extra.contains(entry)
                &&& check(entry.point_id)
                &&& forall|i: int|
                    0 <= i < entries.extra.len() && check((#[trigger] entries.extra[i]).point_id)
                        ==> entries.extra[i].level <= entry.level
            },
        },
{
    let p = entry_check(check);
    let none = EntryPoint { point_id: 0, level: 0 };
    assert forall|at: int| #[trigger]
        is_first_entry(entries.main, check, at) implies entries.lookup(check) == Some(
        entries.main[at],
    ) by {
        law_higher_point_becomes_the_entry(entries, none, check, at);
    }
    if has_no_entry(entries.main, check) {
        law_first_admitted_point_becomes_an_entry(entries, none, check);
        let at = first_index(entries.extra, p);
        lemma_first_index(entries.extra, p);
        assert forall|i: int|
            0 <= i < entries.extra.len() && check(
                (#[trigger] entries.extra[i]).point_id,
            ) implies at <= i by {
            assert(p(entries.extra[i]));
        }
        if at < entries.extra.len() {
            assert(p(entries.extra[at]));
        }
    }
}

} // verus!
