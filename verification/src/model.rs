//! Mathematical model of the graph: what search and linking compute.

use crate::entry_points::{Entries, EntryPoint};
use crate::priority_queue::offered;
use crate::ranking::{first_index, ranked};
use crate::scorer::{PairScore, PointCheck, Scoring};
use crate::search_context::taken_in;
use crate::types::{PointOffsetType, ScoreType, ScoredPointOffset};
use vstd::prelude::*;

verus! {

/// For each point and each of its levels, the points that it links to.
pub type Links = Seq<Seq<Seq<PointOffsetType>>>;

/// Whether the point exists and reaches up to the level.
pub open spec fn has_level(links: Links, point: int, level: int) -> bool {
    &&& 0 <= point < links.len()
    &&& 0 <= level < links[point].len()
}

/// Whether on each level all points link to points that reach up to that level.
pub open spec fn links_wf(links: Links) -> bool {
    forall|p: int, l: int, i: int|
        has_level(links, p, l) && 0 <= i < links[p][l].len() ==> has_level(
            links,
            #[trigger] links[p][l][i] as int,
            l,
        )
}

/// The links with the list of one point on one level replaced.
pub open spec fn with_list(
    links: Links,
    point: int,
    level: int,
    list: Seq<PointOffsetType>,
) -> Links {
    links.update(point, links[point].update(level, list))
}

/// The links with empty lists added to one point until it reaches up to `level`.
pub open spec fn raised(links: Links, point: int, level: nat) -> Links {
    let layers = links[point];
    if layers.len() > level {
        links
    } else {
        let missing = Seq::new(
            (level + 1 - layers.len()) as nat,
            |i: int| Seq::<PointOffsetType>::empty(),
        );
        links.update(point, layers + missing)
    }
}

// Search within a layer

/// The point with the highest score among `current` and `points`. Among points
/// with the same score it is the first one, and `current` comes before all.
pub open spec fn best_of(
    current: ScoredPointOffset,
    points: Seq<ScoredPointOffset>,
) -> ScoredPointOffset
    decreases points.len(),
{
    if points.len() == 0 {
        current
    } else {
        let best = best_of(current, points.drop_last());
        if points.last().score > best.score {
            points.last()
        } else {
            best
        }
    }
}

/// State of a search: the nearest points found, the points whose links are still to
/// be followed (the last one next), and the points come across.
pub struct SearchState {
    pub nearest: Seq<ScoredPointOffset>,
    pub candidates: Seq<PointOffsetType>,
    pub visited: Set<PointOffsetType>,
}

impl SearchState {
    /// The state after a scored point was offered to the `ef` nearest.
    pub open spec fn offer(self, ef: nat, point: ScoredPointOffset) -> SearchState {
        SearchState {
            nearest: offered(self.nearest, ef, point),
            candidates: if taken_in(self.nearest, ef, point) {
                self.candidates.push(point.idx)
            } else {
                self.candidates
            },
            visited: self.visited,
        }
    }

    /// The state after scored points were offered, one after the other.
    pub open spec fn offer_all(self, ef: nat, points: Seq<ScoredPointOffset>) -> SearchState
        decreases points.len(),
    {
        if points.len() == 0 {
            self
        } else {
            self.offer_all(ef, points.drop_last()).offer(ef, points.last())
        }
    }
}

/// State in which a search for the `ef` nearest points starts at `entry`.
pub open spec fn search_start(entry: ScoredPointOffset, ef: nat) -> SearchState {
    SearchState {
        nearest: offered(Seq::empty(), ef, entry),
        candidates: seq![entry.idx],
        visited: Set::empty().insert(entry.idx),
    }
}

/// Goes through `list`, comes across the points that were not visited before, and
/// stops after `limit` of these were admitted. Gives the admitted ones, and all
/// points that were come across.
pub open spec fn scan(
    list: Seq<PointOffsetType>,
    limit: nat,
    admits: PointCheck,
    visited: Set<PointOffsetType>,
) -> (Seq<PointOffsetType>, Set<PointOffsetType>)
    decreases list.len(),
{
    if list.len() == 0 {
        (Seq::empty(), visited)
    } else {
        let (found, seen) = scan(list.drop_last(), limit, admits, visited);
        let point = list.last();
        if found.len() >= limit || seen.contains(point) {
            (found, seen)
        } else if admits(point) {
            (found.push(point), seen.insert(point))
        } else {
            (found, seen.insert(point))
        }
    }
}

/// One level of the graph as a search sees it: it follows at most `m` links of a
/// point, and scores points against the query.
pub struct Layer {
    pub links: Links,
    pub level: int,
    pub m: nat,
    pub scoring: Scoring,
}

impl Layer {
    /// The points that a point links to.
    pub open spec fn neighbours(self, point: PointOffsetType) -> Seq<PointOffsetType> {
        self.links[point as int][self.level]
    }

    /// The scored points to which a greedy search can go on from a point.
    pub open spec fn next_points(self, point: PointOffsetType) -> Seq<ScoredPointOffset> {
        self.scoring.scored(self.scoring.admitted(self.neighbours(point), self.m))
    }

    /// Where a greedy search ends that starts at `current`: it goes on to the best
    /// of the next points for as long as that is better than where it stands.
    pub open spec fn climb(self, current: ScoredPointOffset) -> ScoredPointOffset
        decreases ScoreType::MAX - current.score,
    {
        let next = best_of(current, self.next_points(current.idx));
        if next.score > current.score {
            self.climb(next)
        } else {
            current
        }
    }

    /// The state after the links of the last candidate were followed.
    pub open spec fn expand(self, ef: nat, state: SearchState) -> SearchState {
        let (found, seen) = scan(
            self.neighbours(state.candidates.last()),
            self.m,
            self.scoring.admits,
            state.visited,
        );
        let rest = SearchState {
            nearest: state.nearest,
            candidates: state.candidates.drop_last(),
            visited: seen,
        };
        rest.offer_all(ef, self.scoring.scored(found))
    }

    /// The state after candidates were expanded `times` times, or until none was
    /// left.
    pub open spec fn expand_times(self, ef: nat, state: SearchState, times: nat) -> SearchState
        decreases times,
    {
        if times == 0 || state.candidates.len() == 0 {
            state
        } else {
            self.expand_times(ef, self.expand(ef, state), (times - 1) as nat)
        }
    }

    /// The state in which a search ends: no candidate is left. Every point becomes
    /// a candidate at most once, which bounds the number of expansions.
    pub open spec fn search_end(self, ef: nat, state: SearchState) -> SearchState {
        self.expand_times(ef, state, state.candidates.len() + self.links.len())
    }

    /// What a search for the `ef` nearest points finds that starts at `entry`.
    pub open spec fn search(self, ef: nat, entry: ScoredPointOffset) -> Seq<ScoredPointOffset> {
        self.search_end(ef, search_start(entry, ef)).nearest
    }
}

// Lists of links

/// The condition that a point is farther from `target` than `new` is.
pub open spec fn farther_than(
    target: PointOffsetType,
    new: PointOffsetType,
    pair: PairScore,
) -> spec_fn(PointOffsetType) -> bool {
    |p: PointOffsetType| pair(target, p) < pair(target, new)
}

/// The list of `target` after `new` was connected to it: `new` stands before the
/// first point that is farther. If the list has `limit` points already, the last
/// one leaves for it, unless all of them are at least as near.
pub open spec fn connected(
    list: Seq<PointOffsetType>,
    limit: nat,
    target: PointOffsetType,
    new: PointOffsetType,
    pair: PairScore,
) -> Seq<PointOffsetType> {
    let at = first_index(list, farther_than(target, new, pair));
    if list.len() < limit {
        list.insert(at, new)
    } else if at < list.len() {
        list.drop_last().insert(at, new)
    } else {
        list
    }
}

/// The links after `new` was connected to the list of `target`.
pub open spec fn connect(
    links: Links,
    level: int,
    limit: nat,
    target: PointOffsetType,
    new: PointOffsetType,
    pair: PairScore,
) -> Links {
    with_list(
        links,
        target as int,
        level,
        connected(links[target as int][level], limit, target, new, pair),
    )
}

/// The links after `point` was connected with each of `nearest`, in both
/// directions.
pub open spec fn connect_nearest(
    links: Links,
    level: int,
    limit: nat,
    point: PointOffsetType,
    nearest: Seq<ScoredPointOffset>,
    pair: PairScore,
) -> Links
    decreases nearest.len(),
{
    if nearest.len() == 0 {
        links
    } else {
        let before = connect_nearest(links, level, limit, point, nearest.drop_last(), pair);
        let other = nearest.last().idx;
        let there = connect(before, level, limit, point, other, pair);
        connect(there, level, limit, other, point, pair)
    }
}

/// Whether a candidate is no closer to any of the selected points than to the point
/// for which they are selected.
pub open spec fn good_candidate(
    selected: Seq<PointOffsetType>,
    candidate: ScoredPointOffset,
    pair: PairScore,
) -> bool {
    forall|i: int|
        0 <= i < selected.len() ==> pair(candidate.idx, #[trigger] selected[i]) <= candidate.score
}

/// At most `m` of the candidates: each that is good when its turn comes.
pub open spec fn selected(
    candidates: Seq<ScoredPointOffset>,
    m: nat,
    pair: PairScore,
) -> Seq<PointOffsetType>
    decreases candidates.len(),
{
    if candidates.len() == 0 {
        Seq::empty()
    } else {
        let before = selected(candidates.drop_last(), m, pair);
        let candidate = candidates.last();
        if before.len() < m && good_candidate(before, candidate, pair) {
            before.push(candidate.idx)
        } else {
            before
        }
    }
}

/// Points with their scores against `target`.
pub open spec fn scored_against(
    points: Seq<PointOffsetType>,
    target: PointOffsetType,
    pair: PairScore,
) -> Seq<ScoredPointOffset> {
    points.map_values(|p: PointOffsetType| ScoredPointOffset { idx: p, score: pair(p, target) })
}

/// The list of `other` after `point` chose it. While there is room, `point` is
/// appended. Else a selection is made among `point` and the first `m` of the list,
/// taken in the order of rising score, and is written over the front of the list.
pub open spec fn adopted(
    list: Seq<PointOffsetType>,
    m: nat,
    point: PointOffsetType,
    other: PointOffsetType,
    pair: PairScore,
) -> Seq<PointOffsetType> {
    if list.len() < m {
        list.push(point)
    } else {
        let candidates = ranked(
            scored_against(seq![point] + list.take(m as int), other, pair),
        ).reverse();
        let front = selected(candidates, m, pair);
        front + list.skip(front.len() as int)
    }
}

/// The links after `point` chose each of `others`.
pub open spec fn adopt_all(
    links: Links,
    level: int,
    m: nat,
    point: PointOffsetType,
    others: Seq<PointOffsetType>,
    pair: PairScore,
) -> Links
    decreases others.len(),
{
    if others.len() == 0 {
        links
    } else {
        let before = adopt_all(links, level, m, point, others.drop_last(), pair);
        let other = others.last();
        with_list(
            before,
            other as int,
            level,
            adopted(before[other as int][level], m, point, other, pair),
        )
    }
}

// The graph

/// Model of the layered graph.
pub struct Graph {
    pub max_level: nat,
    pub m: nat,
    pub m0: nat,
    pub ef_construct: nat,
    pub use_heuristic: bool,
    pub links: Links,
    pub entries: Entries,
}

impl Graph {
    /// How many links a point should have on a level.
    pub open spec fn m_of(self, level: int) -> nat {
        if level == 0 {
            self.m0
        } else {
            self.m
        }
    }

    /// A level of the graph, with the given links.
    pub open spec fn layer(self, links: Links, level: int, scoring: Scoring) -> Layer {
        Layer { links, level, m: self.m_of(level), scoring }
    }

    /// Whether the links are well formed, and all entry points reach up to the level
    /// that is noted for them.
    pub open spec fn wf(self) -> bool {
        &&& links_wf(self.links)
        &&& forall|i: int|
            0 <= i < self.entries.main.len() ==> has_level(
                self.links,
                (#[trigger] self.entries.main[i]).point_id as int,
                self.entries.main[i].level as int,
            )
        &&& forall|i: int|
            0 <= i < self.entries.extra.len() ==> has_level(
                self.links,
                (#[trigger] self.entries.extra[i]).point_id as int,
                self.entries.extra[i].level as int,
            )
    }

    /// Where a greedy search ends that climbs on each level above `target`, from
    /// `top` down.
    pub open spec fn descend(
        self,
        current: ScoredPointOffset,
        top: int,
        target: int,
        scoring: Scoring,
    ) -> ScoredPointOffset
        decreases top - target,
    {
        if top <= target {
            current
        } else {
            self.descend(
                self.layer(self.links, top, scoring).climb(current),
                top - 1,
                target,
                scoring,
            )
        }
    }

    /// The links after `point` was linked with the points `nearest` to it on a
    /// level.
    pub open spec fn linked_on(
        self,
        links: Links,
        level: int,
        point: PointOffsetType,
        nearest: Seq<ScoredPointOffset>,
        pair: PairScore,
    ) -> Links {
        let m = self.m_of(level);
        if self.use_heuristic {
            let chosen = selected(nearest, m, pair);
            adopt_all(with_list(links, point as int, level, chosen), level, m, point, chosen, pair)
        } else {
            connect_nearest(links, level, m, point, nearest, pair)
        }
    }

    /// The links after `point` was linked on each level from `level` down, with the
    /// points that a search finds from `entry`. Without the heuristic the search on
    /// the next level starts at the best point found so far.
    pub open spec fn linked_down(
        self,
        links: Links,
        level: int,
        point: PointOffsetType,
        entry: ScoredPointOffset,
        scoring: Scoring,
    ) -> Links
        decreases level + 1,
    {
        if level < 0 {
            links
        } else {
            let nearest = self.layer(links, level, scoring).search(self.ef_construct, entry);
            let next = if self.use_heuristic {
                entry
            } else {
                best_of(entry, nearest)
            };
            self.linked_down(
                self.linked_on(links, level, point, nearest, scoring.pair),
                level - 1,
                point,
                next,
                scoring,
            )
        }
    }

    /// The graph after a point was given its levels.
    pub open spec fn with_levels(self, point: PointOffsetType, level: nat) -> Graph {
        Graph {
            links: raised(self.links, point as int, level),
            max_level: if level > self.max_level {
                level
            } else {
                self.max_level
            },
            ..self
        }
    }

    /// Where the search for the neighbours of a new point starts: at the entry
    /// point, or below it if the entry point is higher than the new point.
    pub open spec fn level_entry(
        self,
        point: PointOffsetType,
        level: nat,
        entry: EntryPoint,
        scoring: Scoring,
    ) -> ScoredPointOffset {
        if entry.level > level {
            let start = ScoredPointOffset {
                idx: entry.point_id,
                score: (scoring.query)(entry.point_id),
            };
            self.descend(start, entry.level as int, level as int, scoring)
        } else {
            ScoredPointOffset {
                idx: entry.point_id,
                score: (scoring.pair)(point, entry.point_id),
            }
        }
    }

    /// The graph after a new point was linked into it: the point is given its
    /// levels and is added to the entry points. If there was an entry point that the
    /// filter admits, the point is linked on every level that both reach.
    pub open spec fn with_point(
        self,
        point: PointOffsetType,
        level: usize,
        scoring: Scoring,
    ) -> Graph {
        let raised = self.with_levels(point, level as nat);
        let graph = Graph {
            entries: self.entries.with_point(
                EntryPoint { point_id: point, level },
                scoring.admits,
            ),
            ..raised
        };
        match self.entries.first_main(scoring.admits) {
            None => graph,
            Some(entry) => {
                let start = graph.level_entry(point, level as nat, entry, scoring);
                let top = if level < entry.level {
                    level as int
                } else {
                    entry.level as int
                };
                Graph { links: graph.linked_down(graph.links, top, point, start, scoring), ..graph }
            },
        }
    }
}

} // verus!
