//! The layered graph: its links, search in it, and linking of new points.

use crate::building_laws::{is_new, never_linked};
use crate::entry_points::{EntryPoint, EntryPoints};
use crate::linking_laws::{entry_on_top, lists_within_limits, no_self_links};
use crate::linking_lemmas::{
    lemma_adopt_all, lemma_adoption_candidate, lemma_connect, lemma_connect_nearest,
    lemma_list_on_level, lemma_raised, lemma_selected_from, lemma_selected_full,
    lemma_selected_len, lemma_selected_on_level, lemma_with_list,
};
use crate::model::{
    adopt_all, adopted, best_of, connect, connect_nearest, farther_than, good_candidate,
    has_level, links_wf, raised, scan, scored_against, search_start, selected, with_list, Graph,
    Links, SearchState,
};
use crate::priority_queue::FixedLengthPriorityQueue;
use crate::ranking::{
    insert_ranked, law_ranked_orders_the_same_items, lemma_first_index_is, ranked,
};
use crate::scorer::{FilteredScorer, PairScorer};
use crate::search_context::SearchContext;
use crate::search_lemmas::{
    lemma_best_of, lemma_offer_all_visited, lemma_scan_stops, lemma_unvisited_bound,
    lemma_unvisited_insert, unvisited,
};
use crate::types::{PointOffsetType, ScoreType, ScoredPointOffset};
use crate::visited_pool::{VisitedList, VisitedPool};
use vstd::prelude::*;

verus! {

/// Points that a point links to on one level.
pub type LinkContainer = Vec<PointOffsetType>;

/// Links of a point on each of its levels.
pub type LayersContainer = Vec<LinkContainer>;

/// Name of the file that a graph is stored in.
pub const HNSW_GRAPH_FILE: &'static str = "graph.bin";

/// The lists as sequences.
pub open spec fn links_view(links_layers: Seq<LayersContainer>) -> Links {
    Seq::new(
        links_layers.len(),
        |p: int|
            Seq::new(
                links_layers[p]@.len(),
                |l: int| links_layers[p]@[l]@,
            ),
    )
}

/// Links between points on each level of the index.
pub struct GraphLayers {
    pub max_level: usize,
    pub m: usize,
    pub m0: usize,
    pub ef_construct: usize,
    /// Leave out points that are closer to a selected point than to the base point?
    pub use_heuristic: bool,
    pub links_layers: Vec<LayersContainer>,
    pub entry_points: EntryPoints,
    pub visited_pool: VisitedPool,
}

impl View for GraphLayers {
    type V = Graph;

    open spec fn view(&self) -> Graph {
        Graph {
            max_level: self.max_level as nat,
            m: self.m as nat,
            m0: self.m0 as nat,
            ef_construct: self.ef_construct as nat,
            use_heuristic: self.use_heuristic,
            links: links_view(self.links_layers@),
            entries: self.entry_points@,
        }
    }
}

/// The items in reverse: of a ranking, the lowest priority first.
fn into_ascending(items: Vec<ScoredPointOffset>) -> (r: Vec<ScoredPointOffset>)
    ensures
        r@ == items@.reverse(),
{
    let mut r: Vec<ScoredPointOffset> = Vec::new();
    let mut left: usize = items.len();
    while left > 0
        invariant
            left <= items@.len(),
            r@.len() == items@.len() - left,
            forall|i: int| 0 <= i < r@.len() ==> #[trigger] r@[i] == items@[items@.len() - 1 - i],
        decreases left,
    {
        left = left - 1;
        r.push(items[left]);
    }
    assert(r@ =~= items@.reverse());
    r
}

/// The state of a search as the model has it.
pub open spec fn search_state(searcher: SearchContext, visited_list: VisitedList) -> SearchState {
    SearchState {
        nearest: searcher.nearest@,
        candidates: searcher.candidates@,
        visited: visited_list@,
    }
}

impl GraphLayers {
    /// A graph of `num_vectors` points without links, each on the lowest level.
    pub fn new(
        num_vectors: usize,
        m: usize,
        m0: usize,
        ef_construct: usize,
        entry_points_num: usize,
        use_heuristic: bool,
    ) -> (graph: Self)
        ensures
            graph@.max_level == 0,
            graph@.m == m,
            graph@.m0 == m0,
            graph@.ef_construct == ef_construct,
            graph@.use_heuristic == use_heuristic,
            graph@.links == Seq::new(
                num_vectors as nat,
                |p: int| seq![Seq::<PointOffsetType>::empty()],
            ),
            graph@.entries.main == Seq::<EntryPoint>::empty(),
            graph@.entries.extra == Seq::<EntryPoint>::empty(),
            graph@.entries.extra_length == entry_points_num,
            graph@.wf(),
            lists_within_limits(graph@),
            entry_on_top(graph@),
            no_self_links(graph@.links),
            is_new(graph@),
            forall|p: PointOffsetType| p < num_vectors ==> #[trigger] never_linked(graph@, p),
    {
        let mut links_layers: Vec<LayersContainer> = Vec::new();
        let mut i: usize = 0;
        while i < num_vectors
            invariant
                i <= num_vectors,
                links_layers@.len() == i,
                forall|p: int|
                    0 <= p < i ==> (#[trigger] links_layers@[p])@.len() == 1
                        && links_layers@[p]@[0]@.len() == 0,
            decreases num_vectors - i,
        {
            let links: LinkContainer = Vec::new();
            let mut layers: LayersContainer = Vec::new();
            layers.push(links);
            links_layers.push(layers);
            i = i + 1;
        }
        let ghost empty = Seq::new(
            num_vectors as nat,
            |p: int| seq![Seq::<PointOffsetType>::empty()],
        );
        proof {
            let links = links_view(links_layers@);
            assert forall|p: int| 0 <= p < num_vectors implies #[trigger] links[p] == empty[p] by {
                assert(links_layers@[p]@.len() == 1);
                assert(links_layers@[p]@[0]@ =~= Seq::empty());
                assert(links[p] =~= empty[p]);
            }
            assert(links =~= empty);
        }
        GraphLayers {
            max_level: 0,
            m,
            m0,
            ef_construct,
            use_heuristic,
            links_layers,
            entry_points: EntryPoints::new(entry_points_num),
            visited_pool: VisitedPool::new(),
        }
    }

    /// How many points the graph has.
    pub fn num_points(&self) -> (n: usize)
        ensures
            n == self@.links.len(),
    {
        self.links_layers.len()
    }

    /// Links of a point on a level.
    pub fn links(&self, point_id: PointOffsetType, level: usize) -> (links: &LinkContainer)
        requires
            has_level(self@.links, point_id as int, level as int),
        ensures
            links@ == self@.links[point_id as int][level as int],
    {
        &self.links_layers[point_id as usize][level]
    }

    /// How many links a point should have on a level.
    pub fn get_m(&self, level: usize) -> (m: usize)
        ensures
            m == self@.m_of(level as int),
            m == if level == 0 {
                self@.m0
            } else {
                self@.m
            },
    {
        if level == 0 {
            self.m0
        } else {
            self.m
        }
    }

    /// Whether each of the entry points reaches up to the level noted for it.
    fn entries_reach_levels(&self, entries: &Vec<EntryPoint>) -> (r: bool)
        ensures
            r <==> forall|i: int|
                0 <= i < entries@.len() ==> has_level(
                    self@.links,
                    (#[trigger] entries@[i]).point_id as int,
                    entries@[i].level as int,
                ),
    {
        let mut i: usize = 0;
        while i < entries.len()
            invariant
                0 <= i <= entries@.len(),
                forall|k: int|
                    0 <= k < i ==> has_level(
                        self@.links,
                        (#[trigger] entries@[k]).point_id as int,
                        entries@[k].level as int,
                    ),
            decreases entries@.len() - i,
        {
            if !self.reaches_level(entries[i].point_id, entries[i].level) {
                assert(!has_level(
                    self@.links,
                    entries@[i as int].point_id as int,
                    entries@[i as int].level as int,
                ));
                return false;
            }
            i = i + 1;
        }
        true
    }

    /// Whether the point exists and reaches up to the level.
    pub fn reaches_level(&self, point_id: PointOffsetType, level: usize) -> (r: bool)
        ensures
            r == has_level(self@.links, point_id as int, level as int),
    {
        let p: usize = point_id as usize;
        p < self.links_layers.len() && level < self.links_layers[p].len()
    }

    /// Whether all links and entry points lead to points that reach up to the level
    /// in question. Every graph that is built by [`Self::new`] and
    /// [`Self::link_new_point`] is so; one that was read from a file need not be.
    pub fn is_well_formed(&self) -> (r: bool)
        ensures
            r == self@.wf(),
    {
        let ghost links = self@.links;
        let mut p: usize = 0;
        while p < self.links_layers.len()
            invariant
                0 <= p <= self.links_layers@.len(),
                links == self@.links,
                forall|q: int, l: int, i: int|
                    q < p && has_level(links, q, l) && 0 <= i < links[q][l].len() ==> has_level(
                        links,
                        #[trigger] links[q][l][i] as int,
                        l,
                    ),
            decreases self.links_layers@.len() - p,
        {
            let mut level: usize = 0;
            while level < self.links_layers[p].len()
                invariant
                    0 <= p < self.links_layers@.len(),
                    0 <= level <= links[p as int].len(),
                    links == self@.links,
                    forall|q: int, l: int, i: int|
                        (q < p || q == p && l < level) && has_level(links, q, l) && 0 <= i
                            < links[q][l].len() ==> has_level(
                            links,
                            #[trigger] links[q][l][i] as int,
                            l,
                        ),
                decreases links[p as int].len() - level,
            {
                let mut i: usize = 0;
                while i < self.links_layers[p][level].len()
                    invariant
                        0 <= p < self.links_layers@.len(),
                        0 <= level < links[p as int].len(),
                        0 <= i <= links[p as int][level as int].len(),
                        links == self@.links,
                        forall|q: int, l: int, k: int|
                            (q < p || q == p && l < level || q == p && l == level && k < i)
                                && has_level(links, q, l) && 0 <= k < links[q][l].len()
                                ==> has_level(links, #[trigger] links[q][l][k] as int, l),
                    decreases links[p as int][level as int].len() - i,
                {
                    if !self.reaches_level(self.links_layers[p][level][i], level) {
                        proof {
                            let to = links[p as int][level as int][i as int];
                            assert(has_level(links, p as int, level as int));
                            assert(!has_level(links, to as int, level as int));
                        }
                        return false;
                    }
                    i = i + 1;
                }
                level = level + 1;
            }
            p = p + 1;
        }
        assert(links_wf(links));
        let main_reach: bool = self.entries_reach_levels(&self.entry_points.entry_points);
        let extra_reach: bool = self.entries_reach_levels(
            self.entry_points.extra_entry_points.iter(),
        );
        proof {
            let entries = self@.entries;
            assert(entries.main == self.entry_points.entry_points@);
            assert(entries.extra == self.entry_points.extra_entry_points@);
            assert(main_reach <==> forall|i: int|
                0 <= i < entries.main.len() ==> has_level(
                    links,
                    (#[trigger] entries.main[i]).point_id as int,
                    entries.main[i].level as int,
                ));
            assert(extra_reach <==> forall|i: int|
                0 <= i < entries.extra.len() ==> has_level(
                    links,
                    (#[trigger] entries.extra[i]).point_id as int,
                    entries.extra[i].level as int,
                ));
        }
        main_reach && extra_reach
    }

    /// Replaces the links of a point on a level.
    fn set_links(&mut self, point_id: PointOffsetType, level: usize, links: LinkContainer)
        requires
            has_level(old(self)@.links, point_id as int, level as int),
        ensures
            final(self)@ == (Graph {
                links: with_list(old(self)@.links, point_id as int, level as int, links@),
                ..old(self)@
            }),
    {
        self.links_layers[point_id as usize][level] = links;
        proof {
            let after = self@.links;
            let expected = with_list(old(self)@.links, point_id as int, level as int, links@);
            assert forall|p: int| 0 <= p < after.len() implies #[trigger] after[p]
                == expected[p] by {
                assert(after[p] =~= expected[p]);
            }
            assert(after =~= expected);
        }
    }

    /// Gives a point links up to a level.
    pub fn set_levels(&mut self, point_id: PointOffsetType, level: usize)
        requires
            point_id < old(self)@.links.len(),
            level < usize::MAX,
        ensures
            final(self)@ == old(self)@.with_levels(point_id, level as nat),
    {
        let p: usize = point_id as usize;
        let ghost before = self.links_layers@[p as int]@;
        while self.links_layers[p].len() <= level
            invariant
                p == point_id,
                p < self.links_layers@.len() == old(self).links_layers@.len(),
                level < usize::MAX,
                before == old(self).links_layers@[p as int]@,
                self.links_layers@ == old(self).links_layers@.update(
                    p as int,
                    self.links_layers@[p as int],
                ),
                self.max_level == old(self).max_level,
                self.m == old(self).m,
                self.m0 == old(self).m0,
                self.ef_construct == old(self).ef_construct,
                self.use_heuristic == old(self).use_heuristic,
                self.entry_points == old(self).entry_points,
                before.len() <= self.links_layers@[p as int]@.len(),
                before.len() < self.links_layers@[p as int]@.len()
                    ==> self.links_layers@[p as int]@.len() <= level + 1,
                forall|l: int|
                    0 <= l < before.len() ==> #[trigger] self.links_layers@[p as int]@[l]
                        == before[l],
                forall|l: int|
                    before.len() <= l < self.links_layers@[p as int]@.len() ==> (
                    #[trigger] self.links_layers@[p as int]@[l])@.len() == 0,
            decreases level + 1 - self.links_layers@[p as int]@.len(),
        {
            let links: LinkContainer = Vec::new();
            let ghost earlier = self.links_layers@;
            self.links_layers[p].push(links);
            assert(self.links_layers@ =~= earlier.update(p as int, self.links_layers@[p as int]));
        }
        if level > self.max_level {
            self.max_level = level;
        }
        proof {
            let after = self@.links;
            let expected = raised(old(self)@.links, point_id as int, level as nat);
            assert forall|q: int| 0 <= q < after.len() implies #[trigger] after[q]
                == expected[q] by {
                if q == point_id {
                    assert forall|l: int| 0 <= l < after[q].len() implies #[trigger] after[q][l]
                        == expected[q][l] by {
                        if l < before.len() {
                            assert(self.links_layers@[q]@[l] == before[l]);
                        } else {
                            assert(self.links_layers@[q]@[l]@.len() == 0);
                            assert(after[q][l] =~= Seq::empty());
                        }
                    }
                }
                assert(after[q] =~= expected[q]);
            }
            assert(after =~= expected);
        }
    }

    /// Connects a new point to the list of a target point, which stays ordered by
    /// the score against the target. If the list is full, the last point leaves for
    /// a closer one.
    pub fn connect_new_point<F>(
        &mut self,
        new_point_id: PointOffsetType,
        target_point_id: PointOffsetType,
        level: usize,
        score_internal: &PairScorer<F>,
    ) where F: Fn(PointOffsetType, PointOffsetType) -> ScoreType
        requires
            has_level(old(self)@.links, target_point_id as int, level as int),
            score_internal.can_score(target_point_id, new_point_id),
            forall|i: int|
                0 <= i < old(self)@.links[target_point_id as int][level as int].len()
                    ==> score_internal.can_score(
                    target_point_id,
                    #[trigger] old(self)@.links[target_point_id as int][level as int][i],
                ),
        ensures
            final(self)@ == (Graph {
                links: connect(
                    old(self)@.links,
                    level as int,
                    old(self)@.m_of(level as int),
                    target_point_id,
                    new_point_id,
                    score_internal@,
                ),
                ..old(self)@
            }),
    {
        let ghost pair = score_internal@;
        let ghost is_farther = farther_than(target_point_id, new_point_id, pair);
        let level_m: usize = self.get_m(level);
        let new_to_target: ScoreType = score_internal.score(target_point_id, new_point_id);
        let mut links: LinkContainer = self.links(target_point_id, level).clone();
        let ghost list = self@.links[target_point_id as int][level as int];
        assert(links@ =~= list);

        let mut id_to_insert: usize = 0;
        while id_to_insert < links.len()
            invariant
                0 <= id_to_insert <= links@.len(),
                links@ == list,
                pair == score_internal@,
                is_farther == farther_than(target_point_id, new_point_id, pair),
                new_to_target == pair(target_point_id, new_point_id),
                forall|i: int|
                    0 <= i < list.len() ==> score_internal.can_score(
                        target_point_id,
                        #[trigger] list[i],
                    ),
                forall|i: int| 0 <= i < id_to_insert ==> !is_farther(#[trigger] list[i]),
            ensures
                id_to_insert < list.len() ==> is_farther(list[id_to_insert as int]),
            decreases list.len() - id_to_insert,
        {
            let target_to_link: ScoreType = score_internal.score(
                target_point_id,
                links[id_to_insert],
            );
            if target_to_link < new_to_target {
                break;
            }
            id_to_insert = id_to_insert + 1;
        }
        proof {
            lemma_first_index_is(list, is_farther, id_to_insert as int);
        }

        if links.len() < level_m {
            links.insert(id_to_insert, new_point_id);
        } else if id_to_insert != links.len() {
            let _ = links.pop();
            assert(links@ =~= list.drop_last());
            links.insert(id_to_insert, new_point_id);
        }
        self.set_links(target_point_id, level, links);
    }

    /// Selects at most `m` of the candidates, in their order. A candidate is left
    /// out if it is closer to a selected point than to the base point, against which
    /// the candidates are scored.
    pub fn select_candidate_with_heuristic_from_sorted<F>(
        candidates: &Vec<ScoredPointOffset>,
        m: usize,
        score_internal: &PairScorer<F>,
    ) -> (result_list: Vec<PointOffsetType>) where
        F: Fn(PointOffsetType, PointOffsetType) -> ScoreType,

        requires
            forall|i: int, j: int|
                0 <= j < i < candidates@.len() ==> score_internal.can_score(
                    (#[trigger] candidates@[i]).idx,
                    (#[trigger] candidates@[j]).idx,
                ),
        ensures
            result_list@ == selected(candidates@, m as nat, score_internal@),
    {
        let ghost pair = score_internal@;
        let mut result_list: Vec<PointOffsetType> = Vec::new();
        let mut i: usize = 0;
        assert(candidates@.take(0) =~= Seq::empty());
        while i < candidates.len() && result_list.len() < m
            invariant
                0 <= i <= candidates@.len(),
                result_list@ == selected(candidates@.take(i as int), m as nat, pair),
                pair == score_internal@,
                forall|i: int, j: int|
                    0 <= j < i < candidates@.len() ==> score_internal.can_score(
                        (#[trigger] candidates@[i]).idx,
                        (#[trigger] candidates@[j]).idx,
                    ),
            decreases candidates@.len() - i,
        {
            let current_closest = candidates[i];
            let mut is_good: bool = true;
            let mut j: usize = 0;
            proof {
                assert(candidates@.take(i + 1).drop_last() =~= candidates@.take(i as int));
            }
            while j < result_list.len()
                invariant_except_break
                    is_good,
                invariant
                    0 <= j <= result_list@.len(),
                    0 <= i < candidates@.len(),
                    current_closest == candidates@[i as int],
                    result_list@ == selected(candidates@.take(i as int), m as nat, pair),
                    pair == score_internal@,
                    forall|i: int, j: int|
                        0 <= j < i < candidates@.len() ==> score_internal.can_score(
                            (#[trigger] candidates@[i]).idx,
                            (#[trigger] candidates@[j]).idx,
                        ),
                    forall|k: int|
                        0 <= k < j ==> pair(current_closest.idx, #[trigger] result_list@[k])
                            <= current_closest.score,
                ensures
                    is_good == good_candidate(result_list@, current_closest, pair),
                decreases result_list@.len() - j,
            {
                let selected_point: PointOffsetType = result_list[j];
                proof {
                    lemma_selected_from(candidates@.take(i as int), m as nat, pair, j as int);
                }
                let dist_to_already_selected: ScoreType = score_internal.score(
                    current_closest.idx,
                    selected_point,
                );
                if dist_to_already_selected > current_closest.score {
                    is_good = false;
                    break;
                }
                j = j + 1;
            }
            if is_good {
                result_list.push(current_closest.idx);
            }
            i = i + 1;
        }
        proof {
            lemma_selected_full(candidates@, i as int, m as nat, pair);
        }
        result_list
    }

    /// Selects at most `m` of the candidates, the closest first. See
    /// [`Self::select_candidate_with_heuristic_from_sorted`].
    pub fn select_candidates_with_heuristic<F>(
        candidates: FixedLengthPriorityQueue<ScoredPointOffset>,
        m: usize,
        score_internal: &PairScorer<F>,
    ) -> (result_list: Vec<PointOffsetType>) where
        F: Fn(PointOffsetType, PointOffsetType) -> ScoreType,

        requires
            forall|i: int, j: int|
                0 <= j < i < candidates@.len() ==> score_internal.can_score(
                    (#[trigger] candidates@[i]).idx,
                    (#[trigger] candidates@[j]).idx,
                ),
        ensures
            result_list@ == selected(candidates@, m as nat, score_internal@),
    {
        let closest: Vec<ScoredPointOffset> = candidates.into_vec();
        Self::select_candidate_with_heuristic_from_sorted(&closest, m, score_internal)
    }

    /// Follows links on one level until no candidate is left.
    pub fn _search_on_level<Q, P, C>(
        &self,
        searcher: &mut SearchContext,
        level: usize,
        visited_list: &mut VisitedList,
        points_scorer: &FilteredScorer<Q, P, C>,
    ) where
        Q: Fn(PointOffsetType) -> ScoreType,
        P: Fn(PointOffsetType, PointOffsetType) -> ScoreType,
        C: Fn(PointOffsetType) -> bool,

        requires
            links_wf(self@.links),
            points_scorer.covers_queries(self@.links.len()),
            old(visited_list).wf(),
            forall|i: int|
                0 <= i < old(searcher).candidates@.len() ==> has_level(
                    self@.links,
                    #[trigger] old(searcher).candidates@[i] as int,
                    level as int,
                ),
        ensures
            final(visited_list).wf(),
            final(searcher).nearest.length() == old(searcher).nearest.length(),
            final(searcher).candidates@.len() == 0,
            search_state(*final(searcher), *final(visited_list)) == self@.layer(
                self@.links,
                level as int,
                points_scorer@,
            ).search_end(
                old(searcher).nearest.length(),
                search_state(*old(searcher), *old(visited_list)),
            ),
    {
        let ghost layer = self@.layer(self@.links, level as int, points_scorer@);
        let ghost ef = searcher.nearest.length();
        let ghost start = search_state(*searcher, *visited_list);
        let ghost n = self@.links.len();
        let ghost mut left: nat = start.candidates.len() + n;
        proof {
            lemma_unvisited_bound(n, start.visited);
        }
        while searcher.candidates.len() > 0
            invariant
                layer == self@.layer(self@.links, level as int, points_scorer@),
                n == self@.links.len(),
                links_wf(self@.links),
                points_scorer.covers_queries(n),
                visited_list.wf(),
                searcher.nearest.length() == ef,
                forall|i: int|
                    0 <= i < searcher.candidates@.len() ==> layer.has_point(
                        #[trigger] searcher.candidates@[i],
                    ),
                searcher.candidates@.len() + unvisited(n, visited_list@) <= left,
                layer.expand_times(ef, search_state(*searcher, *visited_list), left)
                    == layer.search_end(ef, start),
            decreases left,
        {
            self.expand_candidate(searcher, level, visited_list, points_scorer);
            proof {
                left = (left - 1) as nat;
            }
        }
    }

    /// Follows the links of the last candidate: scores the points that the search
    /// has not come across before and that the filter admits.
    fn expand_candidate<Q, P, C>(
        &self,
        searcher: &mut SearchContext,
        level: usize,
        visited_list: &mut VisitedList,
        points_scorer: &FilteredScorer<Q, P, C>,
    ) where
        Q: Fn(PointOffsetType) -> ScoreType,
        P: Fn(PointOffsetType, PointOffsetType) -> ScoreType,
        C: Fn(PointOffsetType) -> bool,

        requires
            links_wf(self@.links),
            points_scorer.covers_queries(self@.links.len()),
            old(visited_list).wf(),
            old(searcher).candidates@.len() > 0,
            forall|i: int|
                0 <= i < old(searcher).candidates@.len() ==> has_level(
                    self@.links,
                    #[trigger] old(searcher).candidates@[i] as int,
                    level as int,
                ),
        ensures
            final(visited_list).wf(),
            final(searcher).nearest.length() == old(searcher).nearest.length(),
            search_state(*final(searcher), *final(visited_list)) == self@.layer(
                self@.links,
                level as int,
                points_scorer@,
            ).expand(
                old(searcher).nearest.length(),
                search_state(*old(searcher), *old(visited_list)),
            ),
            forall|i: int|
                0 <= i < final(searcher).candidates@.len() ==> has_level(
                    self@.links,
                    #[trigger] final(searcher).candidates@[i] as int,
                    level as int,
                ),
            final(searcher).candidates@.len() + unvisited(self@.links.len(), final(visited_list)@)
                < old(searcher).candidates@.len() + unvisited(
                self@.links.len(),
                old(visited_list)@,
            ),
    {
        let ghost layer = self@.layer(self@.links, level as int, points_scorer@);
        let ghost ef = searcher.nearest.length();
        let ghost n = self@.links.len();
        let ghost start = search_state(*searcher, *visited_list);
        let ghost admits = points_scorer@.admits;

        let num_points: usize = self.num_points();
        let last: usize = searcher.candidates.len() - 1;
        let index: PointOffsetType = searcher.candidates[last];
        let _ = searcher.candidates.pop();
        let limit: usize = self.get_m(level);
        let links = self.links(index, level);
        let mut count: usize = 0;
        let mut i: usize = 0;
        let ghost mut found: Seq<PointOffsetType> = Seq::empty();
        let ghost after_pop = start.candidates.drop_last();
        proof {
            layer.lemma_neighbours_on_level(index);
            assert(searcher.candidates@ =~= after_pop);
            assert(links@.take(0) =~= Seq::empty());
            assert(points_scorer@.scored(found) =~= Seq::empty());
            assert forall|k: int| 0 <= k < after_pop.len() implies layer.has_point(
                #[trigger] after_pop[k],
            ) by {
                assert(layer.has_point(start.candidates[k]));
            }
        }
        while i < links.len() && count < limit
            invariant
                0 <= i <= links@.len(),
                n == self@.links.len() == num_points,
                layer == self@.layer(self@.links, level as int, points_scorer@),
                admits == points_scorer@.admits,
                limit == layer.m,
                points_scorer.covers_queries(n),
                links@ == layer.neighbours(index),
                forall|k: int| 0 <= k < links@.len() ==> layer.has_point(#[trigger] links@[k]),
                visited_list.wf(),
                searcher.nearest.length() == ef,
                count == found.len(),
                (found, visited_list@) == scan(
                    links@.take(i as int),
                    limit as nat,
                    admits,
                    start.visited,
                ),
                search_state(*searcher, *visited_list) == (SearchState {
                    nearest: start.nearest,
                    candidates: after_pop,
                    visited: visited_list@,
                }).offer_all(ef, points_scorer@.scored(found)),
                forall|k: int|
                    0 <= k < searcher.candidates@.len() ==> layer.has_point(
                        #[trigger] searcher.candidates@[k],
                    ),
                searcher.candidates@.len() + unvisited(n, visited_list@) <= after_pop.len()
                    + unvisited(n, start.visited),
            decreases links@.len() - i,
        {
            let point: PointOffsetType = links[i];
            let ghost seen = visited_list@;
            proof {
                assert(links@.take(i + 1).drop_last() =~= links@.take(i as int));
                assert(layer.has_point(links@[i as int]));
            }
            if !visited_list.check_and_update_visited(point) {
                proof {
                    lemma_unvisited_insert(n, seen, point);
                    lemma_offer_all_visited(
                        SearchState {
                            nearest: start.nearest,
                            candidates: after_pop,
                            visited: seen,
                        },
                        ef,
                        points_scorer@.scored(found),
                        visited_list@,
                    );
                }
                if points_scorer.check_point(point) {
                    let score_point = ScoredPointOffset {
                        idx: point,
                        score: points_scorer.score_point(point),
                    };
                    searcher.process_candidate(score_point);
                    proof {
                        assert(points_scorer@.scored(found.push(point)).drop_last()
                            =~= points_scorer@.scored(found));
                        found = found.push(point);
                    }
                    count = count + 1;
                }
            } else {
                assert(visited_list@ =~= seen);
            }
            i = i + 1;
        }
        proof {
            let head = links@.take(i as int);
            let tail = links@.skip(i as int);
            assert(head + tail =~= links@);
            if i < links@.len() {
                lemma_scan_stops(head, tail, limit as nat, admits, start.visited);
            } else {
                assert(head =~= links@);
            }
        }
    }

    /// Search for the `ef` closest points on one level, which starts at a point of
    /// that level.
    pub fn search_on_level<Q, P, C>(
        &self,
        level_entry: ScoredPointOffset,
        level: usize,
        ef: usize,
        points_scorer: &FilteredScorer<Q, P, C>,
    ) -> (nearest: FixedLengthPriorityQueue<ScoredPointOffset>) where
        Q: Fn(PointOffsetType) -> ScoreType,
        P: Fn(PointOffsetType, PointOffsetType) -> ScoreType,
        C: Fn(PointOffsetType) -> bool,

        requires
            links_wf(self@.links),
            points_scorer.covers_queries(self@.links.len()),
            has_level(self@.links, level_entry.idx as int, level as int),
        ensures
            nearest@ == self@.layer(self@.links, level as int, points_scorer@).search(
                ef as nat,
                level_entry,
            ),
            nearest.length() == ef,
            nearest.wf(),
    {
        let num_points: usize = self.num_points();
        let mut visited_list = self.visited_pool.get(num_points);
        let _ = visited_list.check_and_update_visited(level_entry.idx);
        let mut search_context = SearchContext::new(level_entry, ef);
        proof {
            assert(search_state(search_context, visited_list) == search_start(
                level_entry,
                ef as nat,
            ));
        }

        self._search_on_level(&mut search_context, level, &mut visited_list, points_scorer);

        self.visited_pool.return_back(visited_list);
        proof {
            use_type_invariant(&search_context.nearest);
        }
        search_context.nearest
    }

    /// Greedy search for a single close point on the levels above `target_level`,
    /// from `top_level` down.
    pub fn search_entry<Q, P, C>(
        &self,
        entry_point: PointOffsetType,
        top_level: usize,
        target_level: usize,
        points_scorer: &FilteredScorer<Q, P, C>,
    ) -> (current_point: ScoredPointOffset) where
        Q: Fn(PointOffsetType) -> ScoreType,
        P: Fn(PointOffsetType, PointOffsetType) -> ScoreType,
        C: Fn(PointOffsetType) -> bool,

        requires
            links_wf(self@.links),
            points_scorer.covers_queries(self@.links.len()),
            entry_point < self@.links.len(),
            top_level > target_level ==> has_level(
                self@.links,
                entry_point as int,
                top_level as int,
            ),
        ensures
            current_point == self@.descend(
                ScoredPointOffset { idx: entry_point, score: (points_scorer@.query)(entry_point) },
                top_level as int,
                target_level as int,
                points_scorer@,
            ),
    {
        let mut current_point = ScoredPointOffset {
            idx: entry_point,
            score: points_scorer.score_point(entry_point),
        };
        let mut level: usize = top_level;
        let ghost end = self@.descend(
            current_point,
            top_level as int,
            target_level as int,
            points_scorer@,
        );
        while level > target_level
            invariant
                links_wf(self@.links),
                points_scorer.covers_queries(self@.links.len()),
                level > target_level ==> has_level(
                    self@.links,
                    current_point.idx as int,
                    level as int,
                ),
                end == self@.descend(
                    current_point,
                    level as int,
                    target_level as int,
                    points_scorer@,
                ),
            decreases level,
        {
            let ghost layer = self@.layer(self@.links, level as int, points_scorer@);
            let ghost top = layer.climb(current_point);
            let mut changed: bool = true;
            proof {
                layer.lemma_climb_on_level(current_point);
            }
            while changed
                invariant
                    links_wf(self@.links),
                    points_scorer.covers_queries(self@.links.len()),
                    layer == self@.layer(self@.links, level as int, points_scorer@),
                    layer.has_point(current_point.idx),
                    changed ==> layer.climb(current_point) == top,
                    !changed ==> current_point == top,
                decreases
                    ScoreType::MAX - current_point.score,
                    if changed {
                        1int
                    } else {
                        0
                    },
            {
                changed = false;
                let links = self.links(current_point.idx, level);
                proof {
                    layer.lemma_neighbours_on_level(current_point.idx);
                    layer.lemma_next_points_on_level(current_point.idx);
                    assert forall|i: int| 0 <= i < links@.len() implies
                        points_scorer.query_scorer.can_score(#[trigger] links@[i])
                        && points_scorer.filter.can_check(links@[i]) by {
                        assert(layer.has_point(layer.neighbours(current_point.idx)[i]));
                    }
                }
                let points: Vec<ScoredPointOffset> = points_scorer.score_iterable_points(
                    links,
                    self.get_m(level),
                );
                let ghost from = current_point;
                let mut i: usize = 0;
                assert(points@.take(0) =~= Seq::empty());
                while i < points.len()
                    invariant
                        0 <= i <= points@.len(),
                        current_point == best_of(from, points@.take(i as int)),
                        changed <==> current_point.score > from.score,
                        !changed ==> current_point == from,
                    decreases points@.len() - i,
                {
                    assert(points@.take(i + 1).drop_last() =~= points@.take(i as int));
                    if points[i].score > current_point.score {
                        changed = true;
                        current_point = points[i];
                    }
                    i = i + 1;
                }
                proof {
                    assert(points@.take(i as int) =~= points@);
                    lemma_best_of(from, points@);
                }
            }
            level = level - 1;
            proof {
                // A point on one level is on the level below it too.
                assert(has_level(self@.links, current_point.idx as int, level as int));
            }
        }
        current_point
    }

    /// Enters a point into the list of another point that it has chosen. A full list
    /// makes a new selection among its own points and the new one, and the selected
    /// points are written over the front of the list.
    fn adopt_point<F>(
        &mut self,
        point_id: PointOffsetType,
        other_point: PointOffsetType,
        level: usize,
        scorer: &PairScorer<F>,
    ) where F: Fn(PointOffsetType, PointOffsetType) -> ScoreType
        requires
            links_wf(old(self)@.links),
            has_level(old(self)@.links, other_point as int, level as int),
            point_id < old(self)@.links.len(),
            scorer.covers(old(self)@.links.len()),
        ensures
            final(self)@ == (Graph {
                links: with_list(
                    old(self)@.links,
                    other_point as int,
                    level as int,
                    adopted(
                        old(self)@.links[other_point as int][level as int],
                        old(self)@.m_of(level as int),
                        point_id,
                        other_point,
                        scorer@,
                    ),
                ),
                ..old(self)@
            }),
    {
        let ghost pair = scorer@;
        let ghost n = self@.links.len();
        let ghost list = self@.links[other_point as int][level as int];
        let level_m: usize = self.get_m(level);
        let mut other_point_links: LinkContainer = self.links(other_point, level).clone();
        proof {
            assert(other_point_links@ =~= list);
            lemma_list_on_level(self@.links, other_point as int, level as int);
            assert forall|i: int| 0 <= i < list.len() implies #[trigger] list[i] < n by {
                assert(has_level(self@.links, list[i] as int, level as int));
            }
        }
        if other_point_links.len() < level_m {
            // The other point lacks neighbours
            other_point_links.push(point_id);
        } else {
            let ghost points = seq![point_id] + list.take(level_m as int);
            let ghost items = scored_against(points, other_point, pair);
            let mut heap: Vec<ScoredPointOffset> = Vec::new();
            insert_ranked(
                &mut heap,
                ScoredPointOffset { idx: point_id, score: scorer.score(point_id, other_point) },
            );
            proof {
                reveal_with_fuel(ranked, 2);
                assert(items.take(1).drop_last() =~= Seq::empty());
                assert(items.take(1).last() == items[0]);
                assert(points[0] == point_id);
            }
            let mut i: usize = 0;
            while i < level_m
                invariant
                    i <= level_m <= list.len(),
                    other_point_links@ == list,
                    forall|k: int| 0 <= k < list.len() ==> #[trigger] list[k] < n,
                    other_point < n,
                    pair == scorer@,
                    scorer.covers(n),
                    points == seq![point_id] + list.take(level_m as int),
                    items == scored_against(points, other_point, pair),
                    heap@ == ranked(items.take(i + 1)),
                decreases level_m - i,
            {
                let other_point_link: PointOffsetType = other_point_links[i];
                assert(list[i as int] < n);
                insert_ranked(
                    &mut heap,
                    ScoredPointOffset {
                        idx: other_point_link,
                        score: scorer.score(other_point_link, other_point),
                    },
                );
                proof {
                    assert(points[i + 1] == list[i as int]);
                    assert(items.take(i + 2).drop_last() =~= items.take(i + 1));
                    assert(items.take(i + 2).last() == items[i + 1]);
                }
                i = i + 1;
            }
            proof {
                assert(items.take(i + 1) =~= items);
            }
            let candidates: Vec<ScoredPointOffset> = into_ascending(heap);
            proof {
                law_ranked_orders_the_same_items(items);
                assert forall|k: int| 0 <= k < candidates@.len() implies (
                #[trigger] candidates@[k]).idx < n by {
                    lemma_adoption_candidate(
                        list,
                        level_m as nat,
                        point_id,
                        other_point,
                        pair,
                        k,
                    );
                }
                lemma_selected_len(candidates@, level_m as nat, pair);
            }
            let selected_candidates: Vec<PointOffsetType> =
                Self::select_candidate_with_heuristic_from_sorted(&candidates, level_m, scorer);
            let mut idx: usize = 0;
            while idx < selected_candidates.len()
                invariant
                    idx <= selected_candidates@.len() <= list.len(),
                    other_point_links@ == selected_candidates@.take(idx as int) + list.skip(
                        idx as int,
                    ),
                decreases selected_candidates@.len() - idx,
            {
                other_point_links[idx] = selected_candidates[idx];
                idx = idx + 1;
                assert(other_point_links@ =~= selected_candidates@.take(idx as int) + list.skip(
                    idx as int,
                ));
            }
            assert(selected_candidates@.take(idx as int) =~= selected_candidates@);
        }
        self.set_links(other_point, level, other_point_links);
    }

    /// Links a point on a level with points that are selected among those nearest
    /// to it.
    fn link_selected<F>(
        &mut self,
        point_id: PointOffsetType,
        level: usize,
        nearest_points: FixedLengthPriorityQueue<ScoredPointOffset>,
        scorer: &PairScorer<F>,
    ) where F: Fn(PointOffsetType, PointOffsetType) -> ScoreType
        requires
            old(self)@.use_heuristic,
            links_wf(old(self)@.links),
            has_level(old(self)@.links, point_id as int, level as int),
            forall|i: int|
                0 <= i < nearest_points@.len() ==> has_level(
                    old(self)@.links,
                    (#[trigger] nearest_points@[i]).idx as int,
                    level as int,
                ),
            scorer.covers(old(self)@.links.len()),
        ensures
            final(self)@ == (Graph {
                links: old(self)@.linked_on(
                    old(self)@.links,
                    level as int,
                    point_id,
                    nearest_points@,
                    scorer@,
                ),
                ..old(self)@
            }),
    {
        let ghost pair = scorer@;
        let ghost before = self@.links;
        let ghost n = before.len();
        let level_m: usize = self.get_m(level);
        proof {
            assert forall|i: int, j: int|
                0 <= j < i < nearest_points@.len() implies
                scorer.can_score(
                (#[trigger] nearest_points@[i]).idx,
                (#[trigger] nearest_points@[j]).idx,
            ) by {
                assert(has_level(before, nearest_points@[i].idx as int, level as int));
                assert(has_level(before, nearest_points@[j].idx as int, level as int));
            }
            lemma_selected_on_level(
                before,
                level as int,
                nearest_points@,
                level_m as nat,
                pair,
            );
        }
        let selected_nearest: Vec<PointOffsetType> = Self::select_candidates_with_heuristic(
            nearest_points,
            level_m,
            scorer,
        );
        let own: LinkContainer = selected_nearest.clone();
        let ghost chosen = selected_nearest@;
        proof {
            assert(own@ =~= chosen);
            lemma_with_list(before, point_id as int, level as int, chosen);
        }
        self.set_links(point_id, level, own);
        let ghost start = self@;
        let mut i: usize = 0;
        assert(chosen.take(0) =~= Seq::empty());
        while i < selected_nearest.len()
            invariant
                0 <= i <= chosen.len(),
                selected_nearest@ == chosen,
                pair == scorer@,
                level_m == start.m_of(level as int),
                n == start.links.len(),
                scorer.covers(n),
                links_wf(start.links),
                has_level(start.links, point_id as int, level as int),
                forall|k: int|
                    0 <= k < chosen.len() ==> has_level(
                        start.links,
                        #[trigger] chosen[k] as int,
                        level as int,
                    ),
                self@ == (Graph {
                    links: adopt_all(
                        start.links,
                        level as int,
                        level_m as nat,
                        point_id,
                        chosen.take(i as int),
                        pair,
                    ),
                    ..start
                }),
            decreases chosen.len() - i,
        {
            let other_point: PointOffsetType = selected_nearest[i];
            proof {
                let head = chosen.take(i as int);
                assert forall|k: int| 0 <= k < head.len() implies has_level(
                    start.links,
                    #[trigger] head[k] as int,
                    level as int,
                ) by {
                    assert(head[k] == chosen[k]);
                }
                lemma_adopt_all(
                    start.links,
                    level as int,
                    level_m as nat,
                    point_id,
                    head,
                    pair,
                );
                assert(has_level(start.links, chosen[i as int] as int, level as int));
                assert(self@.links[other_point as int].len()
                    == start.links[other_point as int].len());
                assert(chosen.take(i + 1).drop_last() =~= head);
            }
            self.adopt_point(point_id, other_point, level, scorer);
            i = i + 1;
        }
        assert(chosen.take(i as int) =~= chosen);
    }

    /// Connects a point on a level with all those nearest to it, in both directions.
    /// Returns the best of them and `level_entry`.
    fn link_nearest<F>(
        &mut self,
        point_id: PointOffsetType,
        level: usize,
        nearest_points: FixedLengthPriorityQueue<ScoredPointOffset>,
        level_entry: ScoredPointOffset,
        scorer: &PairScorer<F>,
    ) -> (best: ScoredPointOffset) where F: Fn(PointOffsetType, PointOffsetType) -> ScoreType
        requires
            !old(self)@.use_heuristic,
            links_wf(old(self)@.links),
            has_level(old(self)@.links, point_id as int, level as int),
            forall|i: int|
                0 <= i < nearest_points@.len() ==> has_level(
                    old(self)@.links,
                    (#[trigger] nearest_points@[i]).idx as int,
                    level as int,
                ),
            scorer.covers(old(self)@.links.len()),
        ensures
            final(self)@ == (Graph {
                links: old(self)@.linked_on(
                    old(self)@.links,
                    level as int,
                    point_id,
                    nearest_points@,
                    scorer@,
                ),
                ..old(self)@
            }),
            best == best_of(level_entry, nearest_points@),
    {
        let ghost pair = scorer@;
        let ghost start = self@;
        let ghost m = self@.m_of(level as int);
        let ghost n = start.links.len();
        let ghost nearest = nearest_points@;
        let points: &Vec<ScoredPointOffset> = nearest_points.iter();
        let mut best = level_entry;
        let mut i: usize = 0;
        assert(nearest.take(0) =~= Seq::empty());
        while i < points.len()
            invariant
                0 <= i <= nearest.len(),
                points@ == nearest,
                pair == scorer@,
                m == start.m_of(level as int),
                n == start.links.len(),
                scorer.covers(n),
                links_wf(start.links),
                has_level(start.links, point_id as int, level as int),
                forall|k: int|
                    0 <= k < nearest.len() ==> has_level(
                        start.links,
                        (#[trigger] nearest[k]).idx as int,
                        level as int,
                    ),
                self@ == (Graph {
                    links: connect_nearest(
                        start.links,
                        level as int,
                        m,
                        point_id,
                        nearest.take(i as int),
                        pair,
                    ),
                    ..start
                }),
                best == best_of(level_entry, nearest.take(i as int)),
            decreases nearest.len() - i,
        {
            let nearest_point = points[i];
            let other: PointOffsetType = nearest_point.idx;
            let ghost before = self@.links;
            proof {
                let head = nearest.take(i as int);
                assert forall|k: int| 0 <= k < head.len() implies has_level(
                    start.links,
                    (#[trigger] head[k]).idx as int,
                    level as int,
                ) by {
                    assert(head[k] == nearest[k]);
                }
                lemma_connect_nearest(start.links, level as int, m, point_id, head, pair);
                assert(has_level(start.links, nearest[i as int].idx as int, level as int));
                assert(before[point_id as int].len() == start.links[point_id as int].len());
                assert(before[other as int].len() == start.links[other as int].len());
                lemma_connect(before, level as int, m, point_id, other, pair);
                lemma_list_on_level(before, point_id as int, level as int);
                assert(nearest.take(i + 1).drop_last() =~= head);
            }
            self.connect_new_point(other, point_id, level, scorer);
            proof {
                lemma_list_on_level(self@.links, other as int, level as int);
            }
            self.connect_new_point(point_id, other, level, scorer);
            if nearest_point.score > best.score {
                best = nearest_point;
            }
            i = i + 1;
        }
        assert(nearest.take(i as int) =~= nearest);
        best
    }

    /// Links a new point into the graph, on its levels up to `level`. The search for
    /// its neighbours starts at an entry point that the filter admits; if there is
    /// none, the point becomes an entry point, and has no links yet.
    pub fn link_new_point<Q, P, C>(
        &mut self,
        point_id: PointOffsetType,
        level: usize,
        points_scorer: &FilteredScorer<Q, P, C>,
    ) where
        Q: Fn(PointOffsetType) -> ScoreType,
        P: Fn(PointOffsetType, PointOffsetType) -> ScoreType,
        C: Fn(PointOffsetType) -> bool,

        requires
            old(self)@.wf(),
            point_id < old(self)@.links.len(),
            level < usize::MAX,
            points_scorer.covers(old(self)@.links.len()),
        ensures
            final(self)@ == old(self)@.with_point(point_id, level, points_scorer@),
            final(self)@.wf(),
    {
        let ghost before = self@;
        let ghost scoring = points_scorer@;
        let ghost n = self@.links.len();
        proof {
            before.lemma_with_point_wf(point_id, level, scoring);
            lemma_raised(before.links, point_id as int, level as nat);
            before.entries.lemma_first_main(scoring.admits);
            assert forall|i: int| 0 <= i < before.entries.main.len() implies
                points_scorer.filter.can_check(
                (#[trigger] before.entries.main[i]).point_id,
            ) by {
                assert(has_level(
                    before.links,
                    before.entries.main[i].point_id as int,
                    before.entries.main[i].level as int,
                ));
            }
        }
        self.set_levels(point_id, level);

        let entry_point_opt: Option<EntryPoint> = self.entry_points.new_point(
            point_id,
            level,
            &points_scorer.filter,
        );
        let ghost graph = self@;
        match entry_point_opt {
            // The point is the first entry point for this filter: nothing to link with
            None => {},
            Some(entry_point) => {
                proof {
                    graph.lemma_level_entry(point_id, level as nat, entry_point, scoring);
                }
                let mut level_entry: ScoredPointOffset = if entry_point.level > level {
                    // The entry point is higher than the new point: find a close point
                    // on the level of the new one
                    self.search_entry(
                        entry_point.point_id,
                        entry_point.level,
                        level,
                        points_scorer,
                    )
                } else {
                    ScoredPointOffset {
                        idx: entry_point.point_id,
                        score: points_scorer.score_internal(point_id, entry_point.point_id),
                    }
                };
                // The highest level that both reach
                let linking_level: usize = if level < entry_point.level {
                    level
                } else {
                    entry_point.level
                };
                let ghost end = graph.linked_down(
                    graph.links,
                    linking_level as int,
                    point_id,
                    level_entry,
                    scoring,
                );
                let mut levels: usize = linking_level + 1;
                while levels > 0
                    invariant
                        levels <= linking_level + 1,
                        linking_level <= level < usize::MAX,
                        scoring == points_scorer@,
                        points_scorer.covers(n),
                        n == self@.links.len(),
                        self@ == (Graph { links: self@.links, ..graph }),
                        links_wf(self@.links),
                        has_level(self@.links, point_id as int, level as int),
                        levels > 0 ==> has_level(
                            self@.links,
                            level_entry.idx as int,
                            levels as int - 1,
                        ),
                        end == graph.linked_down(
                            self@.links,
                            levels as int - 1,
                            point_id,
                            level_entry,
                            scoring,
                        ),
                    decreases levels,
                {
                    levels = levels - 1;
                    let curr_level: usize = levels;
                    let ef: usize = self.ef_construct;
                    let nearest_points = self.search_on_level(
                        level_entry,
                        curr_level,
                        ef,
                        points_scorer,
                    );
                    let ghost links = self@.links;
                    let ghost nearest = nearest_points@;
                    proof {
                        let layer = graph.layer(links, curr_level as int, scoring);
                        layer.lemma_search_on_level(ef as nat, level_entry);
                        graph.lemma_linked_on(
                            links,
                            curr_level as int,
                            point_id,
                            nearest,
                            scoring.pair,
                        );
                        lemma_best_of(level_entry, nearest);
                    }
                    if self.use_heuristic {
                        self.link_selected(
                            point_id,
                            curr_level,
                            nearest_points,
                            &points_scorer.pair_scorer,
                        );
                    } else {
                        level_entry = self.link_nearest(
                            point_id,
                            curr_level,
                            nearest_points,
                            level_entry,
                            &points_scorer.pair_scorer,
                        );
                    }
                    proof {
                        assert(self@.links[point_id as int].len() == links[point_id as int].len());
                        assert(has_level(links, level_entry.idx as int, curr_level as int));
                        assert(self@.links[level_entry.idx as int].len()
                            == links[level_entry.idx as int].len());
                    }
                }
            },
        }
    }
}

} // verus!
