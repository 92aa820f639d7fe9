//! Scoring of points under a filter.
//!
//! A score comes from a function that the caller hands in. Contracts speak of the
//! mathematical function that it computes, its model. The constructors `new` take as
//! the model whatever the function computes; `with_model` takes one that the caller
//! knows.

use crate::types::{PointOffsetType, ScoreType, ScoredPointOffset};
use vstd::prelude::*;

verus! {

/// Model of a score of one point.
pub type PointScore = spec_fn(PointOffsetType) -> ScoreType;

/// Model of a score of two points against each other.
pub type PairScore = spec_fn(PointOffsetType, PointOffsetType) -> ScoreType;

/// Model of a condition on points.
pub type PointCheck = spec_fn(PointOffsetType) -> bool;

// Scores of points

/// Whether `f` returns nothing but what the model gives.
pub open spec fn computes_point_score<F: Fn(PointOffsetType) -> ScoreType>(
    f: F,
    model: PointScore,
) -> bool {
    forall|p: PointOffsetType, r: ScoreType| #[trigger] call_ensures(f, (p,), r) ==> r == model(p)
}

/// Whether `f` scores a point the same way each time.
pub open spec fn scores_points_alike<F: Fn(PointOffsetType) -> ScoreType>(f: F) -> bool {
    forall|p: PointOffsetType, r1: ScoreType, r2: ScoreType|
        #![trigger call_ensures(f, (p,), r1), call_ensures(f, (p,), r2)]
        call_ensures(f, (p,), r1) && call_ensures(f, (p,), r2) ==> r1 == r2
}

/// The score that `f` can return for each point.
pub open spec fn point_score<F: Fn(PointOffsetType) -> ScoreType>(f: F) -> PointScore {
    |p: PointOffsetType| choose|r: ScoreType| call_ensures(f, (p,), r)
}

/// A function that scores points, with its model.
pub struct PointScorer<F: Fn(PointOffsetType) -> ScoreType> {
    f: F,
    model: Ghost<PointScore>,
}

impl<F: Fn(PointOffsetType) -> ScoreType> PointScorer<F> {
    /// The model.
    pub closed spec fn view(&self) -> PointScore {
        self.model@
    }

    /// Whether the function can be called for the point.
    pub closed spec fn can_score(&self, point: PointOffsetType) -> bool {
        call_requires(self.f, (point,))
    }

    #[verifier::type_invariant]
    spec fn inv(&self) -> bool {
        computes_point_score(self.f, self.model@)
    }

    /// Scorer for a function that scores a point the same way each time.
    pub fn new(f: F) -> (r: Self)
        requires
            scores_points_alike(f),
        ensures
            r@ == point_score(f),
            forall|p: PointOffsetType| #[trigger] r.can_score(p) == call_requires(f, (p,)),
    {
        PointScorer { f, model: Ghost(point_score(f)) }
    }

    /// Scorer for a function with a known model.
    pub fn with_model(f: F, Ghost(model): Ghost<PointScore>) -> (r: Self)
        requires
            computes_point_score(f, model),
        ensures
            r@ == model,
            forall|p: PointOffsetType| #[trigger] r.can_score(p) == call_requires(f, (p,)),
    {
        PointScorer { f, model: Ghost(model) }
    }

    /// Score of a point.
    pub fn score(&self, point: PointOffsetType) -> (r: ScoreType)
        requires
            self.can_score(point),
        ensures
            r == (self@)(point),
    {
        proof {
            use_type_invariant(self);
        }
        (self.f)(point)
    }
}

// Scores of pairs of points

/// Whether `f` returns nothing but what the model gives.
pub open spec fn computes_pair_score<F: Fn(PointOffsetType, PointOffsetType) -> ScoreType>(
    f: F,
    model: PairScore,
) -> bool {
    forall|a: PointOffsetType, b: PointOffsetType, r: ScoreType| #[trigger]
        call_ensures(f, (a, b), r) ==> r == model(a, b)
}

/// Whether `f` scores two points the same way each time.
pub open spec fn scores_pairs_alike<F: Fn(PointOffsetType, PointOffsetType) -> ScoreType>(
    f: F,
) -> bool {
    forall|a: PointOffsetType, b: PointOffsetType, r1: ScoreType, r2: ScoreType|
        #![trigger call_ensures(f, (a, b), r1), call_ensures(f, (a, b), r2)]
        call_ensures(f, (a, b), r1) && call_ensures(f, (a, b), r2) ==> r1 == r2
}

/// The score that `f` can return for each two points.
pub open spec fn pair_score<F: Fn(PointOffsetType, PointOffsetType) -> ScoreType>(
    f: F,
) -> PairScore {
    |a: PointOffsetType, b: PointOffsetType| choose|r: ScoreType| call_ensures(f, (a, b), r)
}

/// A function that scores two points against each other, with its model.
pub struct PairScorer<F: Fn(PointOffsetType, PointOffsetType) -> ScoreType> {
    f: F,
    model: Ghost<PairScore>,
}

impl<F: Fn(PointOffsetType, PointOffsetType) -> ScoreType> PairScorer<F> {
    /// The model.
    pub closed spec fn view(&self) -> PairScore {
        self.model@
    }

    /// Whether the function can be called for the two points.
    pub closed spec fn can_score(
        &self,
        point_a: PointOffsetType,
        point_b: PointOffsetType,
    ) -> bool {
        call_requires(self.f, (point_a, point_b))
    }

    /// Whether the function can be called for any two of the first `n` points.
    pub open spec fn covers(&self, n: nat) -> bool {
        forall|a: PointOffsetType, b: PointOffsetType|
            a < n && b < n ==> #[trigger] self.can_score(a, b)
    }

    #[verifier::type_invariant]
    spec fn inv(&self) -> bool {
        computes_pair_score(self.f, self.model@)
    }

    /// Scorer for a function that scores two points the same way each time.
    pub fn new(f: F) -> (r: Self)
        requires
            scores_pairs_alike(f),
        ensures
            r@ == pair_score(f),
            forall|a: PointOffsetType, b: PointOffsetType| #[trigger]
                r.can_score(a, b) == call_requires(f, (a, b)),
    {
        PairScorer { f, model: Ghost(pair_score(f)) }
    }

    /// Scorer for a function with a known model.
    pub fn with_model(f: F, Ghost(model): Ghost<PairScore>) -> (r: Self)
        requires
            computes_pair_score(f, model),
        ensures
            r@ == model,
            forall|a: PointOffsetType, b: PointOffsetType| #[trigger]
                r.can_score(a, b) == call_requires(f, (a, b)),
    {
        PairScorer { f, model: Ghost(model) }
    }

    /// Score of two points against each other.
    pub fn score(&self, point_a: PointOffsetType, point_b: PointOffsetType) -> (r: ScoreType)
        requires
            self.can_score(point_a, point_b),
        ensures
            r == (self@)(point_a, point_b),
    {
        proof {
            use_type_invariant(self);
        }
        (self.f)(point_a, point_b)
    }
}

// Conditions on points

/// Whether `f` returns nothing but what the model gives.
pub open spec fn computes_point_check<F: Fn(PointOffsetType) -> bool>(
    f: F,
    model: PointCheck,
) -> bool {
    forall|p: PointOffsetType, r: bool| #[trigger] call_ensures(f, (p,), r) ==> r == model(p)
}

/// Whether `f` answers the same way for a point each time.
pub open spec fn checks_points_alike<F: Fn(PointOffsetType) -> bool>(f: F) -> bool {
    forall|p: PointOffsetType, r1: bool, r2: bool|
        #![trigger call_ensures(f, (p,), r1), call_ensures(f, (p,), r2)]
        call_ensures(f, (p,), r1) && call_ensures(f, (p,), r2) ==> r1 == r2
}

/// The answer that `f` can give for each point.
pub open spec fn point_check<F: Fn(PointOffsetType) -> bool>(f: F) -> PointCheck {
    |p: PointOffsetType| choose|r: bool| call_ensures(f, (p,), r)
}

/// A function that tests a condition on points, with its model.
pub struct PointFilter<F: Fn(PointOffsetType) -> bool> {
    f: F,
    model: Ghost<PointCheck>,
}

impl<F: Fn(PointOffsetType) -> bool> PointFilter<F> {
    /// The model.
    pub closed spec fn view(&self) -> PointCheck {
        self.model@
    }

    /// Whether the function can be called for the point.
    pub closed spec fn can_check(&self, point: PointOffsetType) -> bool {
        call_requires(self.f, (point,))
    }

    #[verifier::type_invariant]
    spec fn inv(&self) -> bool {
        computes_point_check(self.f, self.model@)
    }

    /// Filter for a function that answers the same way for a point each time.
    pub fn new(f: F) -> (r: Self)
        requires
            checks_points_alike(f),
        ensures
            r@ == point_check(f),
            forall|p: PointOffsetType| #[trigger] r.can_check(p) == call_requires(f, (p,)),
    {
        PointFilter { f, model: Ghost(point_check(f)) }
    }

    /// Filter for a function with a known model.
    pub fn with_model(f: F, Ghost(model): Ghost<PointCheck>) -> (r: Self)
        requires
            computes_point_check(f, model),
        ensures
            r@ == model,
            forall|p: PointOffsetType| #[trigger] r.can_check(p) == call_requires(f, (p,)),
    {
        PointFilter { f, model: Ghost(model) }
    }

    /// Whether a point meets the condition.
    pub fn check(&self, point: PointOffsetType) -> (r: bool)
        requires
            self.can_check(point),
        ensures
            r == (self@)(point),
    {
        proof {
            use_type_invariant(self);
        }
        (self.f)(point)
    }
}

// All of them together

/// Model of a [`FilteredScorer`].
pub struct Scoring {
    /// Score of a point against the query.
    pub query: PointScore,
    /// Score of two points against each other.
    pub pair: PairScore,
    /// Whether the filter admits a point.
    pub admits: PointCheck,
}

impl Scoring {
    /// The points with their scores against the query.
    pub open spec fn scored(self, points: Seq<PointOffsetType>) -> Seq<ScoredPointOffset> {
        points.map_values(
            |p: PointOffsetType| ScoredPointOffset { idx: p, score: (self.query)(p) },
        )
    }

    /// The first `limit` of the points that the filter admits.
    pub open spec fn admitted(self, points: Seq<PointOffsetType>, limit: nat) -> Seq<
        PointOffsetType,
    > {
        let all = points.filter(self.admits);
        if all.len() <= limit {
            all
        } else {
            all.take(limit as int)
        }
    }
}

/// Scores points against a query and against each other, and filters them.
pub struct FilteredScorer<Q, P, C> where
    Q: Fn(PointOffsetType) -> ScoreType,
    P: Fn(PointOffsetType, PointOffsetType) -> ScoreType,
    C: Fn(PointOffsetType) -> bool,
 {
    /// Score of a point against the query.
    pub query_scorer: PointScorer<Q>,
    /// Score of two points against each other.
    pub pair_scorer: PairScorer<P>,
    /// Whether the filter admits a point.
    pub filter: PointFilter<C>,
}

impl<Q, P, C> FilteredScorer<Q, P, C> where
    Q: Fn(PointOffsetType) -> ScoreType,
    P: Fn(PointOffsetType, PointOffsetType) -> ScoreType,
    C: Fn(PointOffsetType) -> bool,
 {
    /// The model.
    pub open spec fn view(&self) -> Scoring {
        Scoring {
            query: self.query_scorer@,
            pair: self.pair_scorer@,
            admits: self.filter@,
        }
    }

    /// Whether each of the first `n` points can be scored against the query and tested
    /// by the filter.
    pub open spec fn covers_queries(&self, n: nat) -> bool {
        &&& forall|p: PointOffsetType| p < n ==> #[trigger] self.query_scorer.can_score(p)
        &&& forall|p: PointOffsetType| p < n ==> #[trigger] self.filter.can_check(p)
    }

    /// Whether all functions can be called for the first `n` points.
    pub open spec fn covers(&self, n: nat) -> bool {
        &&& self.pair_scorer.covers(n)
        &&& self.covers_queries(n)
    }

    /// Whether the filter admits the point.
    pub fn check_point(&self, point_id: PointOffsetType) -> (r: bool)
        requires
            self.filter.can_check(point_id),
        ensures
            r == (self@.admits)(point_id),
    {
        self.filter.check(point_id)
    }

    /// Score of the point against the query.
    pub fn score_point(&self, point_id: PointOffsetType) -> (r: ScoreType)
        requires
            self.query_scorer.can_score(point_id),
        ensures
            r == (self@.query)(point_id),
    {
        self.query_scorer.score(point_id)
    }

    /// Score of the two points against each other.
    pub fn score_internal(
        &self,
        point_a: PointOffsetType,
        point_b: PointOffsetType,
    ) -> (r: ScoreType)
        requires
            self.pair_scorer.can_score(point_a, point_b),
        ensures
            r == (self@.pair)(point_a, point_b),
    {
        self.pair_scorer.score(point_a, point_b)
    }

    /// Scores the first `limit` of the points that the filter admits.
    pub fn score_iterable_points(&self, points: &Vec<PointOffsetType>, limit: usize) -> (r: Vec<
        ScoredPointOffset,
    >)
        requires
            forall|i: int|
                0 <= i < points@.len() ==> self.query_scorer.can_score(#[trigger] points@[i])
                    && self.filter.can_check(points@[i]),
        ensures
            r@ == self@.scored(self@.admitted(points@, limit as nat)),
    {
        let mut r: Vec<ScoredPointOffset> = Vec::new();
        let mut i: usize = 0;
        let ghost admits = self@.admits;
        proof {
            reveal(Seq::filter);
            assert(points@.take(0) =~= Seq::empty());
        }
        while i < points.len() && r.len() < limit
            invariant
                0 <= i <= points@.len(),
                admits == self@.admits,
                r@ == self@.scored(points@.take(i as int).filter(admits)),
                r@.len() <= limit,
                forall|i: int|
                    0 <= i < points@.len() ==> self.query_scorer.can_score(#[trigger] points@[i])
                        && self.filter.can_check(points@[i]),
            decreases points@.len() - i,
        {
            let point: PointOffsetType = points[i];
            proof {
                reveal(Seq::filter);
                assert(points@.take(i + 1).drop_last() =~= points@.take(i as int));
            }
            if self.check_point(point) {
                r.push(ScoredPointOffset { idx: point, score: self.score_point(point) });
            }
            i = i + 1;
            assert(r@ =~= self@.scored(points@.take(i as int).filter(admits)));
        }
        proof {
            let head = points@.take(i as int);
            let tail = points@.skip(i as int);
            assert(head + tail =~= points@);
            Seq::filter_distributes_over_add(head, tail, admits);
            if i == points@.len() {
                assert(tail =~= Seq::empty());
                reveal(Seq::filter);
            }
            assert(self@.admitted(points@, limit as nat) =~= head.filter(admits));
        }
        r
    }
}

} // verus!
