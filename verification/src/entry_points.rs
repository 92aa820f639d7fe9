//! Points at which a search enters the graph.

use crate::priority_queue::{offered, FixedLengthPriorityQueue};
use crate::ranking::{first_index, lemma_first_index, lemma_first_index_is, Prioritized};
use crate::scorer::{PointCheck, PointFilter};
use crate::search_lemmas::lemma_offered_contains;
use crate::types::PointOffsetType;
use vstd::prelude::*;

verus! {

/// A point with the highest level on which it has links.
#[derive(Clone, Copy, Debug, PartialEq, Eq, Structural)]
pub struct EntryPoint {
    pub point_id: PointOffsetType,
    pub level: usize,
}

impl Prioritized for EntryPoint {
    open spec fn priority(self) -> int {
        self.level as int
    }

    fn outranks(&self, other: &Self) -> (r: bool) {
        self.level > other.level
    }
}

/// Model of [`EntryPoints`].
pub struct Entries {
    pub main: Seq<EntryPoint>,
    pub extra: Seq<EntryPoint>,
    pub extra_length: nat,
}

/// The condition that an entry point's point meets `check`.
pub open spec fn entry_check(check: PointCheck) -> spec_fn(EntryPoint) -> bool {
    |e: EntryPoint| check(e.point_id)
}

impl Entries {
    /// The first of the entry points that meets `check`.
    pub open spec fn first_main(self, check: PointCheck) -> Option<EntryPoint> {
        let at = first_index(self.main, entry_check(check));
        if at < self.main.len() {
            Some(self.main[at])
        } else {
            None
        }
    }

    /// The first of the entry points that meets `check`; if none does, the highest
    /// of the extra ones that meets it.
    pub open spec fn lookup(self, check: PointCheck) -> Option<EntryPoint> {
        let at = first_index(self.extra, entry_check(check));
        if self.first_main(check) is Some {
            self.first_main(check)
        } else if at < self.extra.len() {
            Some(self.extra[at])
        } else {
            None
        }
    }

    /// The entry points after `point` was added. If one that meets `check` is at
    /// least as high, the point becomes an extra one. If it is lower, the point
    /// takes its place, and it becomes an extra one. If there is none, the point
    /// becomes one.
    pub open spec fn with_point(
        self,
        point: EntryPoint,
        check: PointCheck,
    ) -> Entries {
        let at = first_index(self.main, entry_check(check));
        if at >= self.main.len() {
            Entries { main: self.main.push(point), ..self }
        } else if self.main[at].level >= point.level {
            Entries { extra: offered(self.extra, self.extra_length, point), ..self }
        } else {
            Entries {
                main: self.main.update(at, point),
                extra: offered(self.extra, self.extra_length, self.main[at]),
                ..self
            }
        }
    }
}

impl Entries {
    /// The first entry point that meets `check` is an entry point, and meets it.
    pub proof fn lemma_first_main(self, check: PointCheck)
        ensures
            self.first_main(check) matches Some(e) ==> self.main.contains(e) && check(e.point_id),
            self.first_main(check) is None ==> forall|i: int|
                0 <= i < self.main.len() ==> !check((#[trigger] self.main[i]).point_id),
    {
        let p = entry_check(check);
        lemma_first_index(self.main, p);
        if self.first_main(check) is None {
            assert forall|i: int| 0 <= i < self.main.len() implies !check(
                (#[trigger] self.main[i]).point_id,
            ) by {
                assert(!p(self.main[i]));
            }
        }
    }

    /// Adding a point brings in that point alone.
    pub proof fn lemma_with_point_from(
        self,
        point: EntryPoint,
        check: PointCheck,
    )
        ensures
            forall|i: int|
                #![trigger self.with_point(point, check).main[i]]
                0 <= i < self.with_point(point, check).main.len() ==> self.with_point(
                    point,
                    check,
                ).main[i] == point || self.main.contains(self.with_point(point, check).main[i]),
            forall|i: int|
                #![trigger self.with_point(point, check).extra[i]]
                0 <= i < self.with_point(point, check).extra.len() ==> self.with_point(
                    point,
                    check,
                ).extra[i] == point || self.main.contains(self.with_point(point, check).extra[i])
                    || self.extra.contains(self.with_point(point, check).extra[i]),
    {
        let at = first_index(self.main, entry_check(check));
        lemma_first_index(self.main, entry_check(check));
        let after = self.with_point(point, check);
        assert forall|i: int| 0 <= i < after.main.len() implies after.main[i] == point
            || self.main.contains(#[trigger] after.main[i]) by {
            if after.main[i] != point {
                assert(after.main[i] == self.main[i]);
            }
        }
        assert forall|i: int| 0 <= i < after.extra.len() implies after.extra[i] == point
            || self.main.contains(#[trigger] after.extra[i]) || self.extra.contains(
            after.extra[i],
        ) by {
            if at >= self.main.len() {
                assert(after.extra[i] == self.extra[i]);
            } else if self.main[at].level >= point.level {
                lemma_offered_contains(self.extra, self.extra_length, point, i);
            } else {
                lemma_offered_contains(self.extra, self.extra_length, self.main[at], i);
            }
        }
    }
}

/// Entry points, and a bounded number of extra ones to fall back on when a filter
/// rules the others out.
#[derive(Debug)]
pub struct EntryPoints {
    pub entry_points: Vec<EntryPoint>,
    pub extra_entry_points: FixedLengthPriorityQueue<EntryPoint>,
}

impl View for EntryPoints {
    type V = Entries;

    open spec fn view(&self) -> Entries {
        Entries {
            main: self.entry_points@,
            extra: self.extra_entry_points@,
            extra_length: self.extra_entry_points.length(),
        }
    }
}

/// Index of the first entry point whose point meets the condition.
fn position<F: Fn(PointOffsetType) -> bool>(
    entries: &Vec<EntryPoint>,
    checker: &PointFilter<F>,
) -> (at: usize)
    requires
        forall|i: int|
            0 <= i < entries@.len() ==> checker.can_check((#[trigger] entries@[i]).point_id),
    ensures
        at == first_index(entries@, entry_check(checker@)),
{
    let ghost p = entry_check(checker@);
    let mut at: usize = 0;
    while at < entries.len()
        invariant
            0 <= at <= entries@.len(),
            p == entry_check(checker@),
            forall|i: int|
                0 <= i < entries@.len() ==> checker.can_check((#[trigger] entries@[i]).point_id),
            forall|i: int| 0 <= i < at ==> !p(#[trigger] entries@[i]),
        decreases entries@.len() - at,
    {
        let found: bool = checker.check(entries[at].point_id);
        assert(found == p(entries@[at as int]));
        if found {
            proof {
                lemma_first_index_is(entries@, p, at as int);
            }
            return at;
        }
        at = at + 1;
    }
    proof {
        lemma_first_index_is(entries@, p, at as int);
    }
    at
}

impl EntryPoints {
    /// No entry points, with room for as many extra ones.
    pub fn new(extra_entry_points: usize) -> (r: Self)
        ensures
            r@ == (Entries {
                main: Seq::empty(),
                extra: Seq::empty(),
                extra_length: extra_entry_points as nat,
            }),
    {
        EntryPoints {
            entry_points: Vec::new(),
            extra_entry_points: FixedLengthPriorityQueue::new(extra_entry_points),
        }
    }

    /// Adds a point that has links up to `level`. Returns the entry point from
    /// which it is to be linked: the first one that meets the condition, as it was
    /// before. There may be none.
    pub fn new_point<F: Fn(PointOffsetType) -> bool>(
        &mut self,
        new_point: PointOffsetType,
        level: usize,
        checker: &PointFilter<F>,
    ) -> (entry: Option<EntryPoint>)
        requires
            forall|i: int|
                0 <= i < old(self)@.main.len() ==> checker.can_check(
                    (#[trigger] old(self)@.main[i]).point_id,
                ),
        ensures
            final(self)@ == old(self)@.with_point(
                EntryPoint { point_id: new_point, level },
                checker@,
            ),
            entry == old(self)@.first_main(checker@),
    {
        proof {
            lemma_first_index(self@.main, entry_check(checker@));
        }
        let new_entry = EntryPoint { point_id: new_point, level };
        let at: usize = position(&self.entry_points, checker);
        if at >= self.entry_points.len() {
            // No entry point meets the condition: the new point becomes one
            self.entry_points.push(new_entry);
            return None;
        }
        let candidate = self.entry_points[at];
        if candidate.level >= level {
            // A good entry point exists; keep the new point as an extra one
            let _ = self.extra_entry_points.push(new_entry);
        } else {
            // The new point is higher, and takes the place of the old one
            self.entry_points[at] = new_entry;
            let _ = self.extra_entry_points.push(candidate);
        }
        Some(candidate)
    }

    /// The first entry point that meets the condition; if none does, the highest of
    /// the extra ones that meets it.
    pub fn get_entry_point<F: Fn(PointOffsetType) -> bool>(
        &self,
        checker: &PointFilter<F>,
    ) -> (entry: Option<EntryPoint>)
        requires
            forall|i: int|
                0 <= i < self@.main.len() ==> checker.can_check(
                    (#[trigger] self@.main[i]).point_id,
                ),
            forall|i: int|
                0 <= i < self@.extra.len() ==> checker.can_check(
                    (#[trigger] self@.extra[i]).point_id,
                ),
        ensures
            entry == self@.lookup(checker@),
            // An extra entry point is only found if no other meets the condition, and
            // then it is the highest
            self@.first_main(checker@) is None ==> forall|i: int|
                0 <= i < self@.extra.len() && (checker@)((#[trigger] self@.extra[i]).point_id)
                    ==> (entry matches Some(e) && e.level >= self@.extra[i].level),
    {
        let at: usize = position(&self.entry_points, checker);
        if at < self.entry_points.len() {
            return Some(self.entry_points[at]);
        }
        let extra = self.extra_entry_points.iter();
        let at_extra: usize = position(extra, checker);
        proof {
            let p = entry_check(checker@);
            lemma_first_index(extra@, p);
            assert forall|i: int|
                0 <= i < self@.extra.len() && (checker@)((#[trigger] self@.extra[i]).point_id)
                implies at_extra <= i && self@.extra[at_extra as int].level
                >= self@.extra[i].level by {
                assert(p(extra@[i]));
                assert(extra@[at_extra as int].priority() >= extra@[i].priority());
            }
        }
        if at_extra < extra.len() {
            Some(extra[at_extra])
        } else {
            None
        }
    }
}

} // verus!
