//! Which points a search has come across, with lists that are used again.

use crate::types::PointOffsetType;
use vstd::prelude::*;
use vstd::rwlock::{RwLock, RwLockPredicate};

verus! {

/// Set of points. Each point has a counter, and belongs to the set while its
/// counter shows the current iteration, so that a new iteration empties the set
/// without touching the counters.
#[derive(Debug)]
pub struct VisitedList {
    current_iter: usize,
    visit_counters: Vec<usize>,
}

impl View for VisitedList {
    type V = Set<PointOffsetType>;

    closed spec fn view(&self) -> Set<PointOffsetType> {
        Set::new(
            |p: PointOffsetType|
                p < self.visit_counters@.len() && self.visit_counters@[p as int]
                    == self.current_iter,
        )
    }
}

impl VisitedList {
    /// Whether no counter is ahead of the current iteration.
    pub closed spec fn wf(&self) -> bool {
        &&& self.current_iter > 0
        &&& forall|i: int|
            0 <= i < self.visit_counters@.len() ==> #[trigger] self.visit_counters@[i]
                <= self.current_iter
    }

    /// An empty set with room for the first `num_points` points.
    pub fn new(num_points: usize) -> (list: Self)
        ensures
            list.wf(),
            list@ == Set::<PointOffsetType>::empty(),
    {
        let mut visit_counters: Vec<usize> = Vec::new();
        visit_counters.resize(num_points, 0);
        let list = VisitedList { current_iter: 1, visit_counters };
        assert(list@ =~= Set::<PointOffsetType>::empty());
        list
    }

    /// Adds the point to the set. Tells whether it was in it before.
    pub fn check_and_update_visited(&mut self, point_id: PointOffsetType) -> (seen: bool)
        requires
            old(self).wf(),
            point_id < usize::MAX,
        ensures
            final(self).wf(),
            seen == old(self)@.contains(point_id),
            final(self)@ == old(self)@.insert(point_id),
    {
        let idx: usize = point_id as usize;
        let ghost before = self.visit_counters@;
        if idx >= self.visit_counters.len() {
            self.visit_counters.resize(idx + 1, 0);
            assert forall|i: int| 0 <= i < before.len() implies #[trigger] self.visit_counters@[i]
                == before[i] by {
                assert(self.visit_counters@.subrange(0, before.len() as int)[i] == before[i]);
            }
        }
        assert forall|i: int| 0 <= i < self.visit_counters@.len() implies
            #[trigger] self.visit_counters@[i] <= self.current_iter by {
            if i < before.len() {
                assert(before[i] <= self.current_iter);
            }
        }
        let prev_value: usize = self.visit_counters[idx];
        self.visit_counters[idx] = self.current_iter;
        assert(self@ =~= old(self)@.insert(point_id));
        prev_value == self.current_iter
    }

    /// Empties the set, with room for the first `num_points` points.
    fn next_iteration(&mut self, num_points: usize)
        requires
            old(self).wf(),
        ensures
            final(self).wf(),
            final(self)@ == Set::<PointOffsetType>::empty(),
    {
        if self.current_iter == usize::MAX {
            *self = VisitedList::new(num_points);
        } else {
            let ghost before = self.visit_counters@;
            self.visit_counters.resize(num_points, 0);
            assert forall|i: int| 0 <= i < num_points implies #[trigger] self.visit_counters@[i]
                <= self.current_iter by {
                if i < before.len() && before.len() < num_points {
                    assert(self.visit_counters@.subrange(0, before.len() as int)[i] == before[i]);
                }
            }
            self.current_iter = self.current_iter + 1;
            assert(self@ =~= Set::<PointOffsetType>::empty());
        }
    }
}

/// What every list in a pool has to be: well formed.
pub struct PooledLists;

impl RwLockPredicate<Vec<VisitedList>> for PooledLists {
    open spec fn inv(self, lists: Vec<VisitedList>) -> bool {
        forall|i: int| 0 <= i < lists@.len() ==> (#[trigger] lists@[i]).wf()
    }
}

/// Lists that searches have returned, for later searches to use again.
pub struct VisitedPool {
    pool: RwLock<Vec<VisitedList>, PooledLists>,
}

impl VisitedPool {
    /// A pool without lists.
    pub fn new() -> (pool: Self) {
        VisitedPool { pool: RwLock::new(Vec::new(), Ghost(PooledLists)) }
    }

    /// An empty list with room for the first `num_points` points. A search can use
    /// it without regard to what other searches have put into it before.
    pub fn get(&self, num_points: usize) -> (list: VisitedList)
        ensures
            list.wf(),
            list@ == Set::<PointOffsetType>::empty(),
    {
        let (mut lists, handle) = self.pool.acquire_write();
        let returned = lists.pop();
        handle.release_write(lists);
        match returned {
            None => VisitedList::new(num_points),
            Some(list) => {
                let mut list = list;
                list.next_iteration(num_points);
                list
            },
        }
    }

    /// Takes a list back.
    pub fn return_back(&self, data: VisitedList)
        requires
            data.wf(),
    {
        let (mut lists, handle) = self.pool.acquire_write();
        lists.push(data);
        handle.release_write(lists);
    }
}

} // verus!
