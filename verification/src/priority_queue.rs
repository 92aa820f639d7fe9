//! A queue that keeps the best of what is pushed into it.

use crate::ranking::{
    first_index, insert_ranked, is_ranked, law_ranked_orders_the_same_items, lemma_first_index,
    lemma_first_index_is, lemma_ranked_insert, lemma_ranked_of_ranked, outranked_by, ranked,
    ranked_insert, Prioritized,
};
use vstd::prelude::*;

verus! {

/// What a queue of the given length that holds `s` holds after `x` was pushed.
pub open spec fn offered<T: Prioritized>(s: Seq<T>, length: nat, x: T) -> Seq<T> {
    if s.len() < length {
        ranked_insert(s, x)
    } else if s.len() > 0 && x.priority() > s.last().priority() {
        ranked_insert(s.drop_last(), x)
    } else {
        s
    }
}

/// What such a push hands back: nothing while there is room, else the item that
/// had to leave, or `x` itself if it does not outrank the last one.
pub open spec fn displaced<T: Prioritized>(s: Seq<T>, length: nat, x: T) -> Option<T> {
    if s.len() < length {
        None
    } else if s.len() > 0 && x.priority() > s.last().priority() {
        Some(s.last())
    } else {
        Some(x)
    }
}

/// What the queue holds after all of `xs` were pushed, the first one first.
pub open spec fn offered_all<T: Prioritized>(s: Seq<T>, length: nat, xs: Seq<T>) -> Seq<T>
    decreases xs.len(),
{
    if xs.len() == 0 {
        s
    } else {
        offered(offered_all(s, length, xs.drop_last()), length, xs.last())
    }
}

/// Queue of at most `length` items, the highest priority first. Once it is full,
/// an item enters only by displacing the last one, which it has to outrank.
#[derive(Debug)]
pub struct FixedLengthPriorityQueue<T: Prioritized> {
    items: Vec<T>,
    length: usize,
}

impl<T: Prioritized> View for FixedLengthPriorityQueue<T> {
    type V = Seq<T>;

    closed spec fn view(&self) -> Seq<T> {
        self.items@
    }
}

impl<T: Prioritized> FixedLengthPriorityQueue<T> {
    /// How many items the queue keeps.
    pub closed spec fn length(&self) -> nat {
        self.length as nat
    }

    /// The items are in order, and no more than the queue may keep.
    #[verifier::type_invariant]
    pub open spec fn wf(&self) -> bool {
        is_ranked(self@) && self@.len() <= self.length()
    }

    /// An empty queue that keeps `length` items.
    pub fn new(length: usize) -> (queue: Self)
        ensures
            queue@ == Seq::<T>::empty(),
            queue.length() == length,
            queue.wf(),
    {
        FixedLengthPriorityQueue { items: Vec::new(), length }
    }

    /// Pushes an item. Hands back the one that did not stay, if there is one.
    pub fn push(&mut self, value: T) -> (removed: Option<T>)
        ensures
            final(self)@ == offered(old(self)@, old(self).length(), value),
            final(self).length() == old(self).length(),
            removed == displaced(old(self)@, old(self).length(), value),
            final(self).wf(),
    {
        proof {
            use_type_invariant(&*self);
            lemma_offered_keeps_order(self@, self.length(), value);
        }
        let mut items: Vec<T> = Vec::new();
        std::mem::swap(&mut items, &mut self.items);
        let n: usize = items.len();
        let removed: Option<T> = if n < self.length {
            insert_ranked(&mut items, value);
            None
        } else if n > 0 && value.outranks(&items[n - 1]) {
            let worst = items.pop();
            assert(items@ =~= old(self)@.drop_last());
            insert_ranked(&mut items, value);
            worst
        } else {
            Some(value)
        };
        self.items = items;
        removed
    }

    /// How many items the queue holds.
    pub fn len(&self) -> (n: usize)
        ensures
            n == self@.len(),
            n <= self.length(),
    {
        proof {
            use_type_invariant(self);
        }
        self.items.len()
    }

    /// How many items the queue keeps.
    pub fn max_len(&self) -> (n: usize)
        ensures
            n == self.length(),
    {
        self.length
    }

    /// The items, the highest priority first.
    pub fn iter(&self) -> (items: &Vec<T>)
        ensures
            items@ == self@,
            is_ranked(items@),
    {
        proof {
            use_type_invariant(self);
        }
        &self.items
    }

    /// The items, the highest priority first.
    pub fn into_vec(self) -> (items: Vec<T>)
        ensures
            items@ == self@,
            is_ranked(items@),
            items@.len() <= self.length(),
    {
        proof {
            use_type_invariant(&self);
        }
        self.items
    }
}

/// A push keeps the order and the bound on the number of items.
pub proof fn lemma_offered_keeps_order<T: Prioritized>(s: Seq<T>, length: nat, x: T)
    ensures
        is_ranked(s) ==> is_ranked(offered(s, length, x)),
        s.len() <= length ==> offered(s, length, x).len() <= length,
        offered(s, length, x).len() >= s.len(),
{
    lemma_ranked_insert(s, x);
    if s.len() > 0 {
        lemma_ranked_insert(s.drop_last(), x);
        if is_ranked(s) {
            let t = s.drop_last();
            assert forall|i: int, j: int| 0 <= i <= j < t.len() implies (#[trigger] t[i]).priority()
                >= (#[trigger] t[j]).priority() by {
                assert(t[i] == s[i] && t[j] == s[j]);
            }
        }
    }
}

proof fn lemma_offered_is_best<T: Prioritized>(all: Seq<T>, length: nat, x: T)
    requires
        is_ranked(all),
    ensures
        ({
            let kept = |s: Seq<T>|
                s.take(
                    if s.len() < length {
                        s.len() as int
                    } else {
                        length as int
                    },
                );
            offered(kept(all), length, x) == kept(ranked_insert(all, x))
        }),
{
    let p = outranked_by(x);
    let n: int = if all.len() < length { all.len() as int } else { length as int };
    let kept = all.take(n);
    let at = first_index(all, p);
    lemma_first_index(all, p);
    if all.len() < length {
        assert(kept =~= all);
        assert(ranked_insert(all, x).take(all.len() as int + 1) =~= ranked_insert(all, x));
    } else if length == 0 {
        assert(kept =~= Seq::empty());
        assert(ranked_insert(all, x).take(0) =~= Seq::empty());
    } else if at < length {
        // `x` outranks what stands at `at`, so also the last of those kept.
        assert(all[at].priority() >= all[length - 1].priority());
        let t = kept.drop_last();
        assert forall|i: int| 0 <= i < at implies !p(#[trigger] t[i]) by {
            assert(t[i] == all[i]);
        }
        if at < t.len() {
            assert(t[at] == all[at]);
        }
        lemma_first_index_is(t, p, at);
        assert(t.insert(at, x) =~= all.insert(at, x).take(length as int));
    } else {
        assert(!p(all[length - 1]));
        assert(kept =~= all.insert(at, x).take(length as int));
    }
}

/// Whatever is pushed into an empty queue, it holds the best of it: the first
/// `length` items of the ranking of all that was pushed.
pub proof fn law_queue_keeps_the_best<T: Prioritized>(length: nat, xs: Seq<T>)
    ensures
        offered_all(Seq::<T>::empty(), length, xs) == ranked(xs).take(
            if xs.len() < length {
                xs.len() as int
            } else {
                length as int
            },
        ),
    decreases xs.len(),
{
    if xs.len() > 0 {
        law_queue_keeps_the_best(length, xs.drop_last());
        law_ranked_orders_the_same_items(xs.drop_last());
        law_ranked_orders_the_same_items(xs);
        lemma_offered_is_best(ranked(xs.drop_last()), length, xs.last());
    } else {
        assert(xs.take(0) =~= Seq::empty());
    }
}

/// Pushing the contents of a queue, in their order, into an empty one of the same
/// length gives the same contents.
pub proof fn law_queue_can_be_rebuilt<T: Prioritized>(queue: FixedLengthPriorityQueue<T>)
    requires
        queue.wf(),
    ensures
        offered_all(Seq::<T>::empty(), queue.length(), queue@) == queue@,
{
    law_queue_keeps_the_best(queue.length(), queue@);
    lemma_ranked_of_ranked(queue@);
    assert(queue@.take(queue@.len() as int) =~= queue@);
}

} // verus!
