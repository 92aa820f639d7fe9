//! Sequences that are ordered by priority, the highest first.

use vstd::prelude::*;

verus! {

/// What can be ranked against others of its kind.
pub trait Prioritized: Copy {
    /// The higher, the earlier in a ranking.
    spec fn priority(self) -> int;

    /// Whether this item comes strictly before the other.
    fn outranks(&self, other: &Self) -> (r: bool)
        ensures
            r == (self.priority() > other.priority()),
    ;
}

/// Index of the first element that meets the condition; the length if none does.
pub open spec fn first_index<A>(s: Seq<A>, p: spec_fn(A) -> bool) -> int
    decreases s.len(),
{
    if s.len() == 0 || p(s[0]) {
        0
    } else {
        1 + first_index(s.drop_first(), p)
    }
}

/// What holds at the first index, and before it.
pub proof fn lemma_first_index<A>(s: Seq<A>, p: spec_fn(A) -> bool)
    ensures
        0 <= first_index(s, p) <= s.len(),
        forall|i: int| 0 <= i < first_index(s, p) ==> !p(#[trigger] s[i]),
        first_index(s, p) < s.len() ==> p(s[first_index(s, p)]),
    decreases s.len(),
{
    if s.len() > 0 && !p(s[0]) {
        let t = s.drop_first();
        lemma_first_index(t, p);
        assert forall|i: int| 0 <= i < first_index(s, p) implies !p(#[trigger] s[i]) by {
            if i > 0 {
                assert(s[i] == t[i - 1]);
            }
        }
    }
}

/// Only the first index has these properties.
pub proof fn lemma_first_index_is<A>(s: Seq<A>, p: spec_fn(A) -> bool, at: int)
    requires
        0 <= at <= s.len(),
        forall|i: int| 0 <= i < at ==> !p(#[trigger] s[i]),
        at < s.len() ==> p(s[at]),
    ensures
        first_index(s, p) == at,
{
    lemma_first_index(s, p);
    let f = first_index(s, p);
    if f < at {
        assert(!p(s[f]));
    } else if at < f {
        assert(!p(s[at]));
    }
}

/// The condition of being outranked by `x`.
pub open spec fn outranked_by<T: Prioritized>(x: T) -> spec_fn(T) -> bool {
    |y: T| x.priority() > y.priority()
}

/// `s` with `x` put before the first item that it outranks.
pub open spec fn ranked_insert<T: Prioritized>(s: Seq<T>, x: T) -> Seq<T> {
    s.insert(first_index(s, outranked_by(x)), x)
}

/// The items of `s` from the highest priority to the lowest; items of equal
/// priority keep their order.
pub open spec fn ranked<T: Prioritized>(s: Seq<T>) -> Seq<T>
    decreases s.len(),
{
    if s.len() == 0 {
        s
    } else {
        ranked_insert(ranked(s.drop_last()), s.last())
    }
}

/// Whether no item comes after one of lower priority.
pub open spec fn is_ranked<T: Prioritized>(s: Seq<T>) -> bool {
    forall|i: int, j: int|
        0 <= i <= j < s.len() ==> (#[trigger] s[i]).priority() >= (#[trigger] s[j]).priority()
}

/// Puts `x` before the first item that it outranks.
pub fn insert_ranked<T: Prioritized>(items: &mut Vec<T>, x: T)
    ensures
        final(items)@ == ranked_insert(old(items)@, x),
{
    let mut at: usize = 0;
    while at < items.len() && !x.outranks(&items[at])
        invariant
            0 <= at <= items@.len(),
            *items == *old(items),
            forall|i: int| 0 <= i < at ==> !outranked_by(x)(#[trigger] items@[i]),
        ensures
            at < items@.len() ==> outranked_by(x)(items@[at as int]),
        decreases items@.len() - at,
    {
        at = at + 1;
    }
    proof {
        lemma_first_index_is(items@, outranked_by(x), at as int);
    }
    items.insert(at, x);
}

/// Inserting by rank keeps a ranking, and adds the one item.
pub proof fn lemma_ranked_insert<T: Prioritized>(s: Seq<T>, x: T)
    ensures
        ranked_insert(s, x).len() == s.len() + 1,
        ranked_insert(s, x).to_multiset() == s.to_multiset().insert(x),
        is_ranked(s) ==> is_ranked(ranked_insert(s, x)),
{
    lemma_first_index(s, outranked_by(x));
    let at = first_index(s, outranked_by(x));
    let r = ranked_insert(s, x);
    vstd::seq_lib::to_multiset_insert(s, at, x);
    if is_ranked(s) {
        assert forall|i: int, j: int| 0 <= i <= j < r.len() implies (#[trigger] r[i]).priority()
            >= (#[trigger] r[j]).priority() by {
            if i < at {
                assert(r[i] == s[i]);
                assert(!outranked_by(x)(s[i]));
            } else if i > at {
                assert(r[i] == s[i - 1]);
            }
            if j < at {
                assert(r[j] == s[j]);
            } else if j > at {
                assert(r[j] == s[j - 1]);
                if i == at {
                    assert(outranked_by(x)(s[at]));
                    assert(s[at].priority() >= s[j - 1].priority());
                }
            }
        }
    }
}

/// A ranking is in order, and holds the same items as often.
pub proof fn law_ranked_orders_the_same_items<T: Prioritized>(s: Seq<T>)
    ensures
        is_ranked(ranked(s)),
        ranked(s).len() == s.len(),
        ranked(s).to_multiset() == s.to_multiset(),
    decreases s.len(),
{
    if s.len() > 0 {
        law_ranked_orders_the_same_items(s.drop_last());
        lemma_ranked_insert(ranked(s.drop_last()), s.last());
        assert(s.drop_last().push(s.last()) =~= s);
        vstd::seq_lib::to_multiset_build(s.drop_last(), s.last());
    }
}

/// What is in order already stays as it is.
pub proof fn lemma_ranked_of_ranked<T: Prioritized>(s: Seq<T>)
    requires
        is_ranked(s),
    ensures
        ranked(s) == s,
    decreases s.len(),
{
    if s.len() > 0 {
        let t = s.drop_last();
        assert(is_ranked(t)) by {
            assert forall|i: int, j: int| 0 <= i <= j < t.len() implies (#[trigger] t[i]).priority()
                >= (#[trigger] t[j]).priority() by {
                assert(t[i] == s[i] && t[j] == s[j]);
            }
        }
        lemma_ranked_of_ranked(t);
        assert forall|i: int| 0 <= i < t.len() implies !outranked_by(s.last())(#[trigger] t[i]) by {
            assert(s[i].priority() >= s[s.len() - 1].priority());
        }
        lemma_first_index_is(t, outranked_by(s.last()), t.len() as int);
        assert(t.insert(t.len() as int, s.last()) =~= s);
    }
}

} // verus!
