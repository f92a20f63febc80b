//! Counting the elements of a sequence that satisfy a predicate, and the
//! facts about such counts that the curves rest on: a count splits over a
//! concatenation, and two sequences with the same multiset of elements have
//! the same count.
use vstd::prelude::*;

verus! {

broadcast use vstd::seq_lib::group_to_multiset_ensures;

/// Number of elements of `s` that satisfy `f`.
pub open spec fn count_where<A>(s: Seq<A>, f: spec_fn(A) -> bool) -> nat
    decreases s.len(),
{
    if s.len() == 0 {
        0
    } else {
        count_where(s.drop_last(), f) + if f(s.last()) {
            1nat
        } else {
            0nat
        }
    }
}

/// The indices `0, 1, ..., n - 1` in order.
pub open spec fn index_range(n: nat) -> Seq<usize> {
    Seq::new(n, |i: int| i as usize)
}


/// Two predicates that no element satisfies together count at most the length.
pub proof fn lemma_count_disjoint<A>(s: Seq<A>, f: spec_fn(A) -> bool, g: spec_fn(A) -> bool)
    requires
        forall|i: int| 0 <= i < s.len() ==> !(f(#[trigger] s[i]) && g(s[i])),
    ensures
        count_where(s, f) + count_where(s, g) <= s.len(),
    decreases s.len(),
{
    if s.len() > 0 {
        let t = s.drop_last();
        assert forall|i: int| 0 <= i < t.len() implies !(f(#[trigger] t[i]) && g(t[i])) by {
            assert(t[i] == s[i]);
        }
        lemma_count_disjoint(t, f, g);
    }
}

/// A weaker predicate counts at least as many elements.
pub proof fn lemma_count_mono<A>(s: Seq<A>, f: spec_fn(A) -> bool, g: spec_fn(A) -> bool)
    requires
        forall|i: int| 0 <= i < s.len() ==> f(#[trigger] s[i]) ==> g(s[i]),
    ensures
        count_where(s, f) <= count_where(s, g),
    decreases s.len(),
{
    if s.len() > 0 {
        let t = s.drop_last();
        assert forall|i: int| 0 <= i < t.len() && f(#[trigger] t[i]) implies g(t[i]) by {
            assert(t[i] == s[i]);
        }
        lemma_count_mono(t, f, g);
    }
}

/// An element that satisfies the predicate makes the count positive.
pub proof fn lemma_count_positive<A>(s: Seq<A>, f: spec_fn(A) -> bool, i: int)
    requires
        0 <= i < s.len(),
        f(s[i]),
    ensures
        count_where(s, f) >= 1,
    decreases s.len(),
{
    if i < s.len() - 1 {
        let t = s.drop_last();
        assert(t[i] == s[i]);
        lemma_count_positive(t, f, i);
    }
}

/// Predicates that agree position by position on two sequences of equal
/// length give the same count.
pub proof fn lemma_count_pointwise<A, B>(
    s1: Seq<A>,
    f: spec_fn(A) -> bool,
    s2: Seq<B>,
    g: spec_fn(B) -> bool,
)
    requires
        s1.len() == s2.len(),
        forall|i: int| 0 <= i < s1.len() ==> f(#[trigger] s1[i]) == g(s2[i]),
    ensures
        count_where(s1, f) == count_where(s2, g),
    decreases s1.len(),
{
    if s1.len() > 0 {
        let t1 = s1.drop_last();
        let t2 = s2.drop_last();
        assert forall|i: int| 0 <= i < t1.len() implies f(#[trigger] t1[i]) == g(t2[i]) by {
            assert(t1[i] == s1[i] && t2[i] == s2[i]);
        }
        lemma_count_pointwise(t1, f, t2, g);
    }
}

/// Counting the first `k + 1` elements adds the `k`-th to the count of the first `k`.
pub proof fn lemma_count_take_succ<A>(s: Seq<A>, f: spec_fn(A) -> bool, k: int)
    requires
        0 <= k < s.len(),
    ensures
        count_where(s.take(k + 1), f) == count_where(s.take(k), f) + if f(s[k]) {
            1nat
        } else {
            0nat
        },
{
    assert(s.take(k + 1).drop_last() =~= s.take(k));
}

/// A count is at most the length.
pub proof fn lemma_count_bound<A>(s: Seq<A>, f: spec_fn(A) -> bool)
    ensures
        count_where(s, f) <= s.len(),
    decreases s.len(),
{
    if s.len() > 0 {
        lemma_count_bound(s.drop_last(), f);
    }
}

/// Predicates that agree on every element give the same count.
pub proof fn lemma_count_ext<A>(s: Seq<A>, f: spec_fn(A) -> bool, g: spec_fn(A) -> bool)
    requires
        forall|i: int| 0 <= i < s.len() ==> f(#[trigger] s[i]) == g(s[i]),
    ensures
        count_where(s, f) == count_where(s, g),
    decreases s.len(),
{
    if s.len() > 0 {
        let t = s.drop_last();
        assert forall|i: int| 0 <= i < t.len() implies f(#[trigger] t[i]) == g(t[i]) by {
            assert(t[i] == s[i]);
        }
        lemma_count_ext(t, f, g);
    }
}

/// A predicate that no element satisfies counts zero.
pub proof fn lemma_count_none<A>(s: Seq<A>, f: spec_fn(A) -> bool)
    requires
        forall|i: int| 0 <= i < s.len() ==> !f(#[trigger] s[i]),
    ensures
        count_where(s, f) == 0,
    decreases s.len(),
{
    if s.len() > 0 {
        let t = s.drop_last();
        assert forall|i: int| 0 <= i < t.len() implies !f(#[trigger] t[i]) by {
            assert(t[i] == s[i]);
        }
        lemma_count_none(t, f);
    }
}

/// A predicate and its negation together count every element once.
pub proof fn lemma_count_complement<A>(s: Seq<A>, f: spec_fn(A) -> bool, g: spec_fn(A) -> bool)
    requires
        forall|i: int| 0 <= i < s.len() ==> g(#[trigger] s[i]) == !f(s[i]),
    ensures
        count_where(s, f) + count_where(s, g) == s.len(),
    decreases s.len(),
{
    if s.len() > 0 {
        let t = s.drop_last();
        assert forall|i: int| 0 <= i < t.len() implies g(#[trigger] t[i]) == !f(t[i]) by {
            assert(t[i] == s[i]);
        }
        lemma_count_complement(t, f, g);
    }
}

/// A count splits over a concatenation.
pub proof fn lemma_count_add<A>(a: Seq<A>, b: Seq<A>, f: spec_fn(A) -> bool)
    ensures
        count_where(a + b, f) == count_where(a, f) + count_where(b, f),
    decreases b.len(),
{
    if b.len() == 0 {
        assert(a + b =~= a);
    } else {
        assert((a + b).drop_last() =~= a + b.drop_last());
        lemma_count_add(a, b.drop_last(), f);
    }
}

/// Removing one element removes its contribution from the count.
pub proof fn lemma_count_remove<A>(s: Seq<A>, q: int, f: spec_fn(A) -> bool)
    requires
        0 <= q < s.len(),
    ensures
        count_where(s, f) == count_where(s.remove(q), f) + if f(s[q]) {
            1nat
        } else {
            0nat
        },
    decreases s.len(),
{
    if q == s.len() - 1 {
        assert(s.remove(q) =~= s.drop_last());
    } else {
        let t = s.drop_last();
        assert(s.remove(q).drop_last() =~= t.remove(q));
        assert(s.remove(q).last() == s.last());
        lemma_count_remove(t, q, f);
    }
}

/// Sequences with the same multiset of elements have the same count.
pub proof fn lemma_count_multiset<A>(s1: Seq<A>, s2: Seq<A>, f: spec_fn(A) -> bool)
    requires
        s1.to_multiset() == s2.to_multiset(),
    ensures
        count_where(s1, f) == count_where(s2, f),
    decreases s1.len(),
{
    if s1.len() == 0 {
        assert(s2.to_multiset().len() == 0);
        assert(s2.len() == 0);
    } else {
        let x = s1.last();
        let t1 = s1.drop_last();
        assert(s1 =~= t1.push(x));
        assert(s1.to_multiset().count(x) > 0);
        assert(s2.contains(x));
        let q = choose|q: int| 0 <= q < s2.len() && s2[q] == x;
        assert(t1.to_multiset() =~= s1.to_multiset().remove(x));
        assert(s2.remove(q).to_multiset() =~= s2.to_multiset().remove(x));
        lemma_count_multiset(t1, s2.remove(q), f);
        lemma_count_remove(s2, q, f);
    }
}

} // verus!
