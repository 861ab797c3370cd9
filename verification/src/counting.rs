//! Counting and summing over sequences, as the classifiers' contracts use them.

use vstd::prelude::*;

verus! {

/// How many elements of `s` satisfy `p`.
pub open spec fn count<T>(s: Seq<T>, p: spec_fn(T) -> bool) -> nat
    decreases s.len(),
{
    if s.len() == 0 {
        0
    } else {
        count(s.drop_last(), p) + if p(s.last()) {
            1nat
        } else {
            0nat
        }
    }
}

/// The sum of `f` over the elements of `s`.
pub open spec fn total<T>(s: Seq<T>, f: spec_fn(T) -> nat) -> nat
    decreases s.len(),
{
    if s.len() == 0 {
        0
    } else {
        total(s.drop_last(), f) + f(s.last())
    }
}

/// Counting the first `i + 1` elements adds the element at `i` to the count of
/// the first `i`.
pub proof fn lemma_count_step<T>(s: Seq<T>, p: spec_fn(T) -> bool, i: int)
    requires
        0 <= i < s.len(),
    ensures
        count(s.take(i + 1), p) == count(s.take(i), p) + if p(s[i]) {
            1nat
        } else {
            0nat
        },
        count(s.take(0), p) == 0,
        i + 1 == s.len() ==> s.take(i + 1) == s,
{
    assert(s.take(i + 1).drop_last() =~= s.take(i));
    assert(s.take(0).len() == 0);
    if i + 1 == s.len() {
        assert(s.take(i + 1) =~= s);
    }
}

/// No more elements satisfy a predicate than there are elements.
pub proof fn lemma_count_bound<T>(s: Seq<T>, p: spec_fn(T) -> bool)
    ensures
        count(s, p) <= s.len(),
    decreases s.len(),
{
    if s.len() > 0 {
        lemma_count_bound(s.drop_last(), p);
    }
}

/// Summing over the first `i + 1` elements adds the element at `i` to the sum
/// over the first `i`.
pub proof fn lemma_total_step<T>(s: Seq<T>, f: spec_fn(T) -> nat, i: int)
    requires
        0 <= i < s.len(),
    ensures
        total(s.take(i + 1), f) == total(s.take(i), f) + f(s[i]),
        total(s.take(0), f) == 0,
        i + 1 == s.len() ==> s.take(i + 1) == s,
{
    assert(s.take(i + 1).drop_last() =~= s.take(i));
    assert(s.take(0).len() == 0);
    if i + 1 == s.len() {
        assert(s.take(i + 1) =~= s);
    }
}

/// A sum over a prefix is at most the sum over the whole.
pub proof fn lemma_total_prefix<T>(s: Seq<T>, f: spec_fn(T) -> nat, i: int)
    requires
        0 <= i <= s.len(),
    ensures
        total(s.take(i), f) <= total(s, f),
    decreases s.len() - i,
{
    if i < s.len() {
        lemma_total_step(s, f, i);
        lemma_total_prefix(s, f, i + 1);
    } else {
        assert(s.take(i) =~= s);
    }
}

/// Every element's share is at most the sum over the whole.
pub proof fn lemma_total_element<T>(s: Seq<T>, f: spec_fn(T) -> nat, i: int)
    requires
        0 <= i < s.len(),
    ensures
        f(s[i]) <= total(s, f),
{
    lemma_total_step(s, f, i);
    lemma_total_prefix(s, f, i + 1);
}

/// Counting over two sequences one after the other adds up.
pub proof fn lemma_count_add<T>(a: Seq<T>, b: Seq<T>, p: spec_fn(T) -> bool)
    ensures
        count(a + b, p) == count(a, p) + count(b, p),
    decreases b.len(),
{
    if b.len() == 0 {
        assert(a + b =~= a);
    } else {
        assert((a + b).drop_last() =~= a + b.drop_last());
        assert((a + b).last() == b.last());
        lemma_count_add(a, b.drop_last(), p);
    }
}

/// A sequence of one element counts one if the element satisfies the predicate.
pub proof fn lemma_count_one<T>(x: T, p: spec_fn(T) -> bool)
    ensures
        count(seq![x], p) == if p(x) {
            1nat
        } else {
            0nat
        },
{
    let one = seq![x];
    assert(one.drop_last() =~= Seq::<T>::empty());
    assert(count(one.drop_last(), p) == 0);
    assert(one.last() == x);
}

} // verus!
