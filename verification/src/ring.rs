//! Elements whose sum and product obey the laws of a ring, and what these
//! laws give for sums of products. With them the order of a sum no longer
//! matters.
use crate::element::Element;
use crate::product::dot_from;
use crate::strassen::{added, subtracted};
use vstd::prelude::*;

verus! {

/// The sum is commutative and associative with zero as its neutral
/// element, the difference undoes the sum, and the product distributes over
/// the sum on both sides.
#[verifier::opaque]
pub open spec fn has_ring_laws<T: Element>() -> bool {
    &&& forall|a: T, b: T| #[trigger] T::sum(a, b) == T::sum(b, a)
    &&& forall|a: T, b: T, c: T| #[trigger] T::sum(T::sum(a, b), c) == T::sum(a, T::sum(b, c))
    &&& forall|a: T| #[trigger] T::sum(a, T::zero_value()) == a
    &&& forall|a: T, b: T| T::sum(#[trigger] T::difference(a, b), b) == a
    &&& forall|a: T, b: T| #[trigger] T::difference(T::sum(a, b), b) == a
    &&& forall|a: T, b: T, c: T| #[trigger]
        T::product(a, T::sum(b, c)) == T::sum(T::product(a, b), T::product(a, c))
    &&& forall|a: T, b: T, c: T| #[trigger]
        T::product(T::sum(a, b), c) == T::sum(T::product(a, c), T::product(b, c))
}

/// Zero is neutral on both sides.
pub proof fn lemma_zero<T: Element>(a: T)
    requires
        has_ring_laws::<T>(),
    ensures
        T::sum(a, T::zero_value()) == a,
        T::sum(T::zero_value(), a) == a,
{
    reveal(has_ring_laws);
}

/// A term can be added to the second of two summands as well as to their
/// sum.
pub proof fn lemma_regroup<T: Element>(a: T, b: T, c: T)
    requires
        has_ring_laws::<T>(),
    ensures
        T::sum(T::sum(a, b), c) == T::sum(a, T::sum(b, c)),
        T::sum(T::sum(a, b), c) == T::sum(T::sum(a, c), b),
{
    reveal(has_ring_laws);
}

/// Two sums of two can be added crosswise.
pub proof fn lemma_shuffle<T: Element>(a: T, b: T, s: T, t: T)
    requires
        has_ring_laws::<T>(),
    ensures
        T::sum(T::sum(a, b), T::sum(s, t)) == T::sum(T::sum(a, s), T::sum(b, t)),
{
    reveal(has_ring_laws);
}

/// What gives `a` when `b` is added to it is the difference of `a` and
/// `b`.
pub proof fn lemma_difference_is<T: Element>(x: T, a: T, b: T)
    requires
        has_ring_laws::<T>(),
        T::sum(x, b) == a,
    ensures
        x == T::difference(a, b),
{
    reveal(has_ring_laws);
    assert(T::difference(T::sum(x, b), b) == x);
}

/// A common summand can be cancelled.
pub proof fn lemma_cancel<T: Element>(x: T, y: T, c: T)
    requires
        has_ring_laws::<T>(),
        T::sum(x, c) == T::sum(y, c),
    ensures
        x == y,
{
    reveal(has_ring_laws);
    assert(T::difference(T::sum(x, c), c) == x);
    assert(T::difference(T::sum(y, c), c) == y);
}

/// The product distributes over the sum and over the difference, on both
/// sides.
pub proof fn lemma_distribute<T: Element>(a: T, b: T, c: T)
    requires
        has_ring_laws::<T>(),
    ensures
        T::product(a, T::sum(b, c)) == T::sum(T::product(a, b), T::product(a, c)),
        T::product(T::sum(a, b), c) == T::sum(T::product(a, c), T::product(b, c)),
        T::product(a, T::difference(b, c)) == T::difference(T::product(a, b), T::product(a, c)),
        T::product(T::difference(a, b), c) == T::difference(T::product(a, c), T::product(b, c)),
{
    reveal(has_ring_laws);
    assert(T::sum(T::difference(b, c), c) == b);
    assert(T::product(a, T::sum(T::difference(b, c), c)) == T::sum(
        T::product(a, T::difference(b, c)),
        T::product(a, c),
    ));
    lemma_difference_is(T::product(a, T::difference(b, c)), T::product(a, b), T::product(a, c));
    assert(T::sum(T::difference(a, b), b) == a);
    assert(T::product(T::sum(T::difference(a, b), b), c) == T::sum(
        T::product(T::difference(a, b), c),
        T::product(b, c),
    ));
    lemma_difference_is(T::product(T::difference(a, b), c), T::product(a, c), T::product(b, c));
}

/// A sum of products that starts from `init` is `init` plus the sum that
/// starts from zero.
pub proof fn lemma_dot_init<T: Element>(init: T, u: Seq<T>, v: Seq<T>, n: int)
    requires
        has_ring_laws::<T>(),
    ensures
        dot_from(init, u, v, n) == T::sum(init, dot_from(T::zero_value(), u, v, n)),
    decreases n,
{
    if n <= 0 {
        lemma_zero(init);
    } else {
        lemma_dot_init(init, u, v, n - 1);
        lemma_regroup(
            init,
            dot_from(T::zero_value(), u, v, n - 1),
            T::product(u[n - 1], v[n - 1]),
        );
    }
}

/// The sum of products is additive in its first sequence.
pub proof fn lemma_dot_added_left<T: Element>(u1: Seq<T>, u2: Seq<T>, v: Seq<T>, n: int)
    requires
        has_ring_laws::<T>(),
        n <= u1.len(),
        n <= u2.len(),
    ensures
        dot_from(T::zero_value(), added(u1, u2), v, n) == T::sum(
            dot_from(T::zero_value(), u1, v, n),
            dot_from(T::zero_value(), u2, v, n),
        ),
    decreases n,
{
    if n <= 0 {
        lemma_zero(T::zero_value());
    } else {
        lemma_dot_added_left(u1, u2, v, n - 1);
        lemma_distribute(u1[n - 1], u2[n - 1], v[n - 1]);
        lemma_shuffle(
            dot_from(T::zero_value(), u1, v, n - 1),
            dot_from(T::zero_value(), u2, v, n - 1),
            T::product(u1[n - 1], v[n - 1]),
            T::product(u2[n - 1], v[n - 1]),
        );
    }
}

/// The sum of products is additive in its second sequence.
pub proof fn lemma_dot_added_right<T: Element>(u: Seq<T>, v1: Seq<T>, v2: Seq<T>, n: int)
    requires
        has_ring_laws::<T>(),
        n <= v1.len(),
        n <= v2.len(),
    ensures
        dot_from(T::zero_value(), u, added(v1, v2), n) == T::sum(
            dot_from(T::zero_value(), u, v1, n),
            dot_from(T::zero_value(), u, v2, n),
        ),
    decreases n,
{
    if n <= 0 {
        lemma_zero(T::zero_value());
    } else {
        lemma_dot_added_right(u, v1, v2, n - 1);
        lemma_distribute(u[n - 1], v1[n - 1], v2[n - 1]);
        lemma_shuffle(
            dot_from(T::zero_value(), u, v1, n - 1),
            dot_from(T::zero_value(), u, v2, n - 1),
            T::product(u[n - 1], v1[n - 1]),
            T::product(u[n - 1], v2[n - 1]),
        );
    }
}

/// The sum of products of a difference is the difference of the sums of
/// products, in the first sequence.
pub proof fn lemma_dot_subtracted_left<T: Element>(u1: Seq<T>, u2: Seq<T>, v: Seq<T>, n: int)
    requires
        has_ring_laws::<T>(),
        n <= u1.len(),
        u1.len() == u2.len(),
    ensures
        dot_from(T::zero_value(), subtracted(u1, u2), v, n) == T::difference(
            dot_from(T::zero_value(), u1, v, n),
            dot_from(T::zero_value(), u2, v, n),
        ),
{
    let d = subtracted(u1, u2);
    assert(added(d, u2) =~= u1) by {
        reveal(has_ring_laws);
    }
    lemma_dot_added_left(d, u2, v, n);
    lemma_difference_is(
        dot_from(T::zero_value(), d, v, n),
        dot_from(T::zero_value(), u1, v, n),
        dot_from(T::zero_value(), u2, v, n),
    );
}

/// The sum of products of a difference is the difference of the sums of
/// products, in the second sequence.
pub proof fn lemma_dot_subtracted_right<T: Element>(u: Seq<T>, v1: Seq<T>, v2: Seq<T>, n: int)
    requires
        has_ring_laws::<T>(),
        n <= v1.len(),
        v1.len() == v2.len(),
    ensures
        dot_from(T::zero_value(), u, subtracted(v1, v2), n) == T::difference(
            dot_from(T::zero_value(), u, v1, n),
            dot_from(T::zero_value(), u, v2, n),
        ),
{
    let d = subtracted(v1, v2);
    assert(added(d, v2) =~= v1) by {
        reveal(has_ring_laws);
    }
    lemma_dot_added_right(u, d, v2, n);
    lemma_difference_is(
        dot_from(T::zero_value(), u, d, n),
        dot_from(T::zero_value(), u, v1, n),
        dot_from(T::zero_value(), u, v2, n),
    );
}

} // verus!
