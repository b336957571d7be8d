//! The sums that a matrix product is made of, with the order in which the
//! terms are added written out.
use crate::element::Element;
use vstd::prelude::*;

verus! {

/// Row `y` of a row-major buffer of width `w`.
pub open spec fn row_of<T>(m: Seq<T>, w: int, y: int) -> Seq<T> {
    Seq::new(w as nat, |p: int| m[p + w * y])
}

/// Column `x` of a row-major buffer of width `w` and height `h`.
pub open spec fn column_of<T>(m: Seq<T>, w: int, h: int, x: int) -> Seq<T> {
    Seq::new(h as nat, |p: int| m[x + w * p])
}

/// `init` with the first `n` products `u[p] * v[p]` added to it one after
/// the other, in the order of `p`.
pub open spec fn dot_from<T: Element>(init: T, u: Seq<T>, v: Seq<T>, n: int) -> T
    decreases n,
{
    if n <= 0 {
        init
    } else {
        T::sum(dot_from(init, u, v, n - 1), T::product(u[n - 1], v[n - 1]))
    }
}

/// A sum depends only on the terms that it adds.
pub proof fn lemma_dot_from_agrees<T: Element>(
    init: T,
    u1: Seq<T>,
    v1: Seq<T>,
    u2: Seq<T>,
    v2: Seq<T>,
    n: int,
)
    requires
        forall|p: int| 0 <= p < n ==> u1[p] == u2[p] && v1[p] == v2[p],
    ensures
        dot_from(init, u1, v1, n) == dot_from(init, u2, v2, n),
    decreases n,
{
    if n > 0 {
        lemma_dot_from_agrees(init, u1, v1, u2, v2, n - 1);
    }
}

/// Adding `n` terms and then the `m` that follow is adding `n + m` terms.
pub proof fn lemma_dot_from_split<T: Element>(init: T, u: Seq<T>, v: Seq<T>, n: int, m: int)
    requires
        0 <= n,
        0 <= m,
        n + m <= u.len(),
        n + m <= v.len(),
    ensures
        dot_from(init, u, v, n + m) == dot_from(
            dot_from(init, u, v, n),
            u.subrange(n, n + m),
            v.subrange(n, n + m),
            m,
        ),
    decreases m,
{
    if m > 0 {
        lemma_dot_from_split(init, u, v, n, m - 1);
        lemma_dot_from_agrees(
            dot_from(init, u, v, n),
            u.subrange(n, n + m),
            v.subrange(n, n + m),
            u.subrange(n, n + m - 1),
            v.subrange(n, n + m - 1),
            m - 1,
        );
    }
}

} // verus!
