//! The arithmetic that a matrix element has to offer.
use vstd::prelude::*;

verus! {

/// A type whose values can be added, subtracted and multiplied.
///
/// Nothing is asked of the three operations beyond that each is a function
/// of its operands: addition need not be associative, and so the contracts
/// of this crate fix the order in which every sum is formed. Laws such as
/// [`crate::ring::has_ring_laws`] are stated as hypotheses where a result
/// needs them.
pub trait Element: Copy + Send + Sync {
    /// The value that an empty sum has.
    spec fn zero_value() -> Self;

    /// The value on the diagonal of an identity matrix.
    spec fn one_value() -> Self;

    /// The sum of `a` and `b`.
    spec fn sum(a: Self, b: Self) -> Self;

    /// `a` with `b` taken away.
    spec fn difference(a: Self, b: Self) -> Self;

    /// The product of `a` and `b`.
    spec fn product(a: Self, b: Self) -> Self;

    /// Zero.
    fn zero() -> (r: Self)
        ensures
            r == Self::zero_value(),
    ;

    /// One.
    fn one() -> (r: Self)
        ensures
            r == Self::one_value(),
    ;

    /// `self + rhs`.
    fn plus(self, rhs: Self) -> (r: Self)
        ensures
            r == Self::sum(self, rhs),
    ;

    /// `self - rhs`.
    fn minus(self, rhs: Self) -> (r: Self)
        ensures
            r == Self::difference(self, rhs),
    ;

    /// `self * rhs`.
    fn times(self, rhs: Self) -> (r: Self)
        ensures
            r == Self::product(self, rhs),
    ;
}

/// Integers modulo 2^64.
impl Element for u64 {
    open spec fn zero_value() -> u64 {
        0
    }

    open spec fn one_value() -> u64 {
        1
    }

    open spec fn sum(a: u64, b: u64) -> u64 {
        a.wrapping_add(b)
    }

    open spec fn difference(a: u64, b: u64) -> u64 {
        a.wrapping_sub(b)
    }

    open spec fn product(a: u64, b: u64) -> u64 {
        a.wrapping_mul(b)
    }

    fn zero() -> (r: u64) {
        0
    }

    fn one() -> (r: u64) {
        1
    }

    fn plus(self, rhs: u64) -> (r: u64) {
        self.wrapping_add(rhs)
    }

    fn minus(self, rhs: u64) -> (r: u64) {
        self.wrapping_sub(rhs)
    }

    fn times(self, rhs: u64) -> (r: u64) {
        self.wrapping_mul(rhs)
    }
}

/// Signed integers with two's complement wrap-around.
impl Element for i64 {
    open spec fn zero_value() -> i64 {
        0
    }

    open spec fn one_value() -> i64 {
        1
    }

    open spec fn sum(a: i64, b: i64) -> i64 {
        a.wrapping_add(b)
    }

    open spec fn difference(a: i64, b: i64) -> i64 {
        a.wrapping_sub(b)
    }

    open spec fn product(a: i64, b: i64) -> i64 {
        a.wrapping_mul(b)
    }

    fn zero() -> (r: i64) {
        0
    }

    fn one() -> (r: i64) {
        1
    }

    fn plus(self, rhs: i64) -> (r: i64) {
        self.wrapping_add(rhs)
    }

    fn minus(self, rhs: i64) -> (r: i64) {
        self.wrapping_sub(rhs)
    }

    fn times(self, rhs: i64) -> (r: i64) {
        self.wrapping_mul(rhs)
    }
}

/// `n` zeros.
pub open spec fn zeros<T: Element>(n: int) -> Seq<T> {
    Seq::new(n as nat, |i: int| T::zero_value())
}

/// A buffer of `n` zeros.
pub fn zero_buffer<T: Element>(n: usize) -> (r: Vec<T>)
    ensures
        r@ == zeros::<T>(n as int),
{
    let zero = T::zero();
    let mut content: Vec<T> = Vec::with_capacity(n);
    let mut i: usize = 0;
    while i < n
        invariant
            i <= n,
            content@.len() == i,
            zero == T::zero_value(),
            forall|j: int| 0 <= j < i ==> content@[j] == T::zero_value(),
        decreases n - i,
    {
        content.push(zero);
        i += 1;
    }
    assert(content@ =~= zeros::<T>(n as int));
    content
}

} // verus!
