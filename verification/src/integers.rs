//! The integers with wrap-around obey the laws of a ring.
use crate::element::Element;
use crate::laws::has_unit_laws;
use crate::ring::has_ring_laws;
use vstd::arithmetic::div_mod::{
    lemma_add_mod_noop, lemma_fundamental_div_mod, lemma_mod_multiples_vanish, lemma_mul_mod_noop,
    lemma_small_mod,
};
use vstd::prelude::*;

verus! {

/// The number of values of a 64-bit integer.
pub open spec fn range() -> int {
    0x1_0000_0000_0000_0000
}

/// The sum and the product with wrap-around are the sum and the product of
/// the integers, reduced modulo 2^64.
proof fn lemma_u64_operations(a: u64, b: u64)
    ensures
        u64::sum(a, b) == (a + b) % range(),
        u64::product(a, b) == (a * b) % range(),
{
    if a + b > u64::MAX {
        lemma_mod_multiples_vanish(-1, a + b, range());
        lemma_small_mod((a + b - range()) as nat, range() as nat);
    } else {
        lemma_small_mod((a + b) as nat, range() as nat);
    }
    assert(a as nat * b as nat == a * b) by (nonlinear_arith);
}

/// The integers modulo 2^64 obey the laws of a ring.
pub proof fn lemma_ring_laws_u64()
    ensures
        has_ring_laws::<u64>(),
{
    reveal(has_ring_laws);
    assert forall|a: u64, b: u64, c: u64| #[trigger]
        u64::product(a, u64::sum(b, c)) == u64::sum(u64::product(a, b), u64::product(a, c)) by {
        let r = range();
        let s = u64::sum(b, c);
        lemma_u64_operations(b, c);
        lemma_u64_operations(a, s);
        lemma_u64_operations(a, b);
        lemma_u64_operations(a, c);
        lemma_u64_operations(u64::product(a, b), u64::product(a, c));
        lemma_mul_mod_noop(a as int, b + c, r);
        lemma_small_mod(a as nat, r as nat);
        assert(a * (b + c) == a * b + a * c) by (nonlinear_arith);
        lemma_add_mod_noop(a * b, a * c, r);
    }
    assert forall|a: u64, b: u64, c: u64| #[trigger]
        u64::product(u64::sum(a, b), c) == u64::sum(u64::product(a, c), u64::product(b, c)) by {
        let r = range();
        let s = u64::sum(a, b);
        lemma_u64_operations(a, b);
        lemma_u64_operations(s, c);
        lemma_u64_operations(a, c);
        lemma_u64_operations(b, c);
        lemma_u64_operations(u64::product(a, c), u64::product(b, c));
        lemma_mul_mod_noop(a + b, c as int, r);
        lemma_small_mod(c as nat, r as nat);
        assert((a + b) * c == a * c + b * c) by (nonlinear_arith);
        lemma_add_mod_noop(a * c, b * c, r);
    }
}

/// The integers modulo 2^64 have the unit laws.
pub proof fn lemma_unit_laws_u64()
    ensures
        has_unit_laws::<u64>(),
{
    assert forall|a: u64| #[trigger] u64::product(0u64, a) == 0u64 by {
        assert(0 * a == 0) by (nonlinear_arith);
    }
    assert forall|a: u64| #[trigger] u64::product(a, 0u64) == 0u64 by {
        assert(a * 0 == 0) by (nonlinear_arith);
    }
    assert forall|a: u64| #[trigger] u64::product(1u64, a) == a by {
        assert(1 * a == a) by (nonlinear_arith);
    }
    assert forall|a: u64| #[trigger] u64::product(a, 1u64) == a by {
        assert(a * 1 == a) by (nonlinear_arith);
    }
}

/// The signed integer that is congruent to `x` modulo 2^64.
pub open spec fn cropped(x: int) -> i64 {
    if x % range() > i64::MAX {
        (x % range() - range()) as i64
    } else {
        (x % range()) as i64
    }
}

/// A signed integer is what is left of any integer that it is congruent
/// to.
proof fn lemma_cropped(x: int, y: i64)
    requires
        (x - y) % range() == 0,
    ensures
        cropped(x) == y,
{
    let r = range();
    lemma_fundamental_div_mod(x - y, r);
    let k = (x - y) / r;
    assert(x == r * k + y);
    if y >= 0 {
        lemma_mod_multiples_vanish(k, y as int, r);
        lemma_small_mod(y as nat, r as nat);
    } else {
        assert(x == r * (k - 1) + (y + r)) by (nonlinear_arith)
            requires
                x == r * k + y,
        ;
        lemma_mod_multiples_vanish(k - 1, y + r, r);
        lemma_small_mod((y + r) as nat, r as nat);
    }
}

/// What is left of an integer is congruent to it.
proof fn lemma_cropped_congruent(x: int)
    ensures
        (x - cropped(x)) % range() == 0,
{
    let r = range();
    lemma_fundamental_div_mod(x, r);
    if x % r > i64::MAX {
        assert(x - (x % r - r) == r * (x / r + 1)) by (nonlinear_arith)
            requires
                x == r * (x / r) + x % r,
        ;
        lemma_mod_multiples_vanish(x / r + 1, 0, r);
    } else {
        lemma_mod_multiples_vanish(x / r, 0, r);
    }
}

/// The sum, the difference and the product with wrap-around are what is
/// left of the sum, the difference and the product of the integers.
proof fn lemma_i64_operations(a: i64, b: i64)
    ensures
        i64::sum(a, b) == cropped(a + b),
        i64::difference(a, b) == cropped(a - b),
        i64::product(a, b) == cropped(a * b),
{
    let r = range();
    lemma_mod_multiples_vanish(1, 0, r);
    lemma_mod_multiples_vanish(-1, 0, r);
    lemma_mod_multiples_vanish(0, 0, r);
    lemma_cropped(a + b, i64::sum(a, b));
    lemma_cropped(a - b, i64::difference(a, b));
}

/// Two integers with a difference that is a multiple of 2^64 leave the
/// same.
proof fn lemma_cropped_same(x: int, y: int)
    requires
        (x - y) % range() == 0,
    ensures
        cropped(x) == cropped(y),
{
    let r = range();
    lemma_cropped_congruent(y);
    lemma_fundamental_div_mod(x - y, r);
    lemma_fundamental_div_mod(y - cropped(y), r);
    let k = (x - y) / r + (y - cropped(y)) / r;
    assert(x - cropped(y) == r * k) by (nonlinear_arith)
        requires
            x - y == r * ((x - y) / r),
            y - cropped(y) == r * ((y - cropped(y)) / r),
            k == (x - y) / r + (y - cropped(y)) / r,
    ;
    lemma_mod_multiples_vanish(k, 0, r);
    lemma_cropped(x, cropped(y));
}

/// The signed integers with wrap-around obey the laws of a ring.
pub proof fn lemma_ring_laws_i64()
    ensures
        has_ring_laws::<i64>(),
{
    reveal(has_ring_laws);
    assert forall|a: i64, b: i64, c: i64| #[trigger]
        i64::product(a, i64::sum(b, c)) == i64::sum(i64::product(a, b), i64::product(a, c)) by {
        let r = range();
        let s = i64::sum(b, c);
        let p = i64::product(a, b);
        let q = i64::product(a, c);
        lemma_i64_operations(b, c);
        lemma_i64_operations(a, s);
        lemma_i64_operations(a, b);
        lemma_i64_operations(a, c);
        lemma_i64_operations(p, q);
        lemma_cropped_congruent(b + c);
        lemma_cropped_congruent(a * b);
        lemma_cropped_congruent(a * c);
        lemma_fundamental_div_mod(b + c - s, r);
        lemma_fundamental_div_mod(a * b - p, r);
        lemma_fundamental_div_mod(a * c - q, r);
        let k1 = (b + c - s) / r;
        let k2 = (a * b - p) / r;
        let k3 = (a * c - q) / r;
        let k = k2 + k3 - a * k1;
        assert(a * s - (p + q) == r * k) by (nonlinear_arith)
            requires
                b + c - s == r * k1,
                a * b - p == r * k2,
                a * c - q == r * k3,
                k == k2 + k3 - a * k1,
        ;
        lemma_mod_multiples_vanish(k, 0, r);
        lemma_cropped_same(a * s, p + q);
    }
    assert forall|a: i64, b: i64, c: i64| #[trigger]
        i64::product(i64::sum(a, b), c) == i64::sum(i64::product(a, c), i64::product(b, c)) by {
        let r = range();
        let s = i64::sum(a, b);
        let p = i64::product(a, c);
        let q = i64::product(b, c);
        lemma_i64_operations(a, b);
        lemma_i64_operations(s, c);
        lemma_i64_operations(a, c);
        lemma_i64_operations(b, c);
        lemma_i64_operations(p, q);
        lemma_cropped_congruent(a + b);
        lemma_cropped_congruent(a * c);
        lemma_cropped_congruent(b * c);
        lemma_fundamental_div_mod(a + b - s, r);
        lemma_fundamental_div_mod(a * c - p, r);
        lemma_fundamental_div_mod(b * c - q, r);
        let k1 = (a + b - s) / r;
        let k2 = (a * c - p) / r;
        let k3 = (b * c - q) / r;
        let k = k2 + k3 - c * k1;
        assert(s * c - (p + q) == r * k) by (nonlinear_arith)
            requires
                a + b - s == r * k1,
                a * c - p == r * k2,
                b * c - q == r * k3,
                k == k2 + k3 - c * k1,
        ;
        lemma_mod_multiples_vanish(k, 0, r);
        lemma_cropped_same(s * c, p + q);
    }
}

/// The signed integers with wrap-around have the unit laws.
pub proof fn lemma_unit_laws_i64()
    ensures
        has_unit_laws::<i64>(),
{
    assert forall|a: i64| #[trigger] i64::product(0i64, a) == 0i64 by {
        assert(0 * a == 0) by (nonlinear_arith);
    }
    assert forall|a: i64| #[trigger] i64::product(a, 0i64) == 0i64 by {
        assert(a * 0 == 0) by (nonlinear_arith);
    }
    assert forall|a: i64| #[trigger] i64::product(1i64, a) == a by {
        assert(1 * a == a) by (nonlinear_arith);
    }
    assert forall|a: i64| #[trigger] i64::product(a, 1i64) == a by {
        assert(a * 1 == a) by (nonlinear_arith);
    }
}

} // verus!
