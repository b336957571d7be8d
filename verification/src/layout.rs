//! The Z-order permutation: where an element of a square matrix lies in a
//! buffer that is laid out as a quad-tree of fragments.
//!
//! A block of side `s` whose side is the fragment size `f` is stored row by
//! row. A larger block is stored as its four quarters of side `s / 2`, one
//! after the other: top-left, top-right, bottom-left, bottom-right.
use crate::index::lemma_quotient;
use vstd::arithmetic::div_mod::lemma_fundamental_div_mod;
use vstd::arithmetic::power2::is_pow2;
use vstd::prelude::*;

verus! {

/// A side that the layout accepts: the fragment size times a power of two.
pub open spec fn legal_side(n: int, f: int) -> bool {
    f > 0 && n % f == 0 && is_pow2(n / f)
}

/// Whether a block of side `s` is stored row by row.
pub open spec fn is_leaf(s: int, f: int) -> bool {
    s <= f || s < 2
}

/// The buffer index of the element in column `x` and row `y` of a block
/// of side `s`.
pub open spec fn z_index(x: int, y: int, s: int, f: int) -> int
    decreases s,
{
    if is_leaf(s, f) {
        x + s * y
    } else {
        let h = s / 2;
        let right: int = if x < h { 0 } else { 1 };
        let lower: int = if y < h { 0 } else { 1 };
        (right + 2 * lower) * (h * h) + z_index(x - right * h, y - lower * h, h, f)
    }
}

/// The column of the element at buffer index `i` of a block of side `s`.
pub open spec fn z_col(i: int, s: int, f: int) -> int
    decreases s,
{
    if is_leaf(s, f) {
        i % s
    } else {
        let h = s / 2;
        let q = i / (h * h);
        (q % 2) * h + z_col(i % (h * h), h, f)
    }
}

/// The row of the element at buffer index `i` of a block of side `s`.
pub open spec fn z_row(i: int, s: int, f: int) -> int
    decreases s,
{
    if is_leaf(s, f) {
        i / s
    } else {
        let h = s / 2;
        let q = i / (h * h);
        (q / 2) * h + z_row(i % (h * h), h, f)
    }
}

/// The number of ones in the binary form of `n`.
pub open spec fn popcount(n: nat) -> nat
    decreases n,
{
    if n == 0 {
        0
    } else {
        n % 2 + popcount(n / 2)
    }
}

/// Only zero has no one in its binary form.
pub proof fn lemma_popcount_zero(n: nat)
    ensures
        popcount(n) == 0 <==> n == 0,
    decreases n,
{
    if n != 0 {
        lemma_popcount_zero(n / 2);
    }
}

/// The numbers with a single one in their binary form are the powers of
/// two.
pub proof fn lemma_popcount_one(n: nat)
    ensures
        popcount(n) == 1 <==> is_pow2(n as int),
    decreases n,
{
    reveal(is_pow2);
    if n > 1 {
        lemma_popcount_one(n / 2);
        lemma_popcount_zero(n / 2);
    } else if n == 1 {
        assert(popcount(0) == 0);
    }
}

/// A legal side is at least the fragment size.
pub proof fn lemma_legal_side_bounds(s: int, f: int)
    requires
        legal_side(s, f),
    ensures
        0 < f <= s,
        is_leaf(s, f) <==> s == f,
{
    reveal(is_pow2);
    let k = s / f;
    lemma_fundamental_div_mod(s, f);
    assert(k >= 1);
    assert(f * k >= f) by (nonlinear_arith)
        requires
            k >= 1,
            f > 0,
    ;
    if s != f {
        assert(k != 1) by {
            if k == 1 {
                assert(f * k == f) by (nonlinear_arith)
                    requires
                        k == 1,
                ;
            }
        }
        assert(f * k >= 2 * f) by (nonlinear_arith)
            requires
                k >= 2,
                f > 0,
        ;
    }
}

/// A legal side that is not the fragment size itself is even, and its
/// half is legal again.
pub proof fn lemma_legal_half(s: int, f: int)
    requires
        legal_side(s, f),
        s != f,
    ensures
        s % 2 == 0,
        f <= s / 2 < s,
        legal_side(s / 2, f),
        !is_leaf(s, f),
{
    reveal(is_pow2);
    let k = s / f;
    lemma_fundamental_div_mod(s, f);
    assert(k >= 1);
    assert(k != 1) by {
        if k == 1 {
            assert(f * k == f) by (nonlinear_arith)
                requires
                    k == 1,
            ;
        }
    }
    let j = k / 2;
    assert(k == 2 * j);
    assert(f * k == 2 * (f * j)) by (nonlinear_arith)
        requires
            k == 2 * j,
    ;
    assert(s / 2 == f * j);
    assert(is_pow2(j));
    assert(j >= 1);
    assert(f * j >= f) by (nonlinear_arith)
        requires
            j >= 1,
            f > 0,
    ;
    assert(f * j == j * f) by (nonlinear_arith);
    lemma_quotient(s / 2, f, j, 0);
}

/// The square of a legal side, for any legal side.
pub proof fn lemma_quarters(s: int)
    requires
        s >= 0,
        s % 2 == 0,
    ensures
        s * s == 4 * ((s / 2) * (s / 2)),
        (s / 2) * (s / 2) >= 0,
{
    let h = s / 2;
    assert(s == 2 * h);
    assert((2 * h) * (2 * h) == 4 * (h * h)) by (nonlinear_arith);
    assert(h * h >= 0) by (nonlinear_arith);
}

/// The index of an element of the block lies in the block's buffer.
pub proof fn lemma_z_index_bounds(x: int, y: int, s: int, f: int)
    requires
        legal_side(s, f),
        0 <= x < s,
        0 <= y < s,
    ensures
        0 <= z_index(x, y, s, f) < s * s,
    decreases s,
{
    lemma_legal_side_bounds(s, f);
    if s == f {
        assert(x + s * y < s * s && x + s * y >= 0) by (nonlinear_arith)
            requires
                0 <= x < s,
                0 <= y < s,
        ;
    } else {
        lemma_legal_half(s, f);
        lemma_quarters(s);
        let h = s / 2;
        let right: int = if x < h { 0 } else { 1 };
        let lower: int = if y < h { 0 } else { 1 };
        lemma_z_index_bounds(x - right * h, y - lower * h, h, f);
        let q = right + 2 * lower;
        assert(q * (h * h) >= 0 && q * (h * h) + h * h <= 4 * (h * h)) by (nonlinear_arith)
            requires
                0 <= q <= 3,
                h * h >= 0,
        ;
    }
}

/// The element at an index of the block's buffer lies in the block.
pub proof fn lemma_z_coords_bounds(i: int, s: int, f: int)
    requires
        legal_side(s, f),
        0 <= i < s * s,
    ensures
        0 <= z_col(i, s, f) < s,
        0 <= z_row(i, s, f) < s,
    decreases s,
{
    lemma_legal_side_bounds(s, f);
    if s == f {
        lemma_fundamental_div_mod(i, s);
        assert(0 <= i / s < s) by (nonlinear_arith)
            requires
                0 <= i < s * s,
                s > 0,
                i == s * (i / s) + i % s,
                0 <= i % s < s,
        ;
    } else {
        lemma_legal_half(s, f);
        lemma_quarters(s);
        let h = s / 2;
        let b = h * h;
        assert(b > 0) by (nonlinear_arith)
            requires
                h > 0,
                b == h * h,
        ;
        lemma_fundamental_div_mod(i, b);
        let q = i / b;
        assert(0 <= q < 4) by (nonlinear_arith)
            requires
                0 <= i < 4 * b,
                b > 0,
                i == b * q + i % b,
                0 <= i % b < b,
        ;
        lemma_z_coords_bounds(i % b, h, f);
        assert((q % 2) * h == if q % 2 == 0 { 0 } else { h }) by (nonlinear_arith)
            requires
                0 <= q % 2 < 2,
        ;
        assert((q / 2) * h == if q / 2 == 0 { 0 } else { h }) by (nonlinear_arith)
            requires
                0 <= q / 2 < 2,
        ;
    }
}

/// Going from an index to its coordinates and back gives the index.
pub proof fn lemma_z_index_of_coords(i: int, s: int, f: int)
    requires
        legal_side(s, f),
        0 <= i < s * s,
    ensures
        z_index(z_col(i, s, f), z_row(i, s, f), s, f) == i,
    decreases s,
{
    lemma_legal_side_bounds(s, f);
    if s == f {
        lemma_fundamental_div_mod(i, s);
    } else {
        lemma_legal_half(s, f);
        lemma_quarters(s);
        let h = s / 2;
        let b = h * h;
        assert(b > 0) by (nonlinear_arith)
            requires
                h > 0,
                b == h * h,
        ;
        lemma_fundamental_div_mod(i, b);
        let q = i / b;
        assert(0 <= q < 4) by (nonlinear_arith)
            requires
                0 <= i < 4 * b,
                b > 0,
                i == b * q + i % b,
                0 <= i % b < b,
        ;
        lemma_z_coords_bounds(i % b, h, f);
        lemma_z_index_of_coords(i % b, h, f);
        let x = z_col(i, s, f);
        let y = z_row(i, s, f);
        let right: int = if x < h { 0 } else { 1 };
        let lower: int = if y < h { 0 } else { 1 };
        assert((q % 2) * h == if q % 2 == 0 { 0 } else { h }) by (nonlinear_arith)
            requires
                0 <= q % 2 < 2,
        ;
        assert((q / 2) * h == if q / 2 == 0 { 0 } else { h }) by (nonlinear_arith)
            requires
                0 <= q / 2 < 2,
        ;
        assert(right == q % 2);
        assert(lower == q / 2);
        assert(right * h == (q % 2) * h);
        assert(lower * h == (q / 2) * h);
        assert(right + 2 * lower == q);
        assert(q * b == b * q) by (nonlinear_arith);
    }
}

/// Going from the coordinates of an element to its index and back gives
/// the coordinates.
pub proof fn lemma_z_coords_of_index(x: int, y: int, s: int, f: int)
    requires
        legal_side(s, f),
        0 <= x < s,
        0 <= y < s,
    ensures
        z_col(z_index(x, y, s, f), s, f) == x,
        z_row(z_index(x, y, s, f), s, f) == y,
    decreases s,
{
    lemma_legal_side_bounds(s, f);
    if s == f {
        assert(x + s * y == y * s + x) by (nonlinear_arith);
        lemma_quotient(x + s * y, s, y, x);
    } else {
        lemma_legal_half(s, f);
        lemma_quarters(s);
        let h = s / 2;
        let b = h * h;
        let right: int = if x < h { 0 } else { 1 };
        let lower: int = if y < h { 0 } else { 1 };
        let q = right + 2 * lower;
        let inner = z_index(x - right * h, y - lower * h, h, f);
        lemma_z_index_bounds(x - right * h, y - lower * h, h, f);
        lemma_z_coords_of_index(x - right * h, y - lower * h, h, f);
        assert(b > 0) by (nonlinear_arith)
            requires
                h > 0,
                b == h * h,
        ;
        lemma_quotient(q * b + inner, b, q, inner);
        assert((q % 2) * h == right * h);
        assert((q / 2) * h == lower * h);
    }
}

/// The elements of the block of side `s` whose top-left corner is in column
/// `x0` and row `y0` of the row-major buffer `m` of width `n`, in Z-order.
pub open spec fn z_block<T>(m: Seq<T>, n: int, x0: int, y0: int, s: int, f: int) -> Seq<T> {
    Seq::new((s * s) as nat, |i: int| m[(x0 + z_col(i, s, f)) + n * (y0 + z_row(i, s, f))])
}

/// The Z-order buffer of the square matrix of side `n` whose row-major
/// buffer is `m`.
pub open spec fn to_z<T>(m: Seq<T>, n: int, f: int) -> Seq<T> {
    z_block(m, n, 0, 0, n, f)
}

/// The row-major buffer of the square matrix of side `n` whose Z-order
/// buffer is `z`.
pub open spec fn from_z<T>(z: Seq<T>, n: int, f: int) -> Seq<T> {
    Seq::new((n * n) as nat, |j: int| z[z_index(j % n, j / n, n, f)])
}

/// A block in Z-order is its four quarters in Z-order, one after the
/// other.
pub proof fn lemma_z_block_quarters<T>(m: Seq<T>, n: int, x0: int, y0: int, s: int, f: int)
    requires
        legal_side(s, f),
        s != f,
    ensures
        z_block(m, n, x0, y0, s, f) == z_block(m, n, x0, y0, s / 2, f) + z_block(
            m,
            n,
            x0 + s / 2,
            y0,
            s / 2,
            f,
        ) + z_block(m, n, x0, y0 + s / 2, s / 2, f) + z_block(
            m,
            n,
            x0 + s / 2,
            y0 + s / 2,
            s / 2,
            f,
        ),
{
    lemma_legal_half(s, f);
    lemma_quarters(s);
    let h = s / 2;
    let b = h * h;
    let whole = z_block(m, n, x0, y0, s, f);
    let parts = z_block(m, n, x0, y0, h, f) + z_block(m, n, x0 + h, y0, h, f) + z_block(
        m,
        n,
        x0,
        y0 + h,
        h,
        f,
    ) + z_block(m, n, x0 + h, y0 + h, h, f);
    assert(b > 0) by (nonlinear_arith)
        requires
            h > 0,
            b == h * h,
    ;
    assert(whole.len() == parts.len());
    assert forall|i: int| 0 <= i < whole.len() implies whole[i] == parts[i] by {
        let q: int = if i < b {
            0
        } else if i < 2 * b {
            1
        } else if i < 3 * b {
            2
        } else {
            3
        };
        assert(q * b == if q == 0 {
            0
        } else if q == 1 {
            b
        } else if q == 2 {
            2 * b
        } else {
            3 * b
        }) by (nonlinear_arith)
            requires
                0 <= q < 4,
        ;
        lemma_quotient(i, b, q, i - q * b);
        assert((q % 2) * h == if q % 2 == 0 { 0 } else { h }) by (nonlinear_arith)
            requires
                0 <= q % 2 < 2,
        ;
        assert((q / 2) * h == if q / 2 == 0 { 0 } else { h }) by (nonlinear_arith)
            requires
                0 <= q / 2 < 2,
        ;
    }
    assert(whole =~= parts);
}

/// Reordering a matrix into Z-order and back gives the matrix.
pub proof fn lemma_there_and_back<T>(m: Seq<T>, n: int, f: int)
    requires
        legal_side(n, f),
        m.len() == n * n,
    ensures
        from_z(to_z(m, n, f), n, f) == m,
{
    lemma_legal_side_bounds(n, f);
    let z = to_z(m, n, f);
    let back = from_z(z, n, f);
    assert forall|j: int| 0 <= j < n * n implies back[j] == m[j] by {
        lemma_fundamental_div_mod(j, n);
        let x = j % n;
        let y = j / n;
        assert(0 <= y < n) by (nonlinear_arith)
            requires
                0 <= j < n * n,
                n > 0,
                j == n * y + x,
                0 <= x < n,
        ;
        lemma_z_index_bounds(x, y, n, f);
        lemma_z_coords_of_index(x, y, n, f);
    }
    assert(back =~= m);
}

/// Reordering a Z-order buffer into row-major order and back gives the
/// buffer.
pub proof fn lemma_back_and_there<T>(z: Seq<T>, n: int, f: int)
    requires
        legal_side(n, f),
        z.len() == n * n,
    ensures
        to_z(from_z(z, n, f), n, f) == z,
{
    lemma_legal_side_bounds(n, f);
    let m = from_z(z, n, f);
    let there = to_z(m, n, f);
    assert forall|i: int| 0 <= i < n * n implies there[i] == z[i] by {
        lemma_z_coords_bounds(i, n, f);
        lemma_z_index_of_coords(i, n, f);
        let x = z_col(i, n, f);
        let y = z_row(i, n, f);
        assert(0 <= x + n * y < n * n) by (nonlinear_arith)
            requires
                0 <= x < n,
                0 <= y < n,
        ;
        assert(x + n * y == y * n + x) by (nonlinear_arith);
        lemma_quotient(x + n * y, n, y, x);
    }
    assert(there =~= z);
}

/// Of two powers of two, the smaller divides the half of the larger.
proof fn lemma_smaller_power_divides(p: int, q: int)
    requires
        is_pow2(p),
        is_pow2(q),
        q < p,
    ensures
        p % 2 == 0,
        1 <= q <= p / 2,
        (p / 2) % q == 0,
    decreases p,
{
    reveal(is_pow2);
    let half = p / 2;
    if q == half {
        lemma_quotient(half, q, 1, 0);
    } else if q < half {
        lemma_smaller_power_divides(half, q);
        lemma_fundamental_div_mod(half / 2, q);
        let k = (half / 2) / q;
        assert(half == (2 * k) * q) by (nonlinear_arith)
            requires
                half == 2 * (half / 2),
                half / 2 == q * k,
        ;
        lemma_quotient(half, q, 2 * k, 0);
    } else {
        lemma_smaller_power_divides(half, q / 2);
    }
}

/// A side that is legal and smaller than another legal side is at most its
/// half and divides its half.
proof fn lemma_smaller_side_divides(big: int, small: int, f: int)
    requires
        legal_side(big, f),
        legal_side(small, f),
        small < big,
    ensures
        big % 2 == 0,
        0 < small <= big / 2,
        (big / 2) % small == 0,
{
    lemma_legal_side_bounds(small, f);
    lemma_legal_half(big, f);
    lemma_fundamental_div_mod(big, f);
    lemma_fundamental_div_mod(small, f);
    let p = big / f;
    let q = small / f;
    assert(q < p) by (nonlinear_arith)
        requires
            f * q < f * p,
            f > 0,
    ;
    lemma_smaller_power_divides(p, q);
    lemma_fundamental_div_mod(p / 2, q);
    let k = (p / 2) / q;
    assert(big / 2 == k * small && k >= 1) by (nonlinear_arith)
        requires
            big == f * p,
            small == f * q,
            p == 2 * (p / 2),
            p / 2 == q * k,
            big == 2 * (big / 2),
            q >= 1,
            p / 2 >= q,
            f > 0,
    ;
    lemma_quotient(big / 2, small, k, 0);
    assert(k * small >= small) by (nonlinear_arith)
        requires
            k >= 1,
            small > 0,
    ;
}

/// A stretch of `s` that starts at a multiple of `s` inside a range that
/// is made of two halves, each a multiple of `s` long, lies in one of the
/// halves, and starts at a multiple of `s` from where that half starts.
proof fn lemma_aligned_in_half(d: int, s: int, h: int)
    requires
        0 < s,
        0 <= d,
        d + s <= 2 * h,
        d % s == 0,
        h % s == 0,
    ensures
        d + s <= h || h <= d,
        h <= d ==> (d - h) % s == 0,
{
    lemma_fundamental_div_mod(d, s);
    lemma_fundamental_div_mod(h, s);
    let j = d / s;
    let k = h / s;
    if j < k {
        assert(s * j + s <= s * k) by (nonlinear_arith)
            requires
                j < k,
                s > 0,
        ;
    } else {
        assert(s * j >= s * k && s * j - s * k == (j - k) * s) by (nonlinear_arith)
            requires
                j >= k,
                s > 0,
        ;
        lemma_quotient(d - h, s, j - k, 0);
    }
}

/// Block locality: a block whose side is legal and whose corner lies at
/// multiples of its side from the corner of a larger block holds one
/// stretch of the larger block's buffer, which starts where the buffer
/// holds the smaller block's corner.
pub proof fn lemma_block_is_contiguous<T>(
    m: Seq<T>,
    n: int,
    x0: int,
    y0: int,
    big: int,
    x: int,
    y: int,
    small: int,
    f: int,
)
    requires
        legal_side(big, f),
        legal_side(small, f),
        x0 <= x,
        y0 <= y,
        x + small <= x0 + big,
        y + small <= y0 + big,
        (x - x0) % small == 0,
        (y - y0) % small == 0,
    ensures
        ({
            let at = z_index(x - x0, y - y0, big, f);
            &&& 0 <= at
            &&& at + small * small <= big * big
            &&& z_block(m, n, x0, y0, big, f).subrange(at, at + small * small) == z_block(
                m,
                n,
                x,
                y,
                small,
                f,
            )
        }),
    decreases big,
{
    lemma_legal_side_bounds(big, f);
    lemma_legal_side_bounds(small, f);
    let at = z_index(x - x0, y - y0, big, f);
    let whole = z_block(m, n, x0, y0, big, f);
    let part = z_block(m, n, x, y, small, f);
    assert(small * small >= 0 && big * big >= 0) by (nonlinear_arith);
    if small == big {
        lemma_fundamental_div_mod(x - x0, small);
        lemma_fundamental_div_mod(y - y0, small);
        assert(x == x0 && y == y0) by (nonlinear_arith)
            requires
                x - x0 == small * ((x - x0) / small),
                y - y0 == small * ((y - y0) / small),
                0 <= x - x0,
                0 <= y - y0,
                x - x0 + small <= small,
                y - y0 + small <= small,
                small > 0,
        ;
        lemma_z_index_bounds(0, 0, big, f);
        lemma_z_index_of_corner(big, f);
        assert(whole.subrange(0, big * big) =~= whole);
    } else {
        lemma_smaller_side_divides(big, small, f);
        lemma_legal_half(big, f);
        lemma_quarters(big);
        let h = big / 2;
        let b = h * h;
        lemma_aligned_in_half(x - x0, small, h);
        lemma_aligned_in_half(y - y0, small, h);
        let right: int = if x - x0 < h { 0 } else { 1 };
        let lower: int = if y - y0 < h { 0 } else { 1 };
        let q = right + 2 * lower;
        assert(right * h == (if right == 0 { 0 } else { h })) by (nonlinear_arith)
            requires
                0 <= right <= 1,
        ;
        assert(lower * h == (if lower == 0 { 0 } else { h })) by (nonlinear_arith)
            requires
                0 <= lower <= 1,
        ;
        assert(q * b == (if q == 0 {
            0
        } else if q == 1 {
            b
        } else if q == 2 {
            2 * b
        } else {
            3 * b
        })) by (nonlinear_arith)
            requires
                0 <= q < 4,
        ;
        let inner = z_index(x - x0 - right * h, y - y0 - lower * h, h, f);
        lemma_z_block_quarters(m, n, x0, y0, big, f);
        lemma_block_is_contiguous(m, n, x0 + right * h, y0 + lower * h, h, x, y, small, f);
        let quarter = z_block(m, n, x0 + right * h, y0 + lower * h, h, f);
        assert(at == q * b + inner);
        assert(whole.subrange(at, at + small * small) =~= quarter.subrange(
            inner,
            inner + small * small,
        ));
    }
}

/// The top-left corner of a block is the first element of its buffer.
proof fn lemma_z_index_of_corner(s: int, f: int)
    requires
        legal_side(s, f),
    ensures
        z_index(0, 0, s, f) == 0,
    decreases s,
{
    lemma_legal_side_bounds(s, f);
    if s != f {
        lemma_legal_half(s, f);
        lemma_z_index_of_corner(s / 2, f);
        assert(0 * ((s / 2) * (s / 2)) == 0) by (nonlinear_arith);
    } else {
        assert(s * 0 == 0) by (nonlinear_arith);
    }
}

} // verus!
