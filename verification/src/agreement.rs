//! For elements that obey the laws of a ring, every way to multiply gives
//! the same product: summing in lanes, and Strassen's scheme, give what the
//! plain sums give.
use crate::blocked::{
    lemma_blocked_sums_plainly, lemma_leaf_step, lemma_plain_kernel_sums_plainly,
    lemma_quarter_step, quarter, sums_plainly, z_accumulated, z_column_of, z_row_of,
};
use crate::element::{zeros, Element};
use crate::kernel::{FragMultiplyAdd, SimdMultiplyAdd, SimpleMultiplyAdd};
use crate::laws::lemma_z_product_is_plain_product;
use crate::layout::{
    from_z, legal_side, lemma_legal_half, lemma_legal_side_bounds, lemma_quarters,
    lemma_z_coords_bounds, lemma_z_index_bounds, to_z, z_col, z_row,
};
use crate::product::{column_of, dot_from, row_of};
use crate::ring::{
    has_ring_laws, lemma_cancel, lemma_dot_added_left, lemma_dot_added_right, lemma_dot_init,
    lemma_dot_subtracted_left, lemma_dot_subtracted_right, lemma_regroup, lemma_zero,
};
use crate::simd::{lane_accumulated, lane_dot, lane_sum, lanes_total, LANES};
use crate::simple::{accumulated, product_cells};
use crate::strassen::{added, strassen_block, strassen_products, subtracted};
use vstd::arithmetic::div_mod::lemma_fundamental_div_mod;
use vstd::prelude::*;

verus! {

/// The sum, formed from zero, of the partial sums of the first `k` lanes
/// after the first `n` products.
pub open spec fn lanes_total_at<T: Element>(u: Seq<T>, v: Seq<T>, k: int, n: int) -> T
    decreases k,
{
    if k <= 0 {
        T::zero_value()
    } else {
        T::sum(lanes_total_at(u, v, k - 1, n), lane_sum(u, v, k - 1, n))
    }
}

/// The total of the lanes is their total after the last product.
proof fn lemma_lanes_total_at<T: Element>(u: Seq<T>, v: Seq<T>, k: int)
    ensures
        lanes_total(u, v, k) == lanes_total_at(u, v, k, u.len() as int),
    decreases k,
{
    if k > 0 {
        lemma_lanes_total_at(u, v, k - 1);
    }
}

/// Before the first product the lanes hold zero, and so does their total.
proof fn lemma_lanes_start<T: Element>(u: Seq<T>, v: Seq<T>, k: int)
    requires
        has_ring_laws::<T>(),
    ensures
        lanes_total_at(u, v, k, 0) == T::zero_value(),
    decreases k,
{
    if k > 0 {
        lemma_lanes_start(u, v, k - 1);
        lemma_zero(T::zero_value());
    }
}

/// One more product adds its value to the total of the lanes, if its lane
/// is among them.
proof fn lemma_lanes_step<T: Element>(u: Seq<T>, v: Seq<T>, k: int, n: int)
    requires
        has_ring_laws::<T>(),
        0 <= k <= LANES,
        0 <= n,
    ensures
        lanes_total_at(u, v, k, n + 1) == if n % (LANES as int) < k {
            T::sum(lanes_total_at(u, v, k, n), T::product(u[n], v[n]))
        } else {
            lanes_total_at(u, v, k, n)
        },
    decreases k,
{
    if k > 0 {
        lemma_lanes_step(u, v, k - 1, n);
        let before = lanes_total_at(u, v, k - 1, n);
        let lane = lane_sum(u, v, k - 1, n);
        let term = T::product(u[n], v[n]);
        lemma_regroup(before, lane, term);
        lemma_regroup(before, term, lane);
    }
}

/// The lanes together hold the plain sum of the products.
proof fn lemma_lanes_hold_sum<T: Element>(u: Seq<T>, v: Seq<T>, n: int)
    requires
        has_ring_laws::<T>(),
        0 <= n,
    ensures
        lanes_total_at(u, v, LANES as int, n) == dot_from(T::zero_value(), u, v, n),
    decreases n,
{
    if n == 0 {
        lemma_lanes_start(u, v, LANES as int);
    } else {
        lemma_lanes_hold_sum(u, v, n - 1);
        lemma_lanes_step(u, v, LANES as int, n - 1);
    }
}

/// In a ring, the inner product summed in lanes is the inner product
/// summed term by term.
pub proof fn lemma_lane_dot_is_plain<T: Element>(u: Seq<T>, v: Seq<T>)
    requires
        has_ring_laws::<T>(),
    ensures
        lane_dot(u, v) == dot_from(T::zero_value(), u, v, u.len() as int),
{
    lemma_lanes_total_at(u, v, LANES as int);
    lemma_lanes_hold_sum(u, v, u.len() as int);
}

/// In a ring, the product summed in lanes is the plain product: the two
/// kernels leave the same in every cell.
pub proof fn lemma_lanes_give_plain_product<T: Element>(
    into: Seq<T>,
    a: Seq<T>,
    b: Seq<T>,
    w: int,
    h: int,
    l: int,
)
    requires
        has_ring_laws::<T>(),
        0 <= l,
    ensures
        lane_accumulated(into, a, b, w, h, l) == accumulated(into, a, b, w, h, l),
{
    let lanes = lane_accumulated(into, a, b, w, h, l);
    let plain = accumulated(into, a, b, w, h, l);
    assert forall|i: int| 0 <= i < lanes.len() implies lanes[i] == plain[i] by {
        let u = row_of(a, l, i / w);
        let v = column_of(b, w, l, i % w);
        lemma_lane_dot_is_plain(u, v);
        lemma_dot_init(into[i], u, v, l);
    }
    assert(lanes =~= plain);
}

/// In a ring, the kernel that sums in lanes sums plainly.
pub proof fn lemma_lane_kernel_sums_plainly<T: Element>()
    requires
        has_ring_laws::<T>(),
    ensures
        sums_plainly::<SimdMultiplyAdd, T>(),
{
    assert forall|init: T, u: Seq<T>, v: Seq<T>| #[trigger]
        SimdMultiplyAdd::cell(init, u, v) == dot_from(init, u, v, u.len() as int) by {
        lemma_lane_dot_is_plain(u, v);
        lemma_dot_init(init, u, v, u.len() as int);
    }
}

/// What the product of the blocks `a` and `b` of side `s` has in the cell
/// at position `i` of its buffer: the plain sum of the products of the
/// cell's row of `a` and column of `b`.
pub open spec fn entry<T: Element>(a: Seq<T>, b: Seq<T>, i: int, s: int, f: int) -> T {
    dot_from(
        T::zero_value(),
        z_row_of(a, z_row(i, s, f), s, f),
        z_column_of(b, z_col(i, s, f), s, f),
        s,
    )
}

/// In a ring, a block that takes up a product holds, in each cell, what
/// it held plus the entry of the product.
pub proof fn lemma_accumulated_entry<K: FragMultiplyAdd<T>, T: Element>(
    r: Seq<T>,
    a: Seq<T>,
    b: Seq<T>,
    s: int,
    f: int,
    i: int,
)
    requires
        has_ring_laws::<T>(),
        sums_plainly::<K, T>(),
        legal_side(s, f),
        0 <= i < s * s,
    ensures
        z_accumulated::<K, T>(r, a, b, s, f)[i] == T::sum(r[i], entry(a, b, i, s, f)),
{
    lemma_legal_side_bounds(s, f);
    let k = s / f;
    lemma_fundamental_div_mod(s, f);
    assert(k * f == s && k >= 0) by (nonlinear_arith)
        requires
            s == f * k,
            f > 0,
            s > 0,
    ;
    let u = z_row_of(a, z_row(i, s, f), s, f);
    let v = z_column_of(b, z_col(i, s, f), s, f);
    lemma_blocked_sums_plainly::<K, T>(r[i], u, v, f, k);
    lemma_dot_init(r[i], u, v, s);
}

/// The entries of a product are additive in the first factor.
proof fn lemma_entry_added_left<T: Element>(
    a1: Seq<T>,
    a2: Seq<T>,
    b: Seq<T>,
    i: int,
    s: int,
    f: int,
)
    requires
        has_ring_laws::<T>(),
        legal_side(s, f),
        0 <= i < s * s,
        a1.len() == s * s,
        a2.len() == s * s,
    ensures
        entry(added(a1, a2), b, i, s, f) == T::sum(entry(a1, b, i, s, f), entry(a2, b, i, s, f)),
{
    lemma_z_coords_bounds(i, s, f);
    let y = z_row(i, s, f);
    let v = z_column_of(b, z_col(i, s, f), s, f);
    assert(z_row_of(added(a1, a2), y, s, f) =~= added(z_row_of(a1, y, s, f), z_row_of(a2, y, s, f)))
        by {
        assert forall|p: int| 0 <= p < s implies z_row_of(added(a1, a2), y, s, f)[p] == added(
            z_row_of(a1, y, s, f),
            z_row_of(a2, y, s, f),
        )[p] by {
            lemma_z_index_bounds(p, y, s, f);
        }
    }
    lemma_dot_added_left(z_row_of(a1, y, s, f), z_row_of(a2, y, s, f), v, s);
}

/// The entries of a product are additive in the second factor.
proof fn lemma_entry_added_right<T: Element>(
    a: Seq<T>,
    b1: Seq<T>,
    b2: Seq<T>,
    i: int,
    s: int,
    f: int,
)
    requires
        has_ring_laws::<T>(),
        legal_side(s, f),
        0 <= i < s * s,
        b1.len() == s * s,
        b2.len() == s * s,
    ensures
        entry(a, added(b1, b2), i, s, f) == T::sum(entry(a, b1, i, s, f), entry(a, b2, i, s, f)),
{
    lemma_z_coords_bounds(i, s, f);
    let x = z_col(i, s, f);
    let u = z_row_of(a, z_row(i, s, f), s, f);
    assert(z_column_of(added(b1, b2), x, s, f) =~= added(
        z_column_of(b1, x, s, f),
        z_column_of(b2, x, s, f),
    )) by {
        assert forall|p: int| 0 <= p < s implies z_column_of(added(b1, b2), x, s, f)[p] == added(
            z_column_of(b1, x, s, f),
            z_column_of(b2, x, s, f),
        )[p] by {
            lemma_z_index_bounds(x, p, s, f);
        }
    }
    lemma_dot_added_right(u, z_column_of(b1, x, s, f), z_column_of(b2, x, s, f), s);
}

/// The entries of a product with a difference as its first factor.
proof fn lemma_entry_subtracted_left<T: Element>(
    a1: Seq<T>,
    a2: Seq<T>,
    b: Seq<T>,
    i: int,
    s: int,
    f: int,
)
    requires
        has_ring_laws::<T>(),
        legal_side(s, f),
        0 <= i < s * s,
        a1.len() == s * s,
        a2.len() == s * s,
    ensures
        entry(subtracted(a1, a2), b, i, s, f) == T::difference(
            entry(a1, b, i, s, f),
            entry(a2, b, i, s, f),
        ),
{
    lemma_z_coords_bounds(i, s, f);
    let y = z_row(i, s, f);
    let v = z_column_of(b, z_col(i, s, f), s, f);
    assert(z_row_of(subtracted(a1, a2), y, s, f) =~= subtracted(
        z_row_of(a1, y, s, f),
        z_row_of(a2, y, s, f),
    )) by {
        assert forall|p: int| 0 <= p < s implies z_row_of(subtracted(a1, a2), y, s, f)[p]
            == subtracted(z_row_of(a1, y, s, f), z_row_of(a2, y, s, f))[p] by {
            lemma_z_index_bounds(p, y, s, f);
        }
    }
    lemma_dot_subtracted_left(z_row_of(a1, y, s, f), z_row_of(a2, y, s, f), v, s);
}

/// The entries of a product with a difference as its second factor.
proof fn lemma_entry_subtracted_right<T: Element>(
    a: Seq<T>,
    b1: Seq<T>,
    b2: Seq<T>,
    i: int,
    s: int,
    f: int,
)
    requires
        has_ring_laws::<T>(),
        legal_side(s, f),
        0 <= i < s * s,
        b1.len() == s * s,
        b2.len() == s * s,
    ensures
        entry(a, subtracted(b1, b2), i, s, f) == T::difference(
            entry(a, b1, i, s, f),
            entry(a, b2, i, s, f),
        ),
{
    lemma_z_coords_bounds(i, s, f);
    let x = z_col(i, s, f);
    let u = z_row_of(a, z_row(i, s, f), s, f);
    assert(z_column_of(subtracted(b1, b2), x, s, f) =~= subtracted(
        z_column_of(b1, x, s, f),
        z_column_of(b2, x, s, f),
    )) by {
        assert forall|p: int| 0 <= p < s implies z_column_of(subtracted(b1, b2), x, s, f)[p]
            == subtracted(z_column_of(b1, x, s, f), z_column_of(b2, x, s, f))[p] by {
            lemma_z_index_bounds(x, p, s, f);
        }
    }
    lemma_dot_subtracted_right(u, z_column_of(b1, x, s, f), z_column_of(b2, x, s, f), s);
}

/// The top-left quarter of Strassen's scheme, for one cell: with the
/// products of the quarters written out, `m1 + m4 - m5 + m7` is the sum of
/// the two products that the quarter is made of.
proof fn lemma_top_left<T: Element>(p: T, q: T, e: T, g: T, c: T, d: T, k: T)
    requires
        has_ring_laws::<T>(),
    ensures
        ({
            let m1 = T::sum(T::sum(p, e), T::sum(c, d));
            let m4 = T::difference(g, c);
            let m5 = T::sum(e, k);
            let m7 = T::difference(T::sum(q, k), T::sum(g, d));
            T::sum(T::difference(T::sum(m1, m4), m5), m7) == T::sum(p, q)
        }),
{
    let m1 = T::sum(T::sum(p, e), T::sum(c, d));
    let m4 = T::difference(g, c);
    let m5 = T::sum(e, k);
    let m7 = T::difference(T::sum(q, k), T::sum(g, d));
    let s = T::difference(T::sum(m1, m4), m5);
    let rest = T::sum(T::sum(m5, c), T::sum(g, d));
    assert(T::sum(T::sum(s, m7), rest) == T::sum(T::sum(p, q), rest)) by {
        reveal(has_ring_laws);
        assert(T::sum(s, m5) == T::sum(m1, m4));
        assert(T::sum(m4, c) == g);
        assert(T::sum(m7, T::sum(g, d)) == T::sum(q, k));
        assert(T::sum(T::sum(s, m7), rest) == T::sum(
            T::sum(T::sum(s, m5), T::sum(m7, T::sum(g, d))),
            c,
        ));
        assert(T::sum(T::sum(T::sum(m1, m4), T::sum(q, k)), c) == T::sum(
            T::sum(m1, T::sum(m4, c)),
            T::sum(q, k),
        ));
    }
    lemma_cancel(T::sum(s, m7), T::sum(p, q), rest);
}

/// The top-right quarter of Strassen's scheme, for one cell: `m3 + m5`.
proof fn lemma_top_right<T: Element>(p: T, q: T, e: T)
    requires
        has_ring_laws::<T>(),
    ensures
        T::sum(T::difference(p, e), T::sum(e, q)) == T::sum(p, q),
{
    reveal(has_ring_laws);
    assert(T::sum(T::difference(p, e), e) == p);
    assert(T::sum(T::difference(p, e), T::sum(e, q)) == T::sum(
        T::sum(T::difference(p, e), e),
        q,
    ));
}

/// The bottom-left quarter of Strassen's scheme, for one cell: `m2 + m4`.
proof fn lemma_bottom_left<T: Element>(p: T, q: T, c: T)
    requires
        has_ring_laws::<T>(),
    ensures
        T::sum(T::sum(p, c), T::difference(q, c)) == T::sum(p, q),
{
    reveal(has_ring_laws);
    assert(T::sum(T::difference(q, c), c) == q);
    assert(T::sum(T::sum(p, c), T::difference(q, c)) == T::sum(
        p,
        T::sum(T::difference(q, c), c),
    ));
}

/// The bottom-right quarter of Strassen's scheme, for one cell:
/// `m1 - m2 + m3 + m6`.
proof fn lemma_bottom_right<T: Element>(p: T, q: T, x: T, e: T, c: T, g: T, n: T)
    requires
        has_ring_laws::<T>(),
    ensures
        ({
            let m1 = T::sum(T::sum(x, e), T::sum(c, q));
            let m2 = T::sum(g, c);
            let m3 = T::difference(n, e);
            let m6 = T::difference(T::sum(g, p), T::sum(x, n));
            T::sum(T::sum(T::difference(m1, m2), m3), m6) == T::sum(p, q)
        }),
{
    let m1 = T::sum(T::sum(x, e), T::sum(c, q));
    let m2 = T::sum(g, c);
    let m3 = T::difference(n, e);
    let m6 = T::difference(T::sum(g, p), T::sum(x, n));
    let s = T::difference(m1, m2);
    let rest = T::sum(T::sum(m2, e), T::sum(x, n));
    assert(T::sum(T::sum(T::sum(s, m3), m6), rest) == T::sum(T::sum(p, q), rest)) by {
        reveal(has_ring_laws);
        assert(T::sum(s, m2) == m1);
        assert(T::sum(m3, e) == n);
        assert(T::sum(m6, T::sum(x, n)) == T::sum(g, p));
        assert(T::sum(T::sum(T::sum(s, m3), m6), rest) == T::sum(
            T::sum(T::sum(s, m2), T::sum(m3, e)),
            T::sum(m6, T::sum(x, n)),
        ));
    }
    lemma_cancel(T::sum(T::sum(s, m3), m6), T::sum(p, q), rest);
}

/// In a ring, the product of two blocks, formed from zero, has the entries
/// of the product in its cells.
proof fn lemma_product_entry<K: FragMultiplyAdd<T>, T: Element>(
    a: Seq<T>,
    b: Seq<T>,
    s: int,
    f: int,
    i: int,
)
    requires
        has_ring_laws::<T>(),
        sums_plainly::<K, T>(),
        legal_side(s, f),
        0 <= i < s * s,
    ensures
        z_accumulated::<K, T>(zeros::<T>(s * s), a, b, s, f)[i] == entry(a, b, i, s, f),
{
    lemma_accumulated_entry::<K, T>(zeros::<T>(s * s), a, b, s, f, i);
    lemma_zero(entry(a, b, i, s, f));
}

/// In a ring, a cell of a quarter of the product of two blocks is the sum
/// of the entries of two products of quarters.
proof fn lemma_quarter_entries<K: FragMultiplyAdd<T>, T: Element>(
    a: Seq<T>,
    b: Seq<T>,
    s: int,
    f: int,
    right: int,
    lower: int,
    j: int,
)
    requires
        has_ring_laws::<T>(),
        sums_plainly::<K, T>(),
        legal_side(s, f),
        s != f,
        a.len() == s * s,
        b.len() == s * s,
        0 <= right <= 1,
        0 <= lower <= 1,
        0 <= j < (s / 2) * (s / 2),
    ensures
        ({
            let h = s / 2;
            let blk = h * h;
            z_accumulated::<K, T>(zeros::<T>(s * s), a, b, s, f)[(right + 2 * lower) * blk + j]
                == T::sum(
                entry(quarter(a, 2 * lower, blk), quarter(b, right, blk), j, h, f),
                entry(quarter(a, 2 * lower + 1, blk), quarter(b, right + 2, blk), j, h, f),
            )
        }),
{
    lemma_legal_half(s, f);
    lemma_quarters(s);
    let h = s / 2;
    let blk = h * h;
    let q = right + 2 * lower;
    let whole = z_accumulated::<K, T>(zeros::<T>(s * s), a, b, s, f);
    assert(q * blk == (if q == 0 {
        0
    } else if q == 1 {
        blk
    } else if q == 2 {
        2 * blk
    } else {
        3 * blk
    }) && (q + 1) * blk == q * blk + blk) by (nonlinear_arith)
        requires
            0 <= q < 4,
    ;
    lemma_quarter_step::<K, T>(zeros::<T>(s * s), a, b, s, f, right, lower);
    assert(quarter(zeros::<T>(s * s), q, blk) =~= zeros::<T>(blk));
    let first = z_accumulated::<K, T>(
        zeros::<T>(blk),
        quarter(a, 2 * lower, blk),
        quarter(b, right, blk),
        h,
        f,
    );
    lemma_product_entry::<K, T>(quarter(a, 2 * lower, blk), quarter(b, right, blk), h, f, j);
    lemma_accumulated_entry::<K, T>(
        first,
        quarter(a, 2 * lower + 1, blk),
        quarter(b, right + 2, blk),
        h,
        f,
        j,
    );
    assert(quarter(whole, q, blk)[j] == whole[q * blk + j]);
}

/// In a ring, Strassen's scheme gives the product: what it leaves in a
/// block that held zeros is what the recursive product leaves there, for
/// every kernel that sums plainly.
pub proof fn lemma_strassen_is_product<K: FragMultiplyAdd<T>, T: Element>(
    a: Seq<T>,
    b: Seq<T>,
    s: int,
    f: int,
)
    requires
        has_ring_laws::<T>(),
        sums_plainly::<K, T>(),
        legal_side(s, f),
        a.len() == s * s,
        b.len() == s * s,
    ensures
        strassen_block::<K, T>(zeros::<T>(s * s), a, b, s, f) == z_accumulated::<K, T>(
            zeros::<T>(s * s),
            a,
            b,
            s,
            f,
        ),
    decreases s,
{
    lemma_legal_side_bounds(s, f);
    let whole = z_accumulated::<K, T>(zeros::<T>(s * s), a, b, s, f);
    let scheme = strassen_block::<K, T>(zeros::<T>(s * s), a, b, s, f);
    if s == f {
        lemma_leaf_step::<K, T>(zeros::<T>(s * s), a, b, s);
    } else {
        lemma_legal_half(s, f);
        lemma_quarters(s);
        let h = s / 2;
        let blk = h * h;
        let a11 = quarter(a, 0, blk);
        let a12 = quarter(a, 1, blk);
        let a21 = quarter(a, 2, blk);
        let a22 = quarter(a, 3, blk);
        let b11 = quarter(b, 0, blk);
        let b12 = quarter(b, 1, blk);
        let b21 = quarter(b, 2, blk);
        let b22 = quarter(b, 3, blk);
        assert(0 * blk == 0 && 1 * blk == blk && 2 * blk == blk + blk && 3 * blk == blk + blk + blk
            && 4 * blk == blk + blk + blk + blk) by (nonlinear_arith);
        let m = strassen_products::<K, T>(a, b, s, f);
        lemma_strassen_is_product::<K, T>(added(a11, a22), added(b11, b22), h, f);
        lemma_strassen_is_product::<K, T>(added(a21, a22), b11, h, f);
        lemma_strassen_is_product::<K, T>(a11, subtracted(b12, b22), h, f);
        lemma_strassen_is_product::<K, T>(a22, subtracted(b21, b11), h, f);
        lemma_strassen_is_product::<K, T>(added(a11, a12), b22, h, f);
        lemma_strassen_is_product::<K, T>(subtracted(a21, a11), added(b11, b12), h, f);
        lemma_strassen_is_product::<K, T>(subtracted(a12, a22), added(b21, b22), h, f);
        let r11 = added(subtracted(added(m[0], m[3]), m[4]), m[6]);
        let r12 = added(m[2], m[4]);
        let r21 = added(m[1], m[3]);
        let r22 = added(added(subtracted(m[0], m[1]), m[2]), m[5]);
        assert(scheme == r11 + r12 + r21 + r22);
        assert forall|j: int| 0 <= j < blk implies r11[j] == whole[j] by {
            lemma_quarter_entries::<K, T>(a, b, s, f, 0, 0, j);
            lemma_product_entry::<K, T>(added(a11, a22), added(b11, b22), h, f, j);
            lemma_entry_added_left(a11, a22, added(b11, b22), j, h, f);
            lemma_entry_added_right(a11, b11, b22, j, h, f);
            lemma_entry_added_right(a22, b11, b22, j, h, f);
            lemma_product_entry::<K, T>(a22, subtracted(b21, b11), h, f, j);
            lemma_entry_subtracted_right(a22, b21, b11, j, h, f);
            lemma_product_entry::<K, T>(added(a11, a12), b22, h, f, j);
            lemma_entry_added_left(a11, a12, b22, j, h, f);
            lemma_product_entry::<K, T>(subtracted(a12, a22), added(b21, b22), h, f, j);
            lemma_entry_subtracted_left(a12, a22, added(b21, b22), j, h, f);
            lemma_entry_added_right(a12, b21, b22, j, h, f);
            lemma_entry_added_right(a22, b21, b22, j, h, f);
            lemma_top_left(
                entry(a11, b11, j, h, f),
                entry(a12, b21, j, h, f),
                entry(a11, b22, j, h, f),
                entry(a22, b21, j, h, f),
                entry(a22, b11, j, h, f),
                entry(a22, b22, j, h, f),
                entry(a12, b22, j, h, f),
            );
        }
        assert forall|j: int| 0 <= j < blk implies r12[j] == whole[blk + j] by {
            lemma_quarter_entries::<K, T>(a, b, s, f, 1, 0, j);
            lemma_product_entry::<K, T>(a11, subtracted(b12, b22), h, f, j);
            lemma_entry_subtracted_right(a11, b12, b22, j, h, f);
            lemma_product_entry::<K, T>(added(a11, a12), b22, h, f, j);
            lemma_entry_added_left(a11, a12, b22, j, h, f);
            lemma_top_right(
                entry(a11, b12, j, h, f),
                entry(a12, b22, j, h, f),
                entry(a11, b22, j, h, f),
            );
        }
        assert forall|j: int| 0 <= j < blk implies r21[j] == whole[2 * blk + j] by {
            lemma_quarter_entries::<K, T>(a, b, s, f, 0, 1, j);
            lemma_product_entry::<K, T>(added(a21, a22), b11, h, f, j);
            lemma_entry_added_left(a21, a22, b11, j, h, f);
            lemma_product_entry::<K, T>(a22, subtracted(b21, b11), h, f, j);
            lemma_entry_subtracted_right(a22, b21, b11, j, h, f);
            lemma_bottom_left(
                entry(a21, b11, j, h, f),
                entry(a22, b21, j, h, f),
                entry(a22, b11, j, h, f),
            );
        }
        assert forall|j: int| 0 <= j < blk implies r22[j] == whole[3 * blk + j] by {
            lemma_quarter_entries::<K, T>(a, b, s, f, 1, 1, j);
            lemma_product_entry::<K, T>(added(a11, a22), added(b11, b22), h, f, j);
            lemma_entry_added_left(a11, a22, added(b11, b22), j, h, f);
            lemma_entry_added_right(a11, b11, b22, j, h, f);
            lemma_entry_added_right(a22, b11, b22, j, h, f);
            lemma_product_entry::<K, T>(added(a21, a22), b11, h, f, j);
            lemma_entry_added_left(a21, a22, b11, j, h, f);
            lemma_product_entry::<K, T>(a11, subtracted(b12, b22), h, f, j);
            lemma_entry_subtracted_right(a11, b12, b22, j, h, f);
            lemma_product_entry::<K, T>(subtracted(a21, a11), added(b11, b12), h, f, j);
            lemma_entry_subtracted_left(a21, a11, added(b11, b12), j, h, f);
            lemma_entry_added_right(a21, b11, b12, j, h, f);
            lemma_entry_added_right(a11, b11, b12, j, h, f);
            lemma_bottom_right(
                entry(a21, b12, j, h, f),
                entry(a22, b22, j, h, f),
                entry(a11, b11, j, h, f),
                entry(a11, b22, j, h, f),
                entry(a22, b11, j, h, f),
                entry(a21, b11, j, h, f),
                entry(a11, b12, j, h, f),
            );
        }
        assert(scheme =~= whole);
    }
}

/// In a ring, the recursive product is the same for all kernels that sum
/// plainly.
pub proof fn lemma_kernels_agree<K1: FragMultiplyAdd<T>, K2: FragMultiplyAdd<T>, T: Element>(
    r: Seq<T>,
    a: Seq<T>,
    b: Seq<T>,
    s: int,
    f: int,
)
    requires
        has_ring_laws::<T>(),
        sums_plainly::<K1, T>(),
        sums_plainly::<K2, T>(),
        legal_side(s, f),
    ensures
        z_accumulated::<K1, T>(r, a, b, s, f) == z_accumulated::<K2, T>(r, a, b, s, f),
{
    let first = z_accumulated::<K1, T>(r, a, b, s, f);
    let second = z_accumulated::<K2, T>(r, a, b, s, f);
    lemma_legal_side_bounds(s, f);
    assert(s * s >= 0) by (nonlinear_arith);
    assert forall|i: int| 0 <= i < s * s implies first[i] == second[i] by {
        lemma_accumulated_entry::<K1, T>(r, a, b, s, f, i);
        lemma_accumulated_entry::<K2, T>(r, a, b, s, f, i);
    }
    assert(first =~= second);
}

/// In a ring, every way to multiply two square matrices in Z-order gives,
/// after reordering, the plain product: the recursive product and
/// Strassen's scheme, with any kernel that sums plainly and any fragment
/// size.
pub proof fn lemma_every_way_gives_the_product<K: FragMultiplyAdd<T>, T: Element>(
    a: Seq<T>,
    b: Seq<T>,
    n: int,
    f: int,
)
    requires
        has_ring_laws::<T>(),
        sums_plainly::<K, T>(),
        legal_side(n, f),
        a.len() == n * n,
        b.len() == n * n,
    ensures
        from_z(
            z_accumulated::<K, T>(zeros::<T>(n * n), to_z(a, n, f), to_z(b, n, f), n, f),
            n,
            f,
        ) == product_cells(a, b, n, n, n),
        from_z(
            strassen_block::<K, T>(zeros::<T>(n * n), to_z(a, n, f), to_z(b, n, f), n, f),
            n,
            f,
        ) == product_cells(a, b, n, n, n),
{
    let za = to_z(a, n, f);
    let zb = to_z(b, n, f);
    lemma_plain_kernel_sums_plainly::<T>();
    lemma_kernels_agree::<K, SimpleMultiplyAdd, T>(zeros::<T>(n * n), za, zb, n, f);
    lemma_z_product_is_plain_product(a, b, n, f);
    lemma_strassen_is_product::<K, T>(za, zb, n, f);
}

} // verus!
