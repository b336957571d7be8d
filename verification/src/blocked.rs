//! What the recursive product computes, cell by cell, and why its quarters
//! can be computed apart.
use crate::element::Element;
use crate::index::{lemma_cell_of_index, lemma_quotient};
use crate::kernel::{fragment_updated, FragMultiplyAdd, SimpleMultiplyAdd};
use crate::layout::{
    legal_side, lemma_legal_half, lemma_legal_side_bounds, lemma_quarters, lemma_z_coords_bounds,
    lemma_z_index_bounds, z_col, z_index, z_row,
};
use crate::product::{column_of, dot_from, lemma_dot_from_split, row_of};
use vstd::arithmetic::div_mod::lemma_fundamental_div_mod;
use vstd::prelude::*;

verus! {

/// Row `y` of the block of side `s` whose buffer in Z-order is `a`, from
/// left to right.
pub open spec fn z_row_of<T>(a: Seq<T>, y: int, s: int, f: int) -> Seq<T> {
    Seq::new(s as nat, |p: int| a[z_index(p, y, s, f)])
}

/// Column `x` of the block of side `s` whose buffer in Z-order is `b`,
/// from top to bottom.
pub open spec fn z_column_of<T>(b: Seq<T>, x: int, s: int, f: int) -> Seq<T> {
    Seq::new(s as nat, |p: int| b[z_index(x, p, s, f)])
}

/// What a cell that holds `init` holds after the kernel `K` has taken up
/// the first `k` stretches of `f` elements of the row `u` and the column
/// `v`, one stretch after the other.
pub open spec fn blocked<K: FragMultiplyAdd<T>, T: Element>(
    init: T,
    u: Seq<T>,
    v: Seq<T>,
    f: int,
    k: int,
) -> T
    decreases k,
{
    if k <= 0 {
        init
    } else {
        K::cell(
            blocked::<K, T>(init, u, v, f, k - 1),
            u.subrange((k - 1) * f, k * f),
            v.subrange((k - 1) * f, k * f),
        )
    }
}

/// The buffer, in Z-order, of the block of side `s` that held `r` after
/// the product of the blocks `a` and `b` was added to it: the cell in
/// column `x` and row `y` has taken up row `y` of `a` and column `x` of
/// `b`, fragment by fragment.
pub open spec fn z_accumulated<K: FragMultiplyAdd<T>, T: Element>(
    r: Seq<T>,
    a: Seq<T>,
    b: Seq<T>,
    s: int,
    f: int,
) -> Seq<T> {
    Seq::new(
        (s * s) as nat,
        |i: int|
            blocked::<K, T>(
                r[i],
                z_row_of(a, z_row(i, s, f), s, f),
                z_column_of(b, z_col(i, s, f), s, f),
                f,
                s / f,
            ),
    )
}

/// Quarter `q` of a buffer of four quarters of `b` elements each.
pub open spec fn quarter<T>(m: Seq<T>, q: int, b: int) -> Seq<T> {
    m.subrange(q * b, (q + 1) * b)
}

/// What is taken up depends only on the stretches that are taken up.
pub proof fn lemma_blocked_agrees<K: FragMultiplyAdd<T>, T: Element>(
    init: T,
    u1: Seq<T>,
    v1: Seq<T>,
    u2: Seq<T>,
    v2: Seq<T>,
    f: int,
    k: int,
)
    requires
        forall|j: int|
            0 <= j < k ==> #[trigger] u1.subrange(j * f, (j + 1) * f) == u2.subrange(
                j * f,
                (j + 1) * f,
            ),
        forall|j: int|
            0 <= j < k ==> #[trigger] v1.subrange(j * f, (j + 1) * f) == v2.subrange(
                j * f,
                (j + 1) * f,
            ),
    ensures
        blocked::<K, T>(init, u1, v1, f, k) == blocked::<K, T>(init, u2, v2, f, k),
    decreases k,
{
    if k > 0 {
        lemma_blocked_agrees::<K, T>(init, u1, v1, u2, v2, f, k - 1);
        assert(u1.subrange((k - 1) * f, (k - 1 + 1) * f) == u2.subrange(
            (k - 1) * f,
            (k - 1 + 1) * f,
        ));
        assert(v1.subrange((k - 1) * f, (k - 1 + 1) * f) == v2.subrange(
            (k - 1) * f,
            (k - 1 + 1) * f,
        ));
    }
}

/// Stretch `j` of a part of a sequence that starts at a multiple of `f` is
/// a stretch of the sequence.
proof fn lemma_stretch_of_part<T>(u: Seq<T>, f: int, from: int, count: int, j: int)
    requires
        f > 0,
        0 <= from,
        0 <= j < count,
        (from + count) * f <= u.len(),
    ensures
        u.subrange(from * f, (from + count) * f).subrange(j * f, (j + 1) * f) == u.subrange(
            (from + j) * f,
            (from + j + 1) * f,
        ),
{
    assert(0 <= from * f <= (from + j) * f < (from + j + 1) * f <= (from + count) * f && (from
        + j) * f == from * f + j * f && (from + j + 1) * f == from * f + (j + 1) * f && 0 <= j
        * f) by (nonlinear_arith)
        requires
            f > 0,
            0 <= from,
            0 <= j < count,
    ;
    assert(u.subrange(from * f, (from + count) * f).subrange(j * f, (j + 1) * f) =~= u.subrange(
        (from + j) * f,
        (from + j + 1) * f,
    ));
}

/// Taking up `k1 + k2` stretches is taking up the first `k1` and then the
/// `k2` that follow.
pub proof fn lemma_blocked_split<K: FragMultiplyAdd<T>, T: Element>(
    init: T,
    u: Seq<T>,
    v: Seq<T>,
    f: int,
    k1: int,
    k2: int,
)
    requires
        f > 0,
        0 <= k1,
        0 <= k2,
        (k1 + k2) * f <= u.len(),
        (k1 + k2) * f <= v.len(),
    ensures
        blocked::<K, T>(init, u, v, f, k1 + k2) == blocked::<K, T>(
            blocked::<K, T>(init, u.subrange(0, k1 * f), v.subrange(0, k1 * f), f, k1),
            u.subrange(k1 * f, (k1 + k2) * f),
            v.subrange(k1 * f, (k1 + k2) * f),
            f,
            k2,
        ),
    decreases k2,
{
    let first = blocked::<K, T>(init, u.subrange(0, k1 * f), v.subrange(0, k1 * f), f, k1);
    let u2 = u.subrange(k1 * f, (k1 + k2) * f);
    let v2 = v.subrange(k1 * f, (k1 + k2) * f);
    assert(0 <= k1 * f <= (k1 + k2) * f) by (nonlinear_arith)
        requires
            f > 0,
            0 <= k1,
            0 <= k2,
    ;
    if k2 == 0 {
        assert forall|j: int| 0 <= j < k1 implies #[trigger] u.subrange(j * f, (j + 1) * f)
            == u.subrange(0, k1 * f).subrange(j * f, (j + 1) * f) by {
            lemma_stretch_of_part(u, f, 0, k1, j);
        }
        assert forall|j: int| 0 <= j < k1 implies #[trigger] v.subrange(j * f, (j + 1) * f)
            == v.subrange(0, k1 * f).subrange(j * f, (j + 1) * f) by {
            lemma_stretch_of_part(v, f, 0, k1, j);
        }
        lemma_blocked_agrees::<K, T>(
            init,
            u,
            v,
            u.subrange(0, k1 * f),
            v.subrange(0, k1 * f),
            f,
            k1,
        );
    } else {
        assert((k1 + k2 - 1) * f <= (k1 + k2) * f) by (nonlinear_arith)
            requires
                f > 0,
        ;
        lemma_blocked_split::<K, T>(init, u, v, f, k1, k2 - 1);
        let u3 = u.subrange(k1 * f, (k1 + k2 - 1) * f);
        let v3 = v.subrange(k1 * f, (k1 + k2 - 1) * f);
        assert forall|j: int| 0 <= j < k2 - 1 implies #[trigger] u3.subrange(j * f, (j + 1) * f)
            == u2.subrange(j * f, (j + 1) * f) by {
            lemma_stretch_of_part(u, f, k1, k2 - 1, j);
            lemma_stretch_of_part(u, f, k1, k2, j);
        }
        assert forall|j: int| 0 <= j < k2 - 1 implies #[trigger] v3.subrange(j * f, (j + 1) * f)
            == v2.subrange(j * f, (j + 1) * f) by {
            lemma_stretch_of_part(v, f, k1, k2 - 1, j);
            lemma_stretch_of_part(v, f, k1, k2, j);
        }
        lemma_blocked_agrees::<K, T>(first, u3, v3, u2, v2, f, k2 - 1);
        lemma_stretch_of_part(u, f, k1, k2, k2 - 1);
        lemma_stretch_of_part(v, f, k1, k2, k2 - 1);
        assert(k1 + (k2 - 1) + 1 == k1 + k2);
        assert((k1 + k2 - 1) * f == (k1 + (k2 - 1)) * f);
    }
}

/// The halves of a row of a block are rows of two of its quarters.
pub proof fn lemma_row_halves<T>(a: Seq<T>, y: int, s: int, f: int)
    requires
        legal_side(s, f),
        s != f,
        a.len() == s * s,
        0 <= y < s,
    ensures
        ({
            let h = s / 2;
            let lower: int = if y < h { 0 } else { 1 };
            &&& z_row_of(a, y, s, f).subrange(0, h) == z_row_of(
                quarter(a, 2 * lower, h * h),
                y - lower * h,
                h,
                f,
            )
            &&& z_row_of(a, y, s, f).subrange(h, s) == z_row_of(
                quarter(a, 2 * lower + 1, h * h),
                y - lower * h,
                h,
                f,
            )
        }),
{
    lemma_legal_half(s, f);
    lemma_quarters(s);
    let h = s / 2;
    let b = h * h;
    let lower: int = if y < h { 0 } else { 1 };
    assert(lower * h == (if lower == 0 { 0 } else { h })) by (nonlinear_arith)
        requires
            0 <= lower <= 1,
    ;
    let y1 = y - lower * h;
    let row = z_row_of(a, y, s, f);
    let left = z_row_of(quarter(a, 2 * lower, b), y1, h, f);
    let right = z_row_of(quarter(a, 2 * lower + 1, b), y1, h, f);
    assert((2 * lower) * b == 2 * lower * b && (2 * lower + 1) * b == 2 * lower * b + b && (2
        * lower + 2) * b == 2 * lower * b + 2 * b && 0 <= 2 * lower * b <= 2 * b) by (nonlinear_arith)
        requires
            0 <= lower <= 1,
            b >= 0,
    ;
    assert forall|p: int| 0 <= p < h implies row.subrange(0, h)[p] == left[p] by {
        lemma_z_index_bounds(p, y1, h, f);
    }
    assert(row.subrange(0, h) =~= left);
    assert forall|p: int| 0 <= p < h implies row.subrange(h, s)[p] == right[p] by {
        lemma_z_index_bounds(p, y1, h, f);
        assert(row.subrange(h, s)[p] == row[p + h]);
    }
    assert(row.subrange(h, s) =~= right);
}

/// The halves of a column of a block are columns of two of its quarters.
pub proof fn lemma_column_halves<T>(b: Seq<T>, x: int, s: int, f: int)
    requires
        legal_side(s, f),
        s != f,
        b.len() == s * s,
        0 <= x < s,
    ensures
        ({
            let h = s / 2;
            let right: int = if x < h { 0 } else { 1 };
            &&& z_column_of(b, x, s, f).subrange(0, h) == z_column_of(
                quarter(b, right, h * h),
                x - right * h,
                h,
                f,
            )
            &&& z_column_of(b, x, s, f).subrange(h, s) == z_column_of(
                quarter(b, right + 2, h * h),
                x - right * h,
                h,
                f,
            )
        }),
{
    lemma_legal_half(s, f);
    lemma_quarters(s);
    let h = s / 2;
    let blk = h * h;
    let right: int = if x < h { 0 } else { 1 };
    assert(right * h == (if right == 0 { 0 } else { h })) by (nonlinear_arith)
        requires
            0 <= right <= 1,
    ;
    let x1 = x - right * h;
    let column = z_column_of(b, x, s, f);
    let upper = z_column_of(quarter(b, right, blk), x1, h, f);
    let lower = z_column_of(quarter(b, right + 2, blk), x1, h, f);
    assert(right * blk == (if right == 0 { 0 } else { blk }) && (right + 1) * blk == right * blk
        + blk && (right + 2) * blk == right * blk + 2 * blk && (right + 3) * blk == right * blk + 3
        * blk) by (nonlinear_arith)
        requires
            0 <= right <= 1,
    ;
    assert forall|p: int| 0 <= p < h implies column.subrange(0, h)[p] == upper[p] by {
        lemma_z_index_bounds(x1, p, h, f);
    }
    assert(column.subrange(0, h) =~= upper);
    assert forall|p: int| 0 <= p < h implies column.subrange(h, s)[p] == lower[p] by {
        lemma_z_index_bounds(x1, p, h, f);
        assert(column.subrange(h, s)[p] == column[p + h]);
    }
    assert(column.subrange(h, s) =~= lower);
}

/// A quarter of the product of two blocks: the quarter in the right
/// (`right` is 1) or left (0), lower (`lower` is 1) or upper (0) part of the
/// target takes up two products of quarters, one after the other: that of
/// the left quarter of `a` at its own height and the upper quarter of `b`
/// on its own side, then that of the right quarter of `a` and the lower
/// quarter of `b`.
pub proof fn lemma_quarter_step<K: FragMultiplyAdd<T>, T: Element>(
    r: Seq<T>,
    a: Seq<T>,
    b: Seq<T>,
    s: int,
    f: int,
    right: int,
    lower: int,
)
    requires
        legal_side(s, f),
        s != f,
        r.len() == s * s,
        a.len() == s * s,
        b.len() == s * s,
        0 <= right <= 1,
        0 <= lower <= 1,
    ensures
        ({
            let h = s / 2;
            let blk = h * h;
            quarter(z_accumulated::<K, T>(r, a, b, s, f), right + 2 * lower, blk)
                == z_accumulated::<K, T>(
                z_accumulated::<K, T>(
                    quarter(r, right + 2 * lower, blk),
                    quarter(a, 2 * lower, blk),
                    quarter(b, right, blk),
                    h,
                    f,
                ),
                quarter(a, 2 * lower + 1, blk),
                quarter(b, right + 2, blk),
                h,
                f,
            )
        }),
{
    lemma_legal_half(s, f);
    lemma_quarters(s);
    lemma_legal_side_bounds(s / 2, f);
    let h = s / 2;
    let blk = h * h;
    let q = right + 2 * lower;
    let k = h / f;
    lemma_fundamental_div_mod(h, f);
    assert(k * f == h) by (nonlinear_arith)
        requires
            h == f * k,
    ;
    assert((k + k) * f == s) by (nonlinear_arith)
        requires
            k * f == h,
            s == 2 * h,
    ;
    lemma_quotient(s, f, k + k, 0);
    assert(k >= 0) by (nonlinear_arith)
        requires
            k * f == h,
            h > 0,
            f > 0,
    ;
    assert(blk > 0) by (nonlinear_arith)
        requires
            h > 0,
            blk == h * h,
    ;
    assert(q * blk == (if q == 0 {
        0
    } else if q == 1 {
        blk
    } else if q == 2 {
        2 * blk
    } else {
        3 * blk
    }) && (q + 1) * blk == q * blk + blk) by (nonlinear_arith)
        requires
            0 <= q < 4,
    ;
    assert(right * h == (if right == 0 { 0 } else { h })) by (nonlinear_arith)
        requires
            0 <= right <= 1,
    ;
    assert(lower * h == (if lower == 0 { 0 } else { h })) by (nonlinear_arith)
        requires
            0 <= lower <= 1,
    ;
    let whole = z_accumulated::<K, T>(r, a, b, s, f);
    let first = z_accumulated::<K, T>(
        quarter(r, q, blk),
        quarter(a, 2 * lower, blk),
        quarter(b, right, blk),
        h,
        f,
    );
    let second = z_accumulated::<K, T>(
        first,
        quarter(a, 2 * lower + 1, blk),
        quarter(b, right + 2, blk),
        h,
        f,
    );
    assert forall|j: int| 0 <= j < blk implies quarter(whole, q, blk)[j] == second[j] by {
        let i = q * blk + j;
        lemma_quotient(i, blk, q, j);
        lemma_z_coords_bounds(j, h, f);
        let x1 = z_col(j, h, f);
        let y1 = z_row(j, h, f);
        let x = right * h + x1;
        let y = lower * h + y1;
        assert((q % 2) * h == right * h);
        assert((q / 2) * h == lower * h);
        assert(z_col(i, s, f) == x);
        assert(z_row(i, s, f) == y);
        let u = z_row_of(a, y, s, f);
        let v = z_column_of(b, x, s, f);
        lemma_row_halves(a, y, s, f);
        lemma_column_halves(b, x, s, f);
        lemma_blocked_split::<K, T>(r[i], u, v, f, k, k);
        assert(quarter(whole, q, blk)[j] == whole[i]);
        assert(quarter(r, q, blk)[j] == r[i]);
    }
    assert(quarter(whole, q, blk) =~= second);
}

/// A block of side `f` is a fragment in row-major order, and what the
/// kernel adds to it is what the product adds to it.
pub proof fn lemma_leaf_step<K: FragMultiplyAdd<T>, T: Element>(
    r: Seq<T>,
    a: Seq<T>,
    b: Seq<T>,
    f: int,
)
    requires
        f > 0,
        r.len() == f * f,
        a.len() == f * f,
        b.len() == f * f,
    ensures
        fragment_updated::<K, T>(r, a, b, f) == z_accumulated::<K, T>(r, a, b, f, f),
{
    let kernel = fragment_updated::<K, T>(r, a, b, f);
    let product = z_accumulated::<K, T>(r, a, b, f, f);
    lemma_quotient(f, f, 1, 0);
    assert forall|i: int| 0 <= i < f * f implies kernel[i] == product[i] by {
        lemma_cell_of_index(i, f, f);
        let u = z_row_of(a, i / f, f, f);
        let v = z_column_of(b, i % f, f, f);
        assert(u =~= row_of(a, f, i / f)) by {
            assert forall|p: int| 0 <= p < f implies u[p] == row_of(a, f, i / f)[p] by {}
        }
        assert(v =~= column_of(b, f, f, i % f)) by {
            assert forall|p: int| 0 <= p < f implies v[p] == column_of(b, f, f, i % f)[p] by {
                assert(i % f + f * p == i % f + f * p);
            }
        }
        assert(u.subrange(0, f) =~= u);
        assert(v.subrange(0, f) =~= v);
        assert(blocked::<K, T>(r[i], u, v, f, 0) == r[i]);
        assert(blocked::<K, T>(r[i], u, v, f, 1) == K::cell(
            blocked::<K, T>(r[i], u, v, f, 0),
            u.subrange(0 * f, 1 * f),
            v.subrange(0 * f, 1 * f),
        ));
    }
    assert(kernel =~= product);
}

/// The kernel `K` leaves in a cell what the plain sum leaves in it.
pub open spec fn sums_plainly<K: FragMultiplyAdd<T>, T: Element>() -> bool {
    forall|init: T, u: Seq<T>, v: Seq<T>| #[trigger]
        K::cell(init, u, v) == dot_from(init, u, v, u.len() as int)
}

/// The plain kernel sums plainly.
pub proof fn lemma_plain_kernel_sums_plainly<T: Element>()
    ensures
        sums_plainly::<SimpleMultiplyAdd, T>(),
{
}

/// A kernel that sums plainly, taking up a row and a column stretch by
/// stretch, adds the products one by one in the order of the row.
pub proof fn lemma_blocked_sums_plainly<K: FragMultiplyAdd<T>, T: Element>(
    init: T,
    u: Seq<T>,
    v: Seq<T>,
    f: int,
    k: int,
)
    requires
        sums_plainly::<K, T>(),
        f > 0,
        0 <= k,
        k * f <= u.len(),
        k * f <= v.len(),
    ensures
        blocked::<K, T>(init, u, v, f, k) == dot_from(init, u, v, k * f),
    decreases k,
{
    if k > 0 {
        assert(0 <= (k - 1) * f && (k - 1) * f + f == k * f) by (nonlinear_arith)
            requires
                f > 0,
                k > 0,
        ;
        lemma_blocked_sums_plainly::<K, T>(init, u, v, f, k - 1);
        lemma_dot_from_split(init, u, v, (k - 1) * f, f);
    } else {
        assert(k * f == 0) by (nonlinear_arith)
            requires
                k == 0,
        ;
    }
}

} // verus!
