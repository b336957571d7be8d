//! What holds of the products as wholes: the identity matrix is neutral,
//! the recursive product in Z-order with the plain kernel is the plain
//! product, and the distributor has no say in the result.
use crate::blocked::{
    lemma_blocked_sums_plainly, lemma_plain_kernel_sums_plainly, z_accumulated, z_column_of,
    z_row_of,
};
use crate::distribute::Distribute;
use crate::element::{zeros, Element};
use crate::error::InvariantError;
use crate::kernel::{FragMultiplyAdd, SimpleMultiplyAdd};
use crate::index::{lemma_cell_index, lemma_cell_of_index, lemma_quotient};
use crate::layout::{
    from_z, legal_side, lemma_legal_side_bounds, lemma_z_coords_of_index, lemma_z_index_bounds,
    to_z, z_index,
};
use crate::product::{column_of, dot_from, row_of};
use crate::simple::{identity_cells, product_cells};
use crate::znot::{multiply, Matrix};
use vstd::arithmetic::div_mod::lemma_fundamental_div_mod;
use vstd::prelude::*;

verus! {

/// Zero is neutral for the sum, one is neutral for the product, and a
/// product with zero is zero.
pub open spec fn has_unit_laws<T: Element>() -> bool {
    &&& forall|a: T| #[trigger] T::sum(T::zero_value(), a) == a
    &&& forall|a: T| #[trigger] T::sum(a, T::zero_value()) == a
    &&& forall|a: T| #[trigger] T::product(T::zero_value(), a) == T::zero_value()
    &&& forall|a: T| #[trigger] T::product(a, T::zero_value()) == T::zero_value()
    &&& forall|a: T| #[trigger] T::product(T::one_value(), a) == a
    &&& forall|a: T| #[trigger] T::product(a, T::one_value()) == a
}

/// The sum of the products of a row or column of the identity matrix, which
/// holds its one at position `at`, and any sequence `v`, after `n` terms:
/// zero up to the one, and the element of `v` that met the one after it.
proof fn lemma_unit_dot<T: Element>(unit: Seq<T>, v: Seq<T>, at: int, n: int, unit_first: bool)
    requires
        has_unit_laws::<T>(),
        0 <= at,
        0 <= n <= unit.len(),
        forall|p: int|
            0 <= p < n ==> unit[p] == if p == at {
                T::one_value()
            } else {
                T::zero_value()
            },
    ensures
        unit_first ==> dot_from(T::zero_value(), unit, v, n) == if at < n {
            v[at]
        } else {
            T::zero_value()
        },
        !unit_first ==> dot_from(T::zero_value(), v, unit, n) == if at < n {
            v[at]
        } else {
            T::zero_value()
        },
    decreases n,
{
    if n > 0 {
        lemma_unit_dot(unit, v, at, n - 1, unit_first);
    }
}

/// The identity matrix times a matrix is that matrix, whatever its shape.
pub proof fn lemma_identity_left<T: Element>(a: Seq<T>, w: int, h: int)
    requires
        has_unit_laws::<T>(),
        0 <= w,
        0 <= h,
        a.len() == w * h,
    ensures
        product_cells(identity_cells::<T>(h), a, w, h, h) == a,
{
    let unit = identity_cells::<T>(h);
    let product = product_cells(unit, a, w, h, h);
    assert forall|i: int| 0 <= i < w * h implies product[i] == a[i] by {
        assert(w > 0) by (nonlinear_arith)
            requires
                0 <= i < w * h,
                0 <= w,
                0 <= h,
        ;
        lemma_cell_of_index(i, w, h);
        let x = i % w;
        let y = i / w;
        let row = row_of(unit, h, y);
        let column = column_of(a, w, h, x);
        assert forall|p: int| 0 <= p < h implies row[p] == if p == y {
            T::one_value()
        } else {
            T::zero_value()
        } by {
            lemma_cell_index(p, y, h, h);
            assert(p + h * y == y * h + p) by (nonlinear_arith);
            lemma_quotient(p + h * y, h, y, p);
        }
        lemma_unit_dot(row, column, y, h, true);
    }
    assert(product =~= a);
}

/// A matrix times the identity matrix is that matrix, whatever its shape.
pub proof fn lemma_identity_right<T: Element>(a: Seq<T>, w: int, h: int)
    requires
        has_unit_laws::<T>(),
        0 <= w,
        0 <= h,
        a.len() == w * h,
    ensures
        product_cells(a, identity_cells::<T>(w), w, h, w) == a,
{
    let unit = identity_cells::<T>(w);
    let product = product_cells(a, unit, w, h, w);
    assert forall|i: int| 0 <= i < w * h implies product[i] == a[i] by {
        assert(w > 0) by (nonlinear_arith)
            requires
                0 <= i < w * h,
                0 <= w,
                0 <= h,
        ;
        lemma_cell_of_index(i, w, h);
        let x = i % w;
        let y = i / w;
        let row = row_of(a, w, y);
        let column = column_of(unit, w, w, x);
        assert forall|p: int| 0 <= p < w implies column[p] == if p == x {
            T::one_value()
        } else {
            T::zero_value()
        } by {
            lemma_cell_index(x, p, w, w);
            assert(x + w * p == p * w + x) by (nonlinear_arith);
            lemma_quotient(x + w * p, w, p, x);
        }
        lemma_unit_dot(column, row, x, w, false);
    }
    assert(product =~= a);
}

/// Reordering two square matrices into Z-order, multiplying them there by
/// recursive subdivision with the plain kernel, and reordering the result
/// back gives the very product that the plain triple loop gives, for any
/// fragment size.
pub proof fn lemma_z_product_is_plain_product<T: Element>(a: Seq<T>, b: Seq<T>, n: int, f: int)
    requires
        legal_side(n, f),
        a.len() == n * n,
        b.len() == n * n,
    ensures
        from_z(
            z_accumulated::<SimpleMultiplyAdd, T>(
                zeros::<T>(n * n),
                to_z(a, n, f),
                to_z(b, n, f),
                n,
                f,
            ),
            n,
            f,
        ) == product_cells(a, b, n, n, n),
{
    lemma_legal_side_bounds(n, f);
    lemma_plain_kernel_sums_plainly::<T>();
    let za = to_z(a, n, f);
    let zb = to_z(b, n, f);
    let z = z_accumulated::<SimpleMultiplyAdd, T>(zeros::<T>(n * n), za, zb, n, f);
    let back = from_z(z, n, f);
    let plain = product_cells(a, b, n, n, n);
    let k = n / f;
    lemma_fundamental_div_mod(n, f);
    assert(k * f == n && k >= 0) by (nonlinear_arith)
        requires
            n == f * k,
            f > 0,
            n > 0,
    ;
    assert forall|j: int| 0 <= j < n * n implies back[j] == plain[j] by {
        lemma_cell_of_index(j, n, n);
        let x = j % n;
        let y = j / n;
        let i = z_index(x, y, n, f);
        lemma_z_index_bounds(x, y, n, f);
        lemma_z_coords_of_index(x, y, n, f);
        let u = z_row_of(za, y, n, f);
        let v = z_column_of(zb, x, n, f);
        assert(u =~= row_of(a, n, y)) by {
            assert forall|p: int| 0 <= p < n implies u[p] == row_of(a, n, y)[p] by {
                lemma_z_index_bounds(p, y, n, f);
                lemma_z_coords_of_index(p, y, n, f);
            }
        }
        assert(v =~= column_of(b, n, n, x)) by {
            assert forall|p: int| 0 <= p < n implies v[p] == column_of(b, n, n, x)[p] by {
                lemma_z_index_bounds(x, p, n, f);
                lemma_z_coords_of_index(x, p, n, f);
            }
        }
        lemma_blocked_sums_plainly::<SimpleMultiplyAdd, T>(T::zero_value(), u, v, f, k);
    }
    assert(back =~= plain);
}

/// Two runs of the recursive product on the same operands and with the
/// same kernel agree, whatever distributors ran their sub-products: both
/// are refused, or both succeed with the same size and the same buffer.
pub proof fn lemma_distributor_has_no_say<
    T: Element,
    const F: usize,
    D1: Distribute,
    D2: Distribute,
    K: FragMultiplyAdd<T>,
>(
    a: Matrix<T, F>,
    b: Matrix<T, F>,
    r1: Result<Matrix<T, F>, InvariantError>,
    r2: Result<Matrix<T, F>, InvariantError>,
)
    requires
        a.wf(),
        b.wf(),
        call_ensures(multiply::<T, F, D1, K>, (&a, &b), r1),
        call_ensures(multiply::<T, F, D2, K>, (&a, &b), r2),
    ensures
        r1 is Ok <==> r2 is Ok,
        r1 is Err ==> r1 == r2,
        r1 is Ok ==> r1->Ok_0.size() == r2->Ok_0.size() && r1->Ok_0@ == r2->Ok_0@,
{
}

} // verus!
