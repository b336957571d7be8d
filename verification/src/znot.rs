//! Matrices in Z-order, and their multiplication by recursive subdivision.
use crate::blocked::{lemma_leaf_step, lemma_quarter_step, quarter, z_accumulated};
use crate::distribute::slot;
pub use crate::distribute::{Distribute, DontDistribute, RayonDistribute};
use crate::element::{zero_buffer, zeros, Element};
use crate::error::InvariantError;
use crate::index::{lemma_cell_index, lemma_cell_of_index, lemma_quotient, lemma_same_cell};
use crate::kernel::fragment_updated;
pub use crate::kernel::{FragMultiplyAdd, SimdMultiplyAdd, SimpleMultiplyAdd};
use crate::layout::{
    from_z, legal_side, lemma_legal_half, lemma_legal_side_bounds, lemma_popcount_one,
    lemma_quarters, lemma_z_block_quarters, popcount, to_z, z_block, z_index,
};
use crate::simple::Matrix as Simple;
use crate::strassen::{step, strassen_block};
use vstd::prelude::*;

verus! {

/// A square matrix of side `size` in Z-order with fragments of side `F`:
/// the element in column `x` and row `y` is the one at position
/// `z_index(x, y, size, F)` of the buffer.
#[derive(Clone, Debug, PartialEq)]
pub struct Matrix<T, const F: usize> {
    size: usize,
    content: Vec<T>,
}

impl<T, const F: usize> View for Matrix<T, F> {
    type V = Seq<T>;

    /// The buffer, in Z-order.
    closed spec fn view(&self) -> Seq<T> {
        self.content@
    }
}

/// `usize::count_ones` of the standard library, which is documented to
/// return the number of ones in the binary representation of its argument.
/// This is taken on trust.
#[verifier::external_body]
fn count_ones(n: usize) -> (r: u32)
    ensures
        r == popcount(n as nat),
{
    n.count_ones()
}

/// Whether a matrix of side `size` can be laid out with fragments of side
/// `frag`.
pub fn is_legal_side(size: usize, frag: usize) -> (r: bool)
    ensures
        r == legal_side(size as int, frag as int),
{
    if frag == 0 || size % frag != 0 {
        return false;
    }
    proof {
        lemma_popcount_one((size / frag) as nat);
    }
    count_ones(size / frag) == 1
}

impl<T: Element, const F: usize> Matrix<T, F> {
    /// The number of rows, which is the number of columns.
    pub closed spec fn spec_size(&self) -> usize {
        self.size
    }

    /// The side is legal and the buffer has one element for each cell.
    pub open spec fn wf(&self) -> bool {
        &&& legal_side(self.size() as int, F as int)
        &&& self@.len() == self.size() * self.size() <= usize::MAX
    }

    /// The element in column `x` and row `y`.
    pub open spec fn at(&self, x: int, y: int) -> T {
        self@[z_index(x, y, self.size() as int, F as int)]
    }

    /// The number of rows, which is the number of columns.
    #[verifier::when_used_as_spec(spec_size)]
    pub fn size(&self) -> (n: usize)
        ensures
            n == self.spec_size(),
    {
        self.size
    }

    /// The buffer, in Z-order.
    pub fn content(&self) -> (r: &[T])
        ensures
            r@ == self@,
    {
        self.content.as_slice()
    }

    /// The matrix of side `size` whose buffer in Z-order is `content`. The
    /// side is refused if it is not `F` times a power of two, and the
    /// buffer if it has not one element for each cell.
    pub fn from_vec(size: usize, content: Vec<T>) -> (r: Result<Self, InvariantError>)
        ensures
            !legal_side(size as int, F as int) ==> r == Err::<Self, InvariantError>(
                InvariantError::NotPowerOfTwoMultipleOfF,
            ),
            legal_side(size as int, F as int) && content@.len() != size * size ==> r == Err::<
                Self,
                InvariantError,
            >(InvariantError::ShapeMismatch),
            legal_side(size as int, F as int) && content@.len() == size * size ==> r is Ok,
            r is Ok ==> {
                let m = r->Ok_0;
                m.wf() && m.size() == size && m@ == content@
            },
    {
        if !is_legal_side(size, F) {
            return Err(InvariantError::NotPowerOfTwoMultipleOfF);
        }
        let len = content.len();
        match size.checked_mul(size) {
            Some(n) => {
                if len == n {
                    Ok(Matrix { size, content })
                } else {
                    Err(InvariantError::ShapeMismatch)
                }
            },
            None => Err(InvariantError::ShapeMismatch),
        }
    }

    /// The matrix in Z-order. A matrix that is not square is refused, and
    /// so is one whose side is not `F` times a power of two.
    pub fn from(matrix: &Simple<T>) -> (r: Result<Self, InvariantError>)
        requires
            matrix.wf(),
        ensures
            matrix.width() != matrix.height() ==> r == Err::<Self, InvariantError>(
                InvariantError::NonSquare,
            ),
            matrix.width() == matrix.height() && !legal_side(matrix.width() as int, F as int)
                ==> r == Err::<Self, InvariantError>(InvariantError::NotPowerOfTwoMultipleOfF),
            matrix.width() == matrix.height() && legal_side(matrix.width() as int, F as int)
                ==> r is Ok,
            r is Ok ==> {
                let z = r->Ok_0;
                &&& z.wf()
                &&& z.size() == matrix.width()
                &&& z@ == to_z(matrix@, matrix.width() as int, F as int)
            },
    {
        let size = matrix.width();
        if size != matrix.height() {
            return Err(InvariantError::NonSquare);
        }
        if !is_legal_side(size, F) {
            return Err(InvariantError::NotPowerOfTwoMultipleOfF);
        }
        let mut content: Vec<T> = Vec::with_capacity(size * size);
        convert(matrix, &mut content, 0, 0, size, F);
        Ok(Matrix { size, content })
    }
}

/// Appends to `content`, in Z-order, the block of side `s` whose top-left
/// corner is in column `x` and row `y` of `matrix`.
fn convert<T: Element>(
    matrix: &Simple<T>,
    content: &mut Vec<T>,
    x: usize,
    y: usize,
    s: usize,
    frag: usize,
)
    requires
        matrix.wf(),
        matrix.width() == matrix.height(),
        legal_side(s as int, frag as int),
        x + s <= matrix.width(),
        y + s <= matrix.width(),
    ensures
        final(content)@ == old(content)@ + z_block(
            matrix@,
            matrix.width() as int,
            x as int,
            y as int,
            s as int,
            frag as int,
        ),
    decreases s,
{
    let ghost n = matrix.width() as int;
    let ghost goal = z_block(matrix@, n, x as int, y as int, s as int, frag as int);
    proof {
        lemma_legal_side_bounds(s as int, frag as int);
    }
    if s == frag {
        let mut j: usize = 0;
        while j < frag
            invariant
                j <= frag,
                s == frag,
                frag > 0,
                matrix.wf(),
                matrix.width() == matrix.height(),
                n == matrix.width(),
                x + s <= n,
                y + s <= n,
                goal == z_block(matrix@, n, x as int, y as int, s as int, frag as int),
                content@.len() == old(content)@.len() + j * frag,
                forall|k: int| 0 <= k < old(content)@.len() ==> content@[k] == old(content)@[k],
                forall|k: int|
                    0 <= k < j * frag ==> content@[old(content)@.len() + k] == goal[k],
            decreases frag - j,
        {
            let mut i: usize = 0;
            while i < frag
                invariant
                    i <= frag,
                    j < frag,
                    s == frag,
                    frag > 0,
                    matrix.wf(),
                    matrix.width() == matrix.height(),
                    n == matrix.width(),
                    x + s <= n,
                    y + s <= n,
                    goal == z_block(matrix@, n, x as int, y as int, s as int, frag as int),
                    content@.len() == old(content)@.len() + j * frag + i,
                    forall|k: int|
                        0 <= k < old(content)@.len() ==> content@[k] == old(content)@[k],
                    forall|k: int|
                        0 <= k < j * frag + i ==> content@[old(content)@.len() + k] == goal[k],
                decreases frag - i,
            {
                proof {
                    lemma_cell_index(i as int, j as int, s as int, s as int);
                    lemma_quotient(j * frag + i, s as int, j as int, i as int);
                    assert(j * frag + i == i + s * j) by (nonlinear_arith)
                        requires
                            s == frag,
                    ;
                }
                content.push(matrix.get(i + x, j + y));
                i += 1;
            }
            proof {
                assert((j + 1) * frag == j * frag + frag) by (nonlinear_arith);
            }
            j += 1;
        }
        proof {
            assert(content@ =~= old(content)@ + goal);
        }
    } else {
        proof {
            lemma_legal_half(s as int, frag as int);
            lemma_z_block_quarters(matrix@, n, x as int, y as int, s as int, frag as int);
        }
        let s = s / 2;
        convert(matrix, content, x, y, s, frag);
        convert(matrix, content, x + s, y, s, frag);
        convert(matrix, content, x, y + s, s, frag);
        convert(matrix, content, x + s, y + s, s, frag);
        proof {
            let q0 = z_block(matrix@, n, x as int, y as int, s as int, frag as int);
            let q1 = z_block(matrix@, n, x + s, y as int, s as int, frag as int);
            let q2 = z_block(matrix@, n, x as int, y + s, s as int, frag as int);
            let q3 = z_block(matrix@, n, x + s, y + s, s as int, frag as int);
            assert(content@ =~= old(content)@ + (q0 + q1 + q2 + q3));
        }
    }
}

impl<T: Element> Simple<T> {
    /// The matrix in row-major order.
    pub fn from<const F: usize>(matrix: &Matrix<T, F>) -> (r: Self)
        requires
            matrix.wf(),
        ensures
            r.wf(),
            r.width() == matrix.size(),
            r.height() == matrix.size(),
            r@ == from_z(matrix@, matrix.size() as int, F as int),
    {
        let mut result = Simple::sized(matrix.size, matrix.size);
        let mut pos: usize = 0;
        convert_back(matrix, &mut result, 0, 0, matrix.size, &mut pos);
        proof {
            let n = matrix.size as int;
            lemma_legal_side_bounds(n, F as int);
            assert forall|j: int| 0 <= j < n * n implies result@[j] == from_z(
                matrix@,
                n,
                F as int,
            )[j] by {
                lemma_cell_of_index(j, n, n);
                assert(result@[j] == result.at(j % n, j / n));
            }
            assert(result@ =~= from_z(matrix@, n, F as int));
        }
        result
    }
}

/// Takes the next `s * s` elements of the buffer of `matrix`, from
/// position `pos` on, and puts them where they belong in the block of side
/// `s` whose top-left corner is in column `x` and row `y` of `result`.
fn convert_back<T: Element, const F: usize>(
    matrix: &Matrix<T, F>,
    result: &mut Simple<T>,
    x: usize,
    y: usize,
    s: usize,
    pos: &mut usize,
)
    requires
        old(result).wf(),
        old(result).width() == old(result).height(),
        legal_side(s as int, F as int),
        x + s <= old(result).width(),
        y + s <= old(result).width(),
        *old(pos) + s * s <= matrix@.len(),
    ensures
        final(result).wf(),
        final(result).width() == old(result).width(),
        final(result).height() == old(result).height(),
        *final(pos) == *old(pos) + s * s,
        forall|cx: int, cy: int|
            0 <= cx < old(result).width() && 0 <= cy < old(result).width()
                ==> #[trigger] final(result).at(cx, cy) == if x <= cx < x + s && y <= cy < y + s {
                matrix@[*old(pos) + z_index(cx - x, cy - y, s as int, F as int)]
            } else {
                old(result).at(cx, cy)
            },
    decreases s,
{
    let ghost n = result.width() as int;
    let ghost start = *pos as int;
    proof {
        lemma_legal_side_bounds(s as int, F as int);
    }
    if s == F {
        let mut j: usize = 0;
        while j < F
            invariant
                j <= F,
                s == F,
                F > 0,
                result.wf(),
                result.width() == n,
                result.height() == n,
                x + s <= n,
                y + s <= n,
                start + s * s <= matrix@.len(),
                *pos == start + j * F,
                forall|cx: int, cy: int|
                    0 <= cx < n && 0 <= cy < n ==> #[trigger] result.at(cx, cy) == if x <= cx < x
                        + s && y <= cy < y + j {
                        matrix@[start + (cx - x) + s * (cy - y)]
                    } else {
                        old(result).at(cx, cy)
                    },
            decreases F - j,
        {
            let mut i: usize = 0;
            while i < F
                invariant
                    i <= F,
                    j < F,
                    s == F,
                    F > 0,
                    result.wf(),
                    result.width() == n,
                    result.height() == n,
                    x + s <= n,
                    y + s <= n,
                    start + s * s <= matrix@.len(),
                    *pos == start + j * F + i,
                    forall|cx: int, cy: int|
                        0 <= cx < n && 0 <= cy < n ==> #[trigger] result.at(cx, cy) == if x <= cx
                            < x + s && (y <= cy < y + j || (cy == y + j && cx < x + i)) {
                            matrix@[start + (cx - x) + s * (cy - y)]
                        } else {
                            old(result).at(cx, cy)
                        },
                decreases F - i,
            {
                proof {
                    lemma_cell_index(i as int, j as int, s as int, s as int);
                    assert(j * F + i == i + s * j) by (nonlinear_arith)
                        requires
                            s == F,
                    ;
                }
                let ghost before = *result;
                assert(matrix.content.len() == matrix@.len());
                let value = matrix.content[*pos];
                result.set(i + x, j + y, value);
                *pos += 1;
                proof {
                    assert forall|cx: int, cy: int| 0 <= cx < n && 0 <= cy < n implies #[trigger] result.at(
                        cx,
                        cy,
                    ) == if x <= cx < x + s && (y <= cy < y + j || (cy == y + j && cx < x + i
                        + 1)) {
                        matrix@[start + (cx - x) + s * (cy - y)]
                    } else {
                        old(result).at(cx, cy)
                    } by {
                        lemma_cell_index(cx, cy, n, n);
                        lemma_cell_index(i + x, j + y, n, n);
                        assert(before.at(cx, cy) == before@[cx + n * cy]);
                        if cx + n * cy == (i + x) + n * (j + y) {
                            lemma_same_cell(cx, cy, i + x, j + y, n);
                        }
                    }
                }
                i += 1;
            }
            proof {
                assert((j + 1) * F == j * F + F) by (nonlinear_arith);
            }
            j += 1;
        }
        proof {
            assert(s * s == F * F);
        }
    } else {
        proof {
            lemma_legal_half(s as int, F as int);
            lemma_quarters(s as int);
        }
        let ghost whole = s as int;
        let s = s / 2;
        let ghost b = s * s;
        convert_back(matrix, result, x, y, s, pos);
        let ghost r1 = *result;
        convert_back(matrix, result, x + s, y, s, pos);
        let ghost r2 = *result;
        convert_back(matrix, result, x, y + s, s, pos);
        let ghost r3 = *result;
        convert_back(matrix, result, x + s, y + s, s, pos);
        proof {
            assert forall|cx: int, cy: int| 0 <= cx < n && 0 <= cy < n implies #[trigger] result.at(
                cx,
                cy,
            ) == if x <= cx < x + whole && y <= cy < y + whole {
                matrix@[start + z_index(cx - x, cy - y, whole, F as int)]
            } else {
                old(result).at(cx, cy)
            } by {
                let _ = r1.at(cx, cy);
                let _ = r2.at(cx, cy);
                let _ = r3.at(cx, cy);
                if x <= cx < x + whole && y <= cy < y + whole {
                    let right: int = if cx - x < s { 0 } else { 1 };
                    let lower: int = if cy - y < s { 0 } else { 1 };
                    let q = right + 2 * lower;
                    assert(q * b == if q == 0 {
                        0
                    } else if q == 1 {
                        b
                    } else if q == 2 {
                        2 * b
                    } else {
                        3 * b
                    }) by (nonlinear_arith)
                        requires
                            0 <= q < 4,
                    ;
                    assert(right * s == if right == 0 { 0 } else { s as int }) by (nonlinear_arith)
                        requires
                            0 <= right < 2,
                    ;
                    assert(lower * s == if lower == 0 { 0 } else { s as int }) by (nonlinear_arith)
                        requires
                            0 <= lower < 2,
                    ;
                }
            }
        }
    }
}

/// The four quarters of a buffer, in the order of the buffer.
pub(crate) fn quads<T>(slice: &[T]) -> (r: (&[T], &[T], &[T], &[T]))
    requires
        slice@.len() % 4 == 0,
    ensures
        r.0@ == quarter(slice@, 0, slice@.len() as int / 4),
        r.1@ == quarter(slice@, 1, slice@.len() as int / 4),
        r.2@ == quarter(slice@, 2, slice@.len() as int / 4),
        r.3@ == quarter(slice@, 3, slice@.len() as int / 4),
{
    let len = slice.len() / 4;
    let (first, rest) = slice.split_at(len);
    let (second, rest) = rest.split_at(len);
    let (third, fourth) = rest.split_at(len);
    proof {
        let l = len as int;
        assert(0 * l == 0 && 1 * l == l && 2 * l == l + l && 3 * l == l + l + l && 4 * l == l + l
            + l + l) by (nonlinear_arith);
        assert(first@ =~= quarter(slice@, 0, l));
        assert(second@ =~= quarter(slice@, 1, l));
        assert(third@ =~= quarter(slice@, 2, l));
        assert(fourth@ =~= quarter(slice@, 3, l));
    }
    (first, second, third, fourth)
}

/// The four quarters of a buffer, in the order of the buffer, for writing:
/// the buffer ends up as the four quarters do.
pub(crate) fn quads_mut<T>(slice: &mut [T]) -> (r: (&mut [T], &mut [T], &mut [T], &mut [T]))
    requires
        old(slice)@.len() % 4 == 0,
    ensures
        r.0@ == quarter(old(slice)@, 0, old(slice)@.len() as int / 4),
        r.1@ == quarter(old(slice)@, 1, old(slice)@.len() as int / 4),
        r.2@ == quarter(old(slice)@, 2, old(slice)@.len() as int / 4),
        r.3@ == quarter(old(slice)@, 3, old(slice)@.len() as int / 4),
        final(slice)@ == final(r.0)@ + final(r.1)@ + final(r.2)@ + final(r.3)@,
{
    let len = slice.len() / 4;
    let ghost whole = slice@;
    let (first, rest) = slice.split_at_mut(len);
    let (second, rest) = rest.split_at_mut(len);
    let (third, fourth) = rest.split_at_mut(len);
    proof {
        let l = len as int;
        assert(0 * l == 0 && 1 * l == l && 2 * l == l + l && 3 * l == l + l + l && 4 * l == l + l
            + l + l) by (nonlinear_arith);
        assert(first@ =~= quarter(whole, 0, l));
        assert(second@ =~= quarter(whole, 1, l));
        assert(third@ =~= quarter(whole, 2, l));
        assert(fourth@ =~= quarter(whole, 3, l));
        let joined = final(first)@ + final(second)@ + final(third)@ + final(fourth)@;
        assert(final(first)@ + (final(second)@ + (final(third)@ + final(fourth)@)) =~= joined);
    }
    (first, second, third, fourth)
}

/// Adds the product of the blocks `a` and `b` of side `size` to the block
/// `r`: with the kernel if the blocks are fragments, and else quarter by
/// quarter, each quarter of `r` taking up two products of quarters.
fn mult_add<T, D, K>(r: &mut [T], a: &[T], b: &[T], size: usize, frag: usize) where
    T: Element,
    D: Distribute,
    K: FragMultiplyAdd<T>,

    requires
        legal_side(size as int, frag as int),
        old(r)@.len() == size * size,
        a@.len() == size * size,
        b@.len() == size * size,
    ensures
        final(r)@ == z_accumulated::<K, T>(old(r)@, a@, b@, size as int, frag as int),
    decreases size,
{
    proof {
        lemma_legal_side_bounds(size as int, frag as int);
    }
    if size == frag {
        K::multiply_add(r, a, b, size);
        proof {
            lemma_leaf_step::<K, T>(old(r)@, a@, b@, size as int);
            assert(r@ =~= fragment_updated::<K, T>(old(r)@, a@, b@, size as int));
        }
    } else {
        proof {
            lemma_legal_half(size as int, frag as int);
            lemma_quarters(size as int);
        }
        let s = size / 2;
        let ghost blk = s * s;
        let (a11, a12, a21, a22) = quads(a);
        let (b11, b12, b21, b22) = quads(b);
        let (r11, r12, r21, r22) = quads_mut(r);
        let mut tasks = [
            (r11, a11, b11, a12, b21),
            (r12, a11, b12, a12, b22),
            (r21, a21, b11, a22, b21),
            (r22, a21, b12, a22, b22),
        ];
        let ghost before = tasks@;
        D::run(
            size,
            &mut tasks,
            |t: &mut (&mut [T], &[T], &[T], &[T], &[T])|
                requires
                    legal_side(s as int, frag as int),
                    size > s,
                    old(t).0@.len() == s * s,
                    old(t).1@.len() == s * s,
                    old(t).2@.len() == s * s,
                    old(t).3@.len() == s * s,
                    old(t).4@.len() == s * s,
                ensures
                    final(final(t).0)@ == final(old(t).0)@,
                    final(t).0@ == z_accumulated::<K, T>(
                        z_accumulated::<K, T>(
                            old(t).0@,
                            old(t).1@,
                            old(t).2@,
                            s as int,
                            frag as int,
                        ),
                        old(t).3@,
                        old(t).4@,
                        s as int,
                        frag as int,
                    ),
                {
                    mult_add::<T, D, K>(t.0, t.1, t.2, s, frag);
                    mult_add::<T, D, K>(t.0, t.3, t.4, s, frag);
                }
        );
        proof {
            assert(slot(before, 0));
            assert(slot(before, 1));
            assert(slot(before, 2));
            assert(slot(before, 3));
            lemma_quarter_step::<K, T>(old(r)@, a@, b@, size as int, frag as int, 0, 0);
            lemma_quarter_step::<K, T>(old(r)@, a@, b@, size as int, frag as int, 1, 0);
            lemma_quarter_step::<K, T>(old(r)@, a@, b@, size as int, frag as int, 0, 1);
            lemma_quarter_step::<K, T>(old(r)@, a@, b@, size as int, frag as int, 1, 1);
        }
    }
}

/// The product of `a` and `b`, computed by recursive subdivision down to
/// the fragments, which the kernel `K` multiplies; the sub-products of each
/// level are run by the distributor `D`. Each cell of the result is the sum,
/// formed from zero, of what the kernel adds for each stretch of `F`
/// elements of the cell's row of `a` and column of `b`, the stretches taken
/// from left to right. The operands are refused if their sizes differ.
pub fn multiply<T: Element, const F: usize, D: Distribute, K: FragMultiplyAdd<T>>(
    a: &Matrix<T, F>,
    b: &Matrix<T, F>,
) -> (r: Result<Matrix<T, F>, InvariantError>)
    requires
        a.wf(),
        b.wf(),
    ensures
        a.size() == b.size() ==> r is Ok,
        a.size() != b.size() ==> r == Err::<Matrix<T, F>, InvariantError>(
            InvariantError::ShapeMismatch,
        ),
        r is Ok ==> {
            let m = r->Ok_0;
            &&& m.wf()
            &&& m.size() == a.size()
            &&& m@ == z_accumulated::<K, T>(
                zeros::<T>(a.size() * a.size()),
                a@,
                b@,
                a.size() as int,
                F as int,
            )
        },
{
    if a.size != b.size {
        return Err(InvariantError::ShapeMismatch);
    }
    let mut result = Matrix { size: a.size, content: zero_buffer(a.size * a.size) };
    mult_add::<T, D, K>(
        result.content.as_mut_slice(),
        a.content.as_slice(),
        b.content.as_slice(),
        a.size,
        F,
    );
    Ok(result)
}

/// The product of `a` and `b` by Strassen's scheme: seven products of sums
/// and differences of quarters at each level above the fragments, which
/// the kernel `K` multiplies; the seven products of each level are run by
/// the distributor `D`. The operands are refused if their sizes differ.
pub fn strassen<T: Element, const F: usize, D: Distribute, K: FragMultiplyAdd<T>>(
    a: &Matrix<T, F>,
    b: &Matrix<T, F>,
) -> (r: Result<Matrix<T, F>, InvariantError>)
    requires
        a.wf(),
        b.wf(),
    ensures
        a.size() == b.size() ==> r is Ok,
        a.size() != b.size() ==> r == Err::<Matrix<T, F>, InvariantError>(
            InvariantError::ShapeMismatch,
        ),
        r is Ok ==> {
            let m = r->Ok_0;
            &&& m.wf()
            &&& m.size() == a.size()
            &&& m@ == strassen_block::<K, T>(
                zeros::<T>(a.size() * a.size()),
                a@,
                b@,
                a.size() as int,
                F as int,
            )
        },
{
    if a.size != b.size {
        return Err(InvariantError::ShapeMismatch);
    }
    let mut result = Matrix { size: a.size, content: zero_buffer(a.size * a.size) };
    step::<T, D, K>(
        result.content.as_mut_slice(),
        a.content.as_slice(),
        b.content.as_slice(),
        a.size,
        F,
    );
    Ok(result)
}

} // verus!
