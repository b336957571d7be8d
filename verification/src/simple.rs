//! Matrices in row-major order, and the plain way to multiply them.
use crate::element::{zero_buffer, zeros, Element};
use crate::error::InvariantError;
use crate::index::{
    done_before, lemma_cell_index, lemma_cell_of_index, lemma_next_column, lemma_next_row,
    lemma_quotient,
};
use crate::product::{column_of, dot_from, row_of};
use vstd::prelude::*;
use vstd::slice::slice_subrange;

verus! {

/// A matrix of `width` columns and `height` rows. The element in column `x`
/// and row `y` is the one at position `x + width * y` of the buffer.
#[derive(Clone, Debug, PartialEq)]
pub struct Matrix<T> {
    width: usize,
    height: usize,
    content: Vec<T>,
}

impl<T> View for Matrix<T> {
    type V = Seq<T>;

    /// The buffer, row after row.
    closed spec fn view(&self) -> Seq<T> {
        self.content@
    }
}

/// The rows of a matrix, handed out one at a time from the top.
pub struct Rows<'a, T> {
    matrix: &'a Matrix<T>,
    pos: usize,
}

/// A borrowed matrix: the shape, and the buffer of some other owner.
pub struct Slice<'a, T> {
    pub width: usize,
    pub height: usize,
    pub content: &'a [T],
}

/// A borrowed matrix whose elements can be written.
pub struct SliceMut<'a, T> {
    pub width: usize,
    pub height: usize,
    pub content: &'a mut [T],
}

impl<'a, T: Element> Slice<'a, T> {
    /// The buffer has one element for each cell.
    pub open spec fn wf(&self) -> bool {
        self.content@.len() == self.width * self.height <= usize::MAX
    }
}

impl<'a, T: Element> SliceMut<'a, T> {
    /// The buffer has one element for each cell.
    pub open spec fn wf(&self) -> bool {
        self.content@.len() == self.width * self.height <= usize::MAX
    }
}

impl<T: Element> Matrix<T> {
    /// The number of columns.
    pub closed spec fn spec_width(&self) -> usize {
        self.width
    }

    /// The number of rows.
    pub closed spec fn spec_height(&self) -> usize {
        self.height
    }

    /// The buffer has one element for each cell.
    pub open spec fn wf(&self) -> bool {
        self@.len() == self.width() * self.height() <= usize::MAX
    }

    /// The element in column `x` and row `y`.
    pub open spec fn at(&self, x: int, y: int) -> T {
        self@[x + self.width() * y]
    }

    /// A matrix of the given shape with every element zero.
    pub fn sized(w: usize, h: usize) -> (r: Self)
        requires
            w * h <= usize::MAX,
        ensures
            r.wf(),
            r.width() == w,
            r.height() == h,
            r@ == zeros::<T>(w * h),
    {
        let content = zero_buffer(w * h);
        Matrix { width: w, height: h, content }
    }

    /// The matrix of the given shape that holds `content`, row after row.
    /// It is refused if `content` has not one element for each cell.
    pub fn from_vec(w: usize, h: usize, content: Vec<T>) -> (r: Result<Self, InvariantError>)
        ensures
            content@.len() == w * h ==> r is Ok,
            content@.len() != w * h ==> r == Err::<Self, InvariantError>(
                InvariantError::ShapeMismatch,
            ),
            r is Ok ==> {
                let m = r->Ok_0;
                m.wf() && m.width() == w && m.height() == h && m@ == content@
            },
    {
        let len = content.len();
        match w.checked_mul(h) {
            Some(n) => {
                if len == n {
                    Ok(Matrix { width: w, height: h, content })
                } else {
                    Err(InvariantError::ShapeMismatch)
                }
            },
            None => Err(InvariantError::ShapeMismatch),
        }
    }

    /// The square matrix with one on the diagonal and zero elsewhere.
    pub fn identity(size: usize) -> (r: Self)
        requires
            size * size <= usize::MAX,
        ensures
            r.wf(),
            r.width() == size,
            r.height() == size,
            r@ == identity_cells::<T>(size as int),
    {
        let mut r = Self::sized(size, size);
        let mut i: usize = 0;
        proof {
            let n = size as int;
            assert forall|j: int| 0 <= j < n * n implies r@[j] == diagonal_cells::<T>(n, 0)[j] by {
                assert(n > 0) by (nonlinear_arith)
                    requires
                        0 <= j < n * n,
                        0 <= n,
                ;
                lemma_cell_of_index(j, n, n);
            }
            assert(r@ =~= diagonal_cells::<T>(n, 0));
        }
        while i < size
            invariant
                i <= size,
                r.wf(),
                r.width() == size,
                r.height() == size,
                r@ == diagonal_cells::<T>(size as int, i as int),
            decreases size - i,
        {
            let ghost before = r@;
            r.set(i, i, T::one());
            proof {
                let n = size as int;
                lemma_cell_index(i as int, i as int, n, n);
                assert(i + n * i == i * n + i) by (nonlinear_arith);
                lemma_quotient(i + n * i, n, i as int, i as int);
                assert forall|j: int| 0 <= j < n * n implies r@[j] == diagonal_cells::<T>(
                    n,
                    i + 1,
                )[j] by {
                    lemma_cell_of_index(j, n, n);
                    assert(before[j] == diagonal_cells::<T>(n, i as int)[j]);
                }
                assert(r@ =~= diagonal_cells::<T>(n, i + 1));
            }
            i += 1;
        }
        proof {
            let n = size as int;
            assert forall|j: int| 0 <= j < n * n implies diagonal_cells::<T>(n, n)[j]
                == identity_cells::<T>(n)[j] by {
                assert(n > 0) by (nonlinear_arith)
                    requires
                        0 <= j < n * n,
                        0 <= n,
                ;
                lemma_cell_of_index(j, n, n);
            }
            assert(r@ =~= identity_cells::<T>(n));
        }
        r
    }

    /// The rows, from the top.
    pub fn rows(&self) -> (r: Rows<'_, T>)
        ensures
            r.matrix() == *self,
            r.position() == 0,
    {
        Rows { matrix: self, pos: 0 }
    }

    /// The number of rows.
    #[verifier::when_used_as_spec(spec_height)]
    pub fn height(&self) -> (h: usize)
        ensures
            h == self.spec_height(),
    {
        self.height
    }

    /// The number of columns.
    #[verifier::when_used_as_spec(spec_width)]
    pub fn width(&self) -> (w: usize)
        ensures
            w == self.spec_width(),
    {
        self.width
    }

    /// The buffer, row after row.
    pub fn content(&self) -> (r: &[T])
        ensures
            r@ == self@,
    {
        self.content.as_slice()
    }

    /// The element in column `x` and row `y`.
    pub fn get(&self, x: usize, y: usize) -> (r: T)
        requires
            self.wf(),
            x < self.width(),
            y < self.height(),
        ensures
            r == self.at(x as int, y as int),
    {
        proof {
            lemma_cell_index(x as int, y as int, self.width as int, self.height as int);
        }
        self.content[x + self.width * y]
    }

    /// Puts `value` in column `x` and row `y`.
    pub fn set(&mut self, x: usize, y: usize, value: T)
        requires
            old(self).wf(),
            x < old(self).width(),
            y < old(self).height(),
        ensures
            final(self).wf(),
            final(self).width() == old(self).width(),
            final(self).height() == old(self).height(),
            final(self)@ == old(self)@.update(x + old(self).width() * y, value),
    {
        proof {
            lemma_cell_index(x as int, y as int, self.width as int, self.height as int);
        }
        let i = x + self.width * y;
        self.content[i] = value;
    }

    /// The whole matrix, borrowed.
    pub fn slice(&self) -> (r: Slice<'_, T>)
        ensures
            r.width == self.width(),
            r.height == self.height(),
            r.content@ == self@,
    {
        Slice { width: self.width, height: self.height, content: self.content.as_slice() }
    }

    /// The whole matrix, borrowed for writing: what is written to the
    /// slice's buffer is written to the matrix.
    pub fn slice_mut(&mut self) -> (r: SliceMut<'_, T>)
        ensures
            r.width == old(self).width(),
            r.height == old(self).height(),
            r.content@ == old(self)@,
            final(self).width() == old(self).width(),
            final(self).height() == old(self).height(),
            final(self)@ == final(r.content)@,
    {
        SliceMut { width: self.width, height: self.height, content: self.content.as_mut_slice() }
    }
}

/// The buffer of the square matrix of the given size with one in the first
/// `k` places of the diagonal and zero elsewhere.
pub open spec fn diagonal_cells<T: Element>(size: int, k: int) -> Seq<T> {
    Seq::new(
        (size * size) as nat,
        |i: int|
            if i % size == i / size && i / size < k {
                T::one_value()
            } else {
                T::zero_value()
            },
    )
}

/// The buffer of the identity matrix of the given size.
pub open spec fn identity_cells<T: Element>(size: int) -> Seq<T> {
    Seq::new(
        (size * size) as nat,
        |i: int|
            if i % size == i / size {
                T::one_value()
            } else {
                T::zero_value()
            },
    )
}

/// The buffer of a matrix of width `w` and height `h` after the product of
/// `a`, of width `l`, and `b`, of width `w`, was added to it: each cell
/// takes up, in the order of `p`, the products of the elements `p` of its
/// row of `a` and of its column of `b`.
pub open spec fn accumulated<T: Element>(
    into: Seq<T>,
    a: Seq<T>,
    b: Seq<T>,
    w: int,
    h: int,
    l: int,
) -> Seq<T> {
    Seq::new(
        (w * h) as nat,
        |i: int| dot_from(into[i], row_of(a, l, i / w), column_of(b, w, l, i % w), l),
    )
}

/// Adds the product of `a` and `b` to `into`, cell by cell, with the plain
/// triple loop.
pub fn multiply_add<T: Element>(into: &mut SliceMut<T>, a: &Slice<T>, b: &Slice<T>)
    requires
        old(into).wf(),
        a.wf(),
        b.wf(),
        a.width == b.height,
        a.height == old(into).height,
        b.width == old(into).width,
    ensures
        final(into).width == old(into).width,
        final(into).height == old(into).height,
        final(into).content@ == accumulated(
            old(into).content@,
            a.content@,
            b.content@,
            old(into).width as int,
            old(into).height as int,
            a.width as int,
        ),
        final(final(into).content)@ == final(old(into).content)@,
{
    let w = into.width;
    let h = into.height;
    let l = a.width;
    let ghost start = into.content@;
    let ghost goal = accumulated(start, a.content@, b.content@, w as int, h as int, l as int);
    let mut x: usize = 0;
    while x < w
        invariant
            x <= w,
            into.width == w,
            into.height == h,
            a.width == l,
            b.height == l,
            a.height == h,
            b.width == w,
            a.wf(),
            b.wf(),
            start.len() == w * h <= usize::MAX,
            goal == accumulated(start, a.content@, b.content@, w as int, h as int, l as int),
            final(into.content)@ == final(old(into).content)@,
            done_before(into.content@, start, goal, w as int, x as int, 0),
        decreases w - x,
    {
        let mut y: usize = 0;
        while y < h
            invariant
                x < w,
                y <= h,
                into.width == w,
                into.height == h,
                a.width == l,
                b.height == l,
                a.height == h,
                b.width == w,
                a.wf(),
                b.wf(),
                start.len() == w * h <= usize::MAX,
                goal == accumulated(start, a.content@, b.content@, w as int, h as int, l as int),
                final(into.content)@ == final(old(into).content)@,
                done_before(into.content@, start, goal, w as int, x as int, y as int),
            decreases h - y,
        {
            proof {
                lemma_cell_index(x as int, y as int, w as int, h as int);
                lemma_quotient(x + w * y, w as int, y as int, x as int);
            }
            let cell = x + w * y;
            let ghost row = row_of(a.content@, l as int, y as int);
            let ghost col = column_of(b.content@, w as int, l as int, x as int);
            let ghost before = into.content@;
            let mut p: usize = 0;
            while p < l
                invariant
                    x < w,
                    y < h,
                    p <= l,
                    cell == x + w * y < w * h,
                    into.width == w,
                    into.height == h,
                    a.width == l,
                    b.height == l,
                    a.height == h,
                    b.width == w,
                    a.wf(),
                    b.wf(),
                    before.len() == w * h,
                    row == row_of(a.content@, l as int, y as int),
                    col == column_of(b.content@, w as int, l as int, x as int),
                    final(into.content)@ == final(old(into).content)@,
                    into.content@ == before.update(
                        cell as int,
                        dot_from(before[cell as int], row, col, p as int),
                    ),
                decreases l - p,
            {
                proof {
                    lemma_cell_index(p as int, y as int, l as int, h as int);
                    lemma_cell_index(x as int, p as int, w as int, l as int);
                }
                let term = a.content[p + l * y].times(b.content[x + w * p]);
                let next = into.content[cell].plus(term);
                into.content[cell] = next;
                p += 1;
                proof {
                    assert(into.content@ =~= before.update(
                        cell as int,
                        dot_from(before[cell as int], row, col, p as int),
                    ));
                }
            }
            proof {
                lemma_next_row(into.content@, before, start, goal, w as int, h as int, x as int, y as int);
            }
            y += 1;
        }
        proof {
            lemma_next_column(into.content@, start, goal, w as int, h as int, x as int);
        }
        x += 1;
    }
    proof {
        assert(into.content@ =~= goal);
    }
}

/// The product of `a` and `b`: the matrix as wide as `b` and as high as
/// `a` whose cell in column `x` and row `y` is the sum, formed from zero
/// in the order of `p`, of the products of the elements `p` of row `y` of
/// `a` and of column `x` of `b`. The operands are refused if `a` is not as
/// wide as `b` is high.
pub fn multiply<T: Element>(a: &Matrix<T>, b: &Matrix<T>) -> (r: Result<Matrix<T>, InvariantError>)
    requires
        a.wf(),
        b.wf(),
        b.width() * a.height() <= usize::MAX,
    ensures
        a.width() == b.height() ==> r is Ok,
        a.width() != b.height() ==> r == Err::<Matrix<T>, InvariantError>(
            InvariantError::ShapeMismatch,
        ),
        r is Ok ==> {
            let m = r->Ok_0;
            &&& m.wf()
            &&& m.width() == b.width()
            &&& m.height() == a.height()
            &&& m@ == product_cells(a@, b@, b.width() as int, a.height() as int, a.width() as int)
        },
{
    if a.width != b.height {
        return Err(InvariantError::ShapeMismatch);
    }
    let mut r = Matrix::sized(b.width, a.height);
    let mut target = r.slice_mut();
    multiply_add(&mut target, &a.slice(), &b.slice());
    proof {
        let w = b.width as int;
        let h = a.height as int;
        let l = a.width as int;
        assert(accumulated(zeros::<T>(w * h), a@, b@, w, h, l) =~= product_cells(
            a@,
            b@,
            w,
            h,
            l,
        ));
    }
    Ok(r)
}

/// The buffer of the product of `a`, of width `l` and height `h`, and `b`,
/// of width `w` and height `l`.
pub open spec fn product_cells<T: Element>(a: Seq<T>, b: Seq<T>, w: int, h: int, l: int) -> Seq<T> {
    Seq::new(
        (w * h) as nat,
        |i: int| dot_from(T::zero_value(), row_of(a, l, i / w), column_of(b, w, l, i % w), l),
    )
}

impl<'a, T: Element> Rows<'a, T> {
    /// The matrix whose rows these are.
    pub closed spec fn matrix(&self) -> Matrix<T> {
        *self.matrix
    }

    /// The number of rows handed out so far.
    pub closed spec fn position(&self) -> usize {
        self.pos
    }

    /// The next row, or `None` after the last.
    pub fn next(&mut self) -> (r: Option<&'a [T]>)
        requires
            old(self).matrix().wf(),
            old(self).position() <= old(self).matrix().height(),
        ensures
            final(self).matrix() == old(self).matrix(),
            old(self).position() == old(self).matrix().height() ==> {
                &&& r is None
                &&& final(self).position() == old(self).position()
            },
            old(self).position() < old(self).matrix().height() ==> {
                &&& r is Some
                &&& r->Some_0@ == row_of(
                    old(self).matrix()@,
                    old(self).matrix().width() as int,
                    old(self).position() as int,
                )
                &&& final(self).position() == old(self).position() + 1
            },
    {
        if self.pos == self.matrix.height {
            None
        } else {
            let width = self.matrix.width;
            proof {
                lemma_cell_index(0, self.pos as int, width as int + 1, self.matrix.height as int);
                assert(width * self.pos + width <= width * self.matrix.height) by (nonlinear_arith)
                    requires
                        self.pos < self.matrix.height,
                        0 <= width,
                ;
            }
            let start = width * self.pos;
            let row = slice_subrange(self.matrix.content.as_slice(), start, start + width);
            proof {
                assert(row@ =~= row_of(self.matrix@, width as int, self.pos as int));
            }
            self.pos += 1;
            Some(row)
        }
    }
}

} // verus!
