//! The kernel that sums in lanes: the products of a row and a column are
//! dealt out to a fixed number of partial sums, which can be formed side
//! by side, and the partial sums are added up at the end.
use crate::element::{zero_buffer, zeros, Element};
use crate::error::InvariantError;
use crate::index::{
    done_before, lemma_cell_index, lemma_next_column, lemma_next_row, lemma_quotient,
};
use crate::product::{column_of, row_of};
use crate::simple::{Matrix, Slice, SliceMut};
use vstd::prelude::*;
use vstd::slice::slice_subrange;

verus! {

/// The number of partial sums.
pub const LANES: usize = 4;

/// The partial sum of lane `lane` after the first `n` products: the sum,
/// formed from zero in the order of `p`, of the products `u[p] * v[p]`
/// with `p % LANES == lane`.
pub open spec fn lane_sum<T: Element>(u: Seq<T>, v: Seq<T>, lane: int, n: int) -> T
    decreases n,
{
    if n <= 0 {
        T::zero_value()
    } else if (n - 1) % (LANES as int) == lane {
        T::sum(lane_sum(u, v, lane, n - 1), T::product(u[n - 1], v[n - 1]))
    } else {
        lane_sum(u, v, lane, n - 1)
    }
}

/// The sum, formed from zero, of the partial sums of the first `k` lanes
/// over the whole of `u` and `v`.
pub open spec fn lanes_total<T: Element>(u: Seq<T>, v: Seq<T>, k: int) -> T
    decreases k,
{
    if k <= 0 {
        T::zero_value()
    } else {
        T::sum(lanes_total(u, v, k - 1), lane_sum(u, v, k - 1, u.len() as int))
    }
}

/// The inner product of `u` and `v`, summed in lanes.
pub open spec fn lane_dot<T: Element>(u: Seq<T>, v: Seq<T>) -> T {
    lanes_total(u, v, LANES as int)
}

/// The buffer of a matrix of width `w` and height `h` after the product of
/// `a`, of width `l`, and `b`, of width `w`, was added to it: each cell
/// takes up the inner product, summed in lanes, of its row of `a` and its
/// column of `b`.
pub open spec fn lane_accumulated<T: Element>(
    into: Seq<T>,
    a: Seq<T>,
    b: Seq<T>,
    w: int,
    h: int,
    l: int,
) -> Seq<T> {
    Seq::new(
        (w * h) as nat,
        |i: int| T::sum(into[i], lane_dot(row_of(a, l, i / w), column_of(b, w, l, i % w))),
    )
}

/// The inner product of `u` and `v`, summed in lanes.
pub fn lane_reduce<T: Element>(u: &[T], v: &[T]) -> (r: T)
    requires
        u@.len() == v@.len(),
    ensures
        r == lane_dot(u@, v@),
{
    let n = u.len();
    let mut acc: [T; LANES] = [T::zero();LANES];
    let mut base: usize = 0;
    while n - base >= LANES
        invariant
            base <= n,
            n == u@.len(),
            n == v@.len(),
            base % LANES == 0,
            forall|lane: int| 0 <= lane < LANES ==> acc@[lane] == lane_sum(u@, v@, lane, base as int),
        decreases n - base,
    {
        let mut lane: usize = 0;
        while lane < LANES
            invariant
                lane <= LANES,
                base + LANES <= n,
                n == u@.len(),
                n == v@.len(),
                base % LANES == 0,
                forall|k: int|
                    0 <= k < LANES ==> acc@[k] == lane_sum(u@, v@, k, base + lane),
            decreases LANES - lane,
        {
            let term = u[base + lane].times(v[base + lane]);
            let ghost before = acc@;
            acc[lane] = acc[lane].plus(term);
            proof {
                assert((base + lane) % (LANES as int) == lane);
                assert forall|k: int| 0 <= k < LANES implies acc@[k] == lane_sum(
                    u@,
                    v@,
                    k,
                    base + lane + 1,
                ) by {
                    assert(before[k] == lane_sum(u@, v@, k, base + lane));
                }
            }
            lane += 1;
        }
        base += LANES;
    }
    let mut lane: usize = 0;
    while base + lane < n
        invariant
            lane <= LANES,
            base <= n,
            n - base < LANES,
            base + lane <= n,
            n == u@.len(),
            n == v@.len(),
            base % LANES == 0,
            forall|k: int| 0 <= k < LANES ==> acc@[k] == lane_sum(u@, v@, k, base + lane),
        decreases n - base - lane,
    {
        let term = u[base + lane].times(v[base + lane]);
        let ghost before = acc@;
        acc[lane] = acc[lane].plus(term);
        proof {
            assert((base + lane) % (LANES as int) == lane);
            assert forall|k: int| 0 <= k < LANES implies acc@[k] == lane_sum(
                u@,
                v@,
                k,
                base + lane + 1,
            ) by {
                assert(before[k] == lane_sum(u@, v@, k, base + lane));
            }
        }
        lane += 1;
    }
    let mut total = T::zero();
    let mut k: usize = 0;
    while k < LANES
        invariant
            k <= LANES,
            n == u@.len(),
            total == lanes_total(u@, v@, k as int),
            forall|j: int| 0 <= j < LANES ==> acc@[j] == lane_sum(u@, v@, j, n as int),
        decreases LANES - k,
    {
        total = total.plus(acc[k]);
        k += 1;
    }
    total
}

/// Adds the product of `a` and `b` to `into`, cell by cell: each column of
/// `b` in turn is copied to a scratch buffer, and each cell of that column
/// of `into` takes up the inner product, summed in lanes, of its row of `a`
/// and the scratch buffer.
pub fn multiply_add<T: Element>(into: &mut SliceMut<T>, a: &Slice<T>, b: &Slice<T>)
    requires
        old(into).wf(),
        a.wf(),
        b.wf(),
        a.width == b.height,
        a.height == old(into).height,
        b.width == old(into).width,
    ensures
        final(into).width == old(into).width,
        final(into).height == old(into).height,
        final(into).content@ == lane_accumulated(
            old(into).content@,
            a.content@,
            b.content@,
            old(into).width as int,
            old(into).height as int,
            a.width as int,
        ),
        final(final(into).content)@ == final(old(into).content)@,
{
    let w = into.width;
    let h = into.height;
    let l = a.width;
    let ghost start = into.content@;
    let ghost goal = lane_accumulated(start, a.content@, b.content@, w as int, h as int, l as int);
    let mut column_data: Vec<T> = zero_buffer(b.height);
    let mut x: usize = 0;
    while x < w
        invariant
            x <= w,
            into.width == w,
            into.height == h,
            a.width == l,
            b.height == l,
            a.height == h,
            b.width == w,
            a.wf(),
            b.wf(),
            column_data@.len() == l,
            start.len() == w * h <= usize::MAX,
            goal == lane_accumulated(start, a.content@, b.content@, w as int, h as int, l as int),
            final(into.content)@ == final(old(into).content)@,
            done_before(into.content@, start, goal, w as int, x as int, 0),
        decreases w - x,
    {
        let mut p: usize = 0;
        while p < l
            invariant
                p <= l,
                x < w,
                b.width == w,
                b.height == l,
                b.wf(),
                column_data@.len() == l,
                forall|j: int| 0 <= j < p ==> column_data@[j] == b.content@[x + w * j],
            decreases l - p,
        {
            proof {
                lemma_cell_index(x as int, p as int, w as int, l as int);
            }
            column_data[p] = b.content[x + w * p];
            p += 1;
        }
        assert(column_data@ =~= column_of(b.content@, w as int, l as int, x as int));
        let mut y: usize = 0;
        while y < h
            invariant
                x < w,
                y <= h,
                into.width == w,
                into.height == h,
                a.width == l,
                b.height == l,
                a.height == h,
                b.width == w,
                a.wf(),
                b.wf(),
                column_data@ == column_of(b.content@, w as int, l as int, x as int),
                start.len() == w * h <= usize::MAX,
                goal == lane_accumulated(
                    start,
                    a.content@,
                    b.content@,
                    w as int,
                    h as int,
                    l as int,
                ),
                final(into.content)@ == final(old(into).content)@,
                done_before(into.content@, start, goal, w as int, x as int, y as int),
            decreases h - y,
        {
            proof {
                lemma_cell_index(x as int, y as int, w as int, h as int);
                lemma_cell_index(0, y as int, l as int + 1, h as int);
                assert(y * l == l * y && (y + 1) * l == l * y + l <= l * h) by (nonlinear_arith)
                    requires
                        y < h,
                        0 <= l,
                ;
                lemma_quotient(x + w * y, w as int, y as int, x as int);
            }
            let row = slice_subrange(a.content, y * l, (y + 1) * l);
            proof {
                assert(row@ =~= row_of(a.content@, l as int, y as int));
            }
            let cell = x + w * y;
            let ghost before = into.content@;
            let sum = lane_reduce(row, column_data.as_slice());
            into.content[cell] = into.content[cell].plus(sum);
            proof {
                lemma_next_row(into.content@, before, start, goal, w as int, h as int, x as int, y as int);
            }
            y += 1;
        }
        proof {
            lemma_next_column(into.content@, start, goal, w as int, h as int, x as int);
        }
        x += 1;
    }
    proof {
        assert(into.content@ =~= goal);
    }
}

/// The product of `a` and `b`, with each cell summed in lanes: the matrix
/// as wide as `b` and as high as `a` whose cell in column `x` and row `y`
/// is zero plus the inner product, summed in lanes, of row `y` of `a` and
/// column `x` of `b`. The operands are refused if `a` is not as wide as `b`
/// is high.
pub fn multiply<T: Element>(a: &Matrix<T>, b: &Matrix<T>) -> (r: Result<Matrix<T>, InvariantError>)
    requires
        a.wf(),
        b.wf(),
        b.width() * a.height() <= usize::MAX,
    ensures
        a.width() == b.height() ==> r is Ok,
        a.width() != b.height() ==> r == Err::<Matrix<T>, InvariantError>(
            InvariantError::ShapeMismatch,
        ),
        r is Ok ==> {
            let m = r->Ok_0;
            &&& m.wf()
            &&& m.width() == b.width()
            &&& m.height() == a.height()
            &&& m@ == lane_accumulated(
                zeros::<T>(b.width() * a.height()),
                a@,
                b@,
                b.width() as int,
                a.height() as int,
                a.width() as int,
            )
        },
{
    if a.width() != b.height() {
        return Err(InvariantError::ShapeMismatch);
    }
    let mut result = Matrix::sized(b.width(), a.height());
    let mut target = result.slice_mut();
    multiply_add(&mut target, &a.slice(), &b.slice());
    Ok(result)
}

} // verus!
