//! Where the cells of a matrix lie in a buffer that holds it row after
//! row.
use vstd::arithmetic::div_mod::{lemma_fundamental_div_mod, lemma_fundamental_div_mod_converse};
use vstd::prelude::*;

verus! {

/// `x` is `q * d + r` with `0 <= r < d` in one way only.
pub proof fn lemma_quotient(x: int, d: int, q: int, r: int)
    requires
        d > 0,
        0 <= r < d,
        x == q * d + r,
    ensures
        x / d == q,
        x % d == r,
{
    lemma_fundamental_div_mod_converse(x, d, q, r);
}

/// The element in column `x` and row `y` of a buffer of width `w` and
/// height `h` lies in the buffer.
pub proof fn lemma_cell_index(x: int, y: int, w: int, h: int)
    requires
        0 <= x < w,
        0 <= y < h,
    ensures
        0 <= w * y <= x + w * y < w * h,
        w * y + w <= w * h,
{
    assert(0 <= w * y && w * y + w <= w * h) by (nonlinear_arith)
        requires
            0 <= x < w,
            0 <= y < h,
    ;
}

/// Two cells of a matrix that share a position in the buffer are one cell.
pub proof fn lemma_same_cell(x1: int, y1: int, x2: int, y2: int, w: int)
    requires
        0 <= x1 < w,
        0 <= x2 < w,
        x1 + w * y1 == x2 + w * y2,
    ensures
        x1 == x2,
        y1 == y2,
{
    assert(y1 == y2) by (nonlinear_arith)
        requires
            0 <= x1 < w,
            0 <= x2 < w,
            x1 + w * y1 == x2 + w * y2,
    ;
    assert(x1 == x2) by (nonlinear_arith)
        requires
            y1 == y2,
            x1 + w * y1 == x2 + w * y2,
    ;
}

/// Position `i` of the buffer holds the cell in column `i % w` and row
/// `i / w`.
pub proof fn lemma_cell_of_index(i: int, w: int, h: int)
    requires
        0 <= i < w * h,
        0 < w,
    ensures
        0 <= i % w < w,
        0 <= i / w < h,
        i == i % w + w * (i / w),
{
    lemma_fundamental_div_mod(i, w);
    assert(0 <= i / w < h) by (nonlinear_arith)
        requires
            0 <= i < w * h,
            0 < w,
            i == w * (i / w) + i % w,
            0 <= i % w < w,
    ;
}

/// Whether the cell at position `i` of a buffer of width `w` comes before
/// the cell in column `x` and row `y` when the cells are visited column by
/// column, each column from the top.
pub open spec fn visited(i: int, w: int, x: int, y: int) -> bool {
    i % w < x || (i % w == x && i / w < y)
}

/// The buffer `work` holds `goal` in the cells that come before the cell
/// in column `x` and row `y`, and `start` in the others.
pub open spec fn done_before<T>(
    work: Seq<T>,
    start: Seq<T>,
    goal: Seq<T>,
    w: int,
    x: int,
    y: int,
) -> bool {
    &&& work.len() == start.len()
    &&& forall|i: int|
        0 <= i < work.len() ==> work[i] == if visited(i, w, x, y) {
            goal[i]
        } else {
            start[i]
        }
}

/// After the last row of a column comes the first row of the next.
pub proof fn lemma_next_column<T>(
    work: Seq<T>,
    start: Seq<T>,
    goal: Seq<T>,
    w: int,
    h: int,
    x: int,
)
    requires
        done_before(work, start, goal, w, x, h),
        work.len() == w * h,
        0 <= x < w,
    ensures
        done_before(work, start, goal, w, x + 1, 0),
{
    assert forall|i: int| 0 <= i < work.len() implies work[i] == if visited(i, w, x + 1, 0) {
        goal[i]
    } else {
        start[i]
    } by {
        lemma_cell_of_index(i, w, h);
    }
}

/// The cell in column `x` and row `y` is the one cell that lies between
/// those before it and those before the next.
pub proof fn lemma_next_row<T>(
    work: Seq<T>,
    before: Seq<T>,
    start: Seq<T>,
    goal: Seq<T>,
    w: int,
    h: int,
    x: int,
    y: int,
)
    requires
        done_before(before, start, goal, w, x, y),
        before.len() == w * h,
        goal.len() == w * h,
        0 <= x < w,
        0 <= y < h,
        work == before.update(x + w * y, goal[x + w * y]),
    ensures
        done_before(work, start, goal, w, x, y + 1),
{
    lemma_cell_index(x, y, w, h);
    assert(x + w * y == y * w + x) by (nonlinear_arith);
    lemma_quotient(x + w * y, w, y, x);
    assert forall|i: int| 0 <= i < work.len() implies work[i] == if visited(i, w, x, y + 1) {
        goal[i]
    } else {
        start[i]
    } by {
        lemma_cell_of_index(i, w, h);
    }
}

} // verus!
