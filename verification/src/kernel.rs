//! The kernels that multiply the fragments at the leaves of the recursion.
use crate::element::Element;
use crate::product::{column_of, dot_from, row_of};
use crate::simd;
use crate::simd::{lane_accumulated, lane_dot};
use crate::simple;
use crate::simple::{accumulated, Slice, SliceMut};
use vstd::prelude::*;

verus! {

/// A way to add the product of two fragments to a third.
///
/// A kernel adds to each cell of the target the products of the elements
/// of a row of `a` and of a column of `b`. Kernels differ in the order in
/// which they add them, which [`FragMultiplyAdd::cell`] fixes.
pub trait FragMultiplyAdd<T: Element> {
    /// What a cell that holds `init` holds after the products of the
    /// elements of the row `u` and of the column `v` were added to it.
    spec fn cell(init: T, u: Seq<T>, v: Seq<T>) -> T;

    /// Adds the product of the fragments `a` and `b`, of side `size` and
    /// in row-major order, to the fragment `r`.
    fn multiply_add(r: &mut [T], a: &[T], b: &[T], size: usize)
        requires
            old(r)@.len() == size * size,
            a@.len() == size * size,
            b@.len() == size * size,
        ensures
            final(r)@ == Seq::new(
                (size * size) as nat,
                |i: int|
                    Self::cell(
                        old(r)@[i],
                        row_of(a@, size as int, i / (size as int)),
                        column_of(b@, size as int, size as int, i % (size as int)),
                    ),
            ),
    ;
}

/// The fragment `r` of side `s` after the kernel `K` added the product of
/// the fragments `a` and `b` to it.
pub open spec fn fragment_updated<K: FragMultiplyAdd<T>, T: Element>(
    r: Seq<T>,
    a: Seq<T>,
    b: Seq<T>,
    s: int,
) -> Seq<T> {
    Seq::new(
        (s * s) as nat,
        |i: int| K::cell(r[i], row_of(a, s, i / s), column_of(b, s, s, i % s)),
    )
}

/// The kernel that adds the products one by one, in the order of the row.
pub struct SimpleMultiplyAdd;

impl<T: Element> FragMultiplyAdd<T> for SimpleMultiplyAdd {
    open spec fn cell(init: T, u: Seq<T>, v: Seq<T>) -> T {
        dot_from(init, u, v, u.len() as int)
    }

    fn multiply_add(r: &mut [T], a: &[T], b: &[T], size: usize) {
        let ghost before = r@;
        assert(r.len() == size * size);
        let mut target = SliceMut { width: size, height: size, content: r };
        simple::multiply_add(
            &mut target,
            &Slice { width: size, height: size, content: a },
            &Slice { width: size, height: size, content: b },
        );
        proof {
            let s = size as int;
            assert(accumulated(before, a@, b@, s, s, s) =~= Seq::new(
                (s * s) as nat,
                |i: int|
                    dot_from(before[i], row_of(a@, s, i / s), column_of(b@, s, s, i % s), s),
            ));
        }
    }
}

/// The kernel that sums in lanes and adds the total to the cell.
pub struct SimdMultiplyAdd;

impl<T: Element> FragMultiplyAdd<T> for SimdMultiplyAdd {
    open spec fn cell(init: T, u: Seq<T>, v: Seq<T>) -> T {
        T::sum(init, lane_dot(u, v))
    }

    fn multiply_add(r: &mut [T], a: &[T], b: &[T], size: usize) {
        let ghost before = r@;
        assert(r.len() == size * size);
        let mut target = SliceMut { width: size, height: size, content: r };
        simd::multiply_add(
            &mut target,
            &Slice { width: size, height: size, content: a },
            &Slice { width: size, height: size, content: b },
        );
        proof {
            let s = size as int;
            assert(lane_accumulated(before, a@, b@, s, s, s) =~= Seq::new(
                (s * s) as nat,
                |i: int|
                    T::sum(before[i], lane_dot(row_of(a@, s, i / s), column_of(b@, s, s, i % s))),
            ));
        }
    }
}

} // verus!
