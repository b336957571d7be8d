//! Strassen's scheme: the product of two blocks from seven products of
//! sums and differences of their quarters.
use crate::blocked::quarter;
use crate::distribute::{slot, Distribute};
use crate::element::{zero_buffer, zeros, Element};
use crate::kernel::{fragment_updated, FragMultiplyAdd};
use crate::layout::{is_leaf, legal_side, lemma_legal_half, lemma_legal_side_bounds, lemma_quarters};
use crate::znot::{quads, quads_mut};
use vstd::prelude::*;

verus! {

/// The sums of the elements of `a` and `b` at the same positions.
pub open spec fn added<T: Element>(a: Seq<T>, b: Seq<T>) -> Seq<T> {
    Seq::new(a.len(), |i: int| T::sum(a[i], b[i]))
}

/// The differences of the elements of `a` and `b` at the same positions.
pub open spec fn subtracted<T: Element>(a: Seq<T>, b: Seq<T>) -> Seq<T> {
    Seq::new(a.len(), |i: int| T::difference(a[i], b[i]))
}

/// The seven products of Strassen's scheme for the blocks `a` and `b` of
/// side `s`, each a buffer in Z-order of a block of side `s / 2`.
pub open spec fn strassen_products<K: FragMultiplyAdd<T>, T: Element>(
    a: Seq<T>,
    b: Seq<T>,
    s: int,
    f: int,
) -> Seq<Seq<T>>
    decreases s, 0int,
    when !is_leaf(s, f)
{
    let h = s / 2;
    let blk = h * h;
    let a11 = quarter(a, 0, blk);
    let a12 = quarter(a, 1, blk);
    let a21 = quarter(a, 2, blk);
    let a22 = quarter(a, 3, blk);
    let b11 = quarter(b, 0, blk);
    let b12 = quarter(b, 1, blk);
    let b21 = quarter(b, 2, blk);
    let b22 = quarter(b, 3, blk);
    let z = zeros::<T>(blk);
    seq![
        strassen_block::<K, T>(z, added(a11, a22), added(b11, b22), h, f),
        strassen_block::<K, T>(z, added(a21, a22), b11, h, f),
        strassen_block::<K, T>(z, a11, subtracted(b12, b22), h, f),
        strassen_block::<K, T>(z, a22, subtracted(b21, b11), h, f),
        strassen_block::<K, T>(z, added(a11, a12), b22, h, f),
        strassen_block::<K, T>(z, subtracted(a21, a11), added(b11, b12), h, f),
        strassen_block::<K, T>(z, subtracted(a12, a22), added(b21, b22), h, f),
    ]
}

/// The buffer, in Z-order, that Strassen's scheme leaves in a block of
/// side `s` that held `r`, for the blocks `a` and `b`. A fragment takes up
/// the product that the kernel `K` adds to it. A larger block is made of
/// the seven products `m` of its level:
///
/// ```text
/// m[0] + m[3] - m[4] + m[6]    m[2] + m[4]
/// m[1] + m[3]                  m[0] - m[1] + m[2] + m[5]
/// ```
///
/// with the sums formed from left to right.
pub open spec fn strassen_block<K: FragMultiplyAdd<T>, T: Element>(
    r: Seq<T>,
    a: Seq<T>,
    b: Seq<T>,
    s: int,
    f: int,
) -> Seq<T>
    decreases s, 1int,
{
    if is_leaf(s, f) {
        fragment_updated::<K, T>(r, a, b, s)
    } else {
        let m = strassen_products::<K, T>(a, b, s, f);
        added(subtracted(added(m[0], m[3]), m[4]), m[6]) + added(m[2], m[4]) + added(m[1], m[3])
            + added(added(subtracted(m[0], m[1]), m[2]), m[5])
    }
}

/// A new buffer with the sums of the elements of `a` and `b`.
fn sum_of<T: Element>(a: &[T], b: &[T]) -> (r: Vec<T>)
    requires
        a@.len() == b@.len(),
    ensures
        r@ == added(a@, b@),
{
    let n = a.len();
    let mut r: Vec<T> = Vec::with_capacity(n);
    let mut i: usize = 0;
    while i < n
        invariant
            i <= n,
            n == a@.len(),
            n == b@.len(),
            r@.len() == i,
            forall|j: int| 0 <= j < i ==> r@[j] == T::sum(a@[j], b@[j]),
        decreases n - i,
    {
        r.push(a[i].plus(b[i]));
        i += 1;
    }
    assert(r@ =~= added(a@, b@));
    r
}

/// A new buffer with the differences of the elements of `a` and `b`.
fn difference_of<T: Element>(a: &[T], b: &[T]) -> (r: Vec<T>)
    requires
        a@.len() == b@.len(),
    ensures
        r@ == subtracted(a@, b@),
{
    let n = a.len();
    let mut r: Vec<T> = Vec::with_capacity(n);
    let mut i: usize = 0;
    while i < n
        invariant
            i <= n,
            n == a@.len(),
            n == b@.len(),
            r@.len() == i,
            forall|j: int| 0 <= j < i ==> r@[j] == T::difference(a@[j], b@[j]),
        decreases n - i,
    {
        r.push(a[i].minus(b[i]));
        i += 1;
    }
    assert(r@ =~= subtracted(a@, b@));
    r
}

/// Writes `a + b` to `r`, element by element.
fn store_sum<T: Element>(r: &mut [T], a: &[T], b: &[T])
    requires
        old(r)@.len() == a@.len(),
        a@.len() == b@.len(),
    ensures
        final(r)@ == added(a@, b@),
{
    let n = r.len();
    let mut i: usize = 0;
    while i < n
        invariant
            i <= n,
            n == r@.len(),
            n == a@.len(),
            n == b@.len(),
            forall|j: int| 0 <= j < i ==> r@[j] == T::sum(a@[j], b@[j]),
        decreases n - i,
    {
        r[i] = a[i].plus(b[i]);
        i += 1;
    }
    assert(r@ =~= added(a@, b@));
}

/// Writes `a + b - c + d` to `r`, element by element.
fn store_sum_less_plus<T: Element>(r: &mut [T], a: &[T], b: &[T], c: &[T], d: &[T])
    requires
        old(r)@.len() == a@.len(),
        a@.len() == b@.len(),
        a@.len() == c@.len(),
        a@.len() == d@.len(),
    ensures
        final(r)@ == added(subtracted(added(a@, b@), c@), d@),
{
    let n = r.len();
    let mut i: usize = 0;
    while i < n
        invariant
            i <= n,
            n == r@.len(),
            n == a@.len(),
            n == b@.len(),
            n == c@.len(),
            n == d@.len(),
            forall|j: int|
                0 <= j < i ==> r@[j] == T::sum(
                    T::difference(T::sum(a@[j], b@[j]), c@[j]),
                    d@[j],
                ),
        decreases n - i,
    {
        r[i] = a[i].plus(b[i]).minus(c[i]).plus(d[i]);
        i += 1;
    }
    assert(r@ =~= added(subtracted(added(a@, b@), c@), d@));
}

/// Writes `a - b + c + d` to `r`, element by element.
fn store_less_plus_plus<T: Element>(r: &mut [T], a: &[T], b: &[T], c: &[T], d: &[T])
    requires
        old(r)@.len() == a@.len(),
        a@.len() == b@.len(),
        a@.len() == c@.len(),
        a@.len() == d@.len(),
    ensures
        final(r)@ == added(added(subtracted(a@, b@), c@), d@),
{
    let n = r.len();
    let mut i: usize = 0;
    while i < n
        invariant
            i <= n,
            n == r@.len(),
            n == a@.len(),
            n == b@.len(),
            n == c@.len(),
            n == d@.len(),
            forall|j: int|
                0 <= j < i ==> r@[j] == T::sum(
                    T::sum(T::difference(a@[j], b@[j]), c@[j]),
                    d@[j],
                ),
        decreases n - i,
    {
        r[i] = a[i].minus(b[i]).plus(c[i]).plus(d[i]);
        i += 1;
    }
    assert(r@ =~= added(added(subtracted(a@, b@), c@), d@));
}

/// Leaves in the block `r` what Strassen's scheme makes of the blocks `a`
/// and `b` of side `size`.
pub(crate) fn step<T, D, K>(r: &mut [T], a: &[T], b: &[T], size: usize, frag: usize) where
    T: Element,
    D: Distribute,
    K: FragMultiplyAdd<T>,

    requires
        legal_side(size as int, frag as int),
        old(r)@.len() == size * size,
        a@.len() == size * size,
        b@.len() == size * size,
    ensures
        final(r)@.len() == size * size,
        final(r)@ == strassen_block::<K, T>(old(r)@, a@, b@, size as int, frag as int),
    decreases size,
{
    proof {
        lemma_legal_side_bounds(size as int, frag as int);
    }
    if size == frag {
        K::multiply_add(r, a, b, size);
        proof {
            assert(r@ =~= fragment_updated::<K, T>(old(r)@, a@, b@, size as int));
        }
    } else {
        proof {
            lemma_legal_half(size as int, frag as int);
            lemma_quarters(size as int);
        }
        assert(a.len() == size * size);
        let s = size / 2;
        let block = s * s;
        let (a11, a12, a21, a22) = quads(a);
        let (b11, b12, b21, b22) = quads(b);
        let (r11, r12, r21, r22) = quads_mut(r);

        let m1l = sum_of(a11, a22);
        let m1r = sum_of(b11, b22);
        let m2l = sum_of(a21, a22);
        let m3r = difference_of(b12, b22);
        let m4r = difference_of(b21, b11);
        let m5l = sum_of(a11, a12);
        let m6l = difference_of(a21, a11);
        let m6r = sum_of(b11, b12);
        let m7l = difference_of(a12, a22);
        let m7r = sum_of(b21, b22);

        let mut m1 = zero_buffer::<T>(block);
        let mut m2 = zero_buffer::<T>(block);
        let mut m3 = zero_buffer::<T>(block);
        let mut m4 = zero_buffer::<T>(block);
        let mut m5 = zero_buffer::<T>(block);
        let mut m6 = zero_buffer::<T>(block);
        let mut m7 = zero_buffer::<T>(block);
        let mut tasks = [
            (m1.as_mut_slice(), m1l.as_slice(), m1r.as_slice()),
            (m2.as_mut_slice(), m2l.as_slice(), b11),
            (m3.as_mut_slice(), a11, m3r.as_slice()),
            (m4.as_mut_slice(), a22, m4r.as_slice()),
            (m5.as_mut_slice(), m5l.as_slice(), b22),
            (m6.as_mut_slice(), m6l.as_slice(), m6r.as_slice()),
            (m7.as_mut_slice(), m7l.as_slice(), m7r.as_slice()),
        ];
        let ghost before = tasks@;
        D::run(
            size,
            &mut tasks,
            |t: &mut (&mut [T], &[T], &[T])|
                requires
                    old(t).0@.len() == s * s,
                    old(t).1@.len() == s * s,
                    old(t).2@.len() == s * s,
                ensures
                    final(final(t).0)@ == final(old(t).0)@,
                    final(t).0@.len() == s * s,
                    final(t).0@ == strassen_block::<K, T>(
                        old(t).0@,
                        old(t).1@,
                        old(t).2@,
                        s as int,
                        frag as int,
                    ),
                {
                    step::<T, D, K>(t.0, t.1, t.2, s, frag);
                }
        );
        proof {
            assert(slot(before, 0));
            assert(slot(before, 1));
            assert(slot(before, 2));
            assert(slot(before, 3));
            assert(slot(before, 4));
            assert(slot(before, 5));
            assert(slot(before, 6));
        }
        store_sum_less_plus(r11, m1.as_slice(), m4.as_slice(), m5.as_slice(), m7.as_slice());
        store_sum(r12, m3.as_slice(), m5.as_slice());
        store_sum(r21, m2.as_slice(), m4.as_slice());
        store_less_plus_plus(r22, m1.as_slice(), m2.as_slice(), m3.as_slice(), m6.as_slice());
        proof {
            let m = strassen_products::<K, T>(a@, b@, size as int, frag as int);
            assert(m[0] == m1@);
            assert(m[1] == m2@);
            assert(m[2] == m3@);
            assert(m[3] == m4@);
            assert(m[4] == m5@);
            assert(m[5] == m6@);
            assert(m[6] == m7@);
        }
    }
}

} // verus!
