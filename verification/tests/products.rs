use fastmatmult::element::{zero_buffer, Element};
use fastmatmult::error::InvariantError;
use fastmatmult::simd;
use fastmatmult::simple;
use fastmatmult::simple::Matrix as Simple;
use fastmatmult::znot::{
    is_legal_side, multiply, strassen, DontDistribute, FragMultiplyAdd, Matrix,
    RayonDistribute, SimdMultiplyAdd, SimpleMultiplyAdd,
};
use rand::{Rng, SeedableRng, StdRng};

/// A single-precision number as a matrix element.
#[derive(Clone, Copy, Debug, PartialEq)]
struct Real(f32);

impl Element for Real {
    fn zero_value() -> Self {
        Real(0.)
    }

    fn one_value() -> Self {
        Real(1.)
    }

    fn sum(a: Self, b: Self) -> Self {
        Real(a.0 + b.0)
    }

    fn difference(a: Self, b: Self) -> Self {
        Real(a.0 - b.0)
    }

    fn product(a: Self, b: Self) -> Self {
        Real(a.0 * b.0)
    }

    fn zero() -> Self {
        Real(0.)
    }

    fn one() -> Self {
        Real(1.)
    }

    fn plus(self, rhs: Self) -> Self {
        Real(self.0 + rhs.0)
    }

    fn minus(self, rhs: Self) -> Self {
        Real(self.0 - rhs.0)
    }

    fn times(self, rhs: Self) -> Self {
        Real(self.0 * rhs.0)
    }
}

fn reals(values: Vec<f32>) -> Vec<Real> {
    values.into_iter().map(Real).collect()
}

/// A generator that gives the same numbers in every run.
fn generator() -> StdRng {
    StdRng::from_seed([0; 32])
}

/// A matrix with each element drawn uniformly from [0, 10).
fn random(rng: &mut StdRng, w: usize, h: usize) -> Simple<Real> {
    let mut result = Simple::sized(w, h);
    for x in 0..w {
        for y in 0..h {
            result.set(x, y, Real(rng.gen_range(0., 10.)));
        }
    }
    result
}

/*
 * By summing in lanes, we reorder the additions on floats. It so happens
 * this changes the result somewhat, so we put a margin there.
 */
fn rounded(matrix: &Simple<Real>) -> Simple<Real> {
    let content = matrix.content().iter().map(|val| Real((val.0 / 20.0).round())).collect();
    Simple::from_vec(matrix.width(), matrix.height(), content).unwrap()
}

/// Whole numbers that look arbitrary, the same in every run.
fn scrambled(w: usize, h: usize, seed: u64) -> Simple<u64> {
    let mut state = seed;
    let mut content = Vec::new();
    for _ in 0..w * h {
        state = state.wrapping_mul(6364136223846793005).wrapping_add(1442695040888963407);
        content.push(state >> 11);
    }
    Simple::from_vec(w, h, content).unwrap()
}

fn counting(n: usize) -> Simple<u64> {
    Simple::from_vec(n, n, (0..(n * n) as u64).collect()).unwrap()
}

fn close(a: &Simple<Real>, b: &Simple<Real>) {
    assert_eq!(a.width(), b.width());
    assert_eq!(a.height(), b.height());
    for (x, y) in a.content().iter().zip(b.content()) {
        assert!((x.0 - y.0).abs() <= 1e-3 * x.0.abs().max(1.), "{} and {}", x.0, y.0);
    }
}

#[test]
fn z_order_of_four_by_four() {
    let z = Matrix::<u64, 1>::from(&counting(4)).unwrap();
    assert_eq!(z.size(), 4);
    assert_eq!(z.content(), &[0, 1, 4, 5, 2, 3, 6, 7, 8, 9, 12, 13, 10, 11, 14, 15]);
    let z = Matrix::<u64, 2>::from(&counting(4)).unwrap();
    assert_eq!(z.content(), &[0, 1, 4, 5, 2, 3, 6, 7, 8, 9, 12, 13, 10, 11, 14, 15]);
    let z = Matrix::<u64, 4>::from(&counting(4)).unwrap();
    assert_eq!(z.content(), counting(4).content());
}

#[test]
fn z_order_with_fragments_of_two() {
    let z = Matrix::<u64, 2>::from(&counting(8)).unwrap();
    let first_quarter = [0, 1, 8, 9, 2, 3, 10, 11, 16, 17, 24, 25, 18, 19, 26, 27];
    assert_eq!(&z.content()[..16], &first_quarter);
    assert_eq!(&z.content()[16..20], &[4, 5, 12, 13]);
    assert_eq!(&z.content()[32..36], &[32, 33, 40, 41]);
    assert_eq!(&z.content()[60..], &[54, 55, 62, 63]);
}

#[test]
fn back_and_there() {
    let content: Vec<u64> = (100..164).collect();
    let z = Matrix::<u64, 2>::from_vec(8, content.clone()).unwrap();
    let linear = Simple::from(&z);
    let again = Matrix::<u64, 2>::from(&linear).unwrap();
    assert_eq!(z, again);
    assert_eq!(again.content(), &content[..]);
    assert_eq!(linear.get(2, 0), 104);
    assert_eq!(linear.get(0, 1), 102);
}

#[test]
fn shapes_are_checked() {
    let wide = Simple::<u64>::sized(4, 2);
    assert_eq!(Matrix::<u64, 1>::from(&wide), Err(InvariantError::NonSquare));
    let six = Simple::<u64>::sized(6, 6);
    assert_eq!(Matrix::<u64, 1>::from(&six), Err(InvariantError::NotPowerOfTwoMultipleOfF));
    assert_eq!(Matrix::<u64, 4>::from(&six), Err(InvariantError::NotPowerOfTwoMultipleOfF));
    assert_eq!(Matrix::<u64, 0>::from(&six), Err(InvariantError::NotPowerOfTwoMultipleOfF));
    assert!(Matrix::<u64, 3>::from(&six).is_ok());
    let empty = Simple::<u64>::sized(0, 0);
    assert_eq!(Matrix::<u64, 1>::from(&empty), Err(InvariantError::NotPowerOfTwoMultipleOfF));

    assert_eq!(
        Matrix::<u64, 1>::from_vec(3, zero_buffer(9)),
        Err(InvariantError::NotPowerOfTwoMultipleOfF)
    );
    assert_eq!(Matrix::<u64, 1>::from_vec(2, zero_buffer(5)), Err(InvariantError::ShapeMismatch));
    assert_eq!(Simple::<u64>::from_vec(2, 3, zero_buffer(5)), Err(InvariantError::ShapeMismatch));
    assert_eq!(
        Simple::<u64>::from_vec(usize::MAX, 2, zero_buffer(2)),
        Err(InvariantError::ShapeMismatch)
    );

    let two = Matrix::<u64, 1>::from_vec(2, zero_buffer(4)).unwrap();
    let four = Matrix::<u64, 1>::from_vec(4, zero_buffer(16)).unwrap();
    assert_eq!(
        multiply::<_, 1, DontDistribute, SimpleMultiplyAdd>(&two, &four),
        Err(InvariantError::ShapeMismatch)
    );
    assert_eq!(
        strassen::<_, 1, DontDistribute, SimpleMultiplyAdd>(&four, &two),
        Err(InvariantError::ShapeMismatch)
    );
    assert_eq!(simple::multiply(&wide, &wide), Err(InvariantError::ShapeMismatch));
    assert_eq!(simd::multiply(&wide, &wide), Err(InvariantError::ShapeMismatch));
}

#[test]
fn legal_sides() {
    assert!(is_legal_side(1, 1));
    assert!(is_legal_side(4, 1));
    assert!(is_legal_side(1024, 1));
    assert!(is_legal_side(7, 7));
    assert!(is_legal_side(56, 7));
    assert!(!is_legal_side(0, 1));
    assert!(!is_legal_side(3, 1));
    assert!(!is_legal_side(6, 1));
    assert!(!is_legal_side(21, 7));
    assert!(!is_legal_side(8, 3));
    assert!(!is_legal_side(8, 0));
    assert!(!is_legal_side(4, 8));
}

#[test]
fn errors_describe_themselves() {
    assert_eq!(
        InvariantError::ShapeMismatch.message(),
        "The dimensions of the operands do not match"
    );
    assert_eq!(InvariantError::NonSquare.message(), "We support only square matrices");
    assert_eq!(
        InvariantError::NotPowerOfTwoMultipleOfF.message(),
        "Matrix size must be the fragment size times a power of 2"
    );
}

#[test]
fn rows_come_from_the_top() {
    let matrix = Simple::<u64>::from_vec(3, 2, vec![1, 2, 3, 4, 5, 6]).unwrap();
    let mut rows = matrix.rows();
    assert_eq!(rows.next(), Some(&[1, 2, 3][..]));
    assert_eq!(rows.next(), Some(&[4, 5, 6][..]));
    assert_eq!(rows.next(), None);
    assert_eq!(rows.next(), None);
    let mut rows = matrix.rows();
    assert_eq!(rows.next(), Some(&[1, 2, 3][..]));
}

#[test]
fn cells_are_row_major() {
    let mut matrix = Simple::<u64>::sized(3, 2);
    assert_eq!(matrix.content(), &[0; 6]);
    matrix.set(2, 0, 7);
    matrix.set(0, 1, 9);
    assert_eq!(matrix.content(), &[0, 0, 7, 9, 0, 0]);
    assert_eq!(matrix.get(2, 0), 7);
    assert_eq!(matrix.get(0, 1), 9);
    assert_eq!(matrix.width(), 3);
    assert_eq!(matrix.height(), 2);
    let unit = Simple::<u64>::identity(3);
    assert_eq!(unit.content(), &[1, 0, 0, 0, 1, 0, 0, 0, 1]);
}

#[test]
fn whole_number_products() {
    let a = Simple::<u64>::from_vec(2, 2, vec![1, 2, 3, 4]).unwrap();
    let b = Simple::<u64>::from_vec(2, 2, vec![5, 6, 7, 8]).unwrap();
    let expected = Simple::<u64>::from_vec(2, 2, vec![19, 22, 43, 50]).unwrap();
    assert_eq!(simple::multiply(&a, &b).unwrap(), expected);
    assert_eq!(simd::multiply(&a, &b).unwrap(), expected);
    let a_z = Matrix::<u64, 1>::from(&a).unwrap();
    let b_z = Matrix::<u64, 1>::from(&b).unwrap();
    let r = multiply::<_, 1, DontDistribute, SimpleMultiplyAdd>(&a_z, &b_z).unwrap();
    assert_eq!(r.content(), &[19, 22, 43, 50]);
    let r = strassen::<_, 1, DontDistribute, SimpleMultiplyAdd>(&a_z, &b_z).unwrap();
    assert_eq!(r.content(), &[19, 22, 43, 50]);
    let r = strassen::<_, 1, RayonDistribute<1>, SimdMultiplyAdd>(&a_z, &b_z).unwrap();
    assert_eq!(r.content(), &[19, 22, 43, 50]);
}

#[test]
fn signed_products_wrap() {
    let a = Simple::<i64>::from_vec(2, 2, vec![i64::MAX, -2, 3, 4]).unwrap();
    let b = Simple::<i64>::from_vec(2, 2, vec![2, 0, -1, 1]).unwrap();
    let expected = Simple::<i64>::from_vec(2, 2, vec![0, -2, 2, 4]).unwrap();
    assert_eq!(simple::multiply(&a, &b).unwrap(), expected);
    assert_eq!(simd::multiply(&a, &b).unwrap(), expected);
    let a_z = Matrix::<i64, 2>::from(&a).unwrap();
    let b_z = Matrix::<i64, 2>::from(&b).unwrap();
    let r = strassen::<_, 2, DontDistribute, SimpleMultiplyAdd>(&a_z, &b_z).unwrap();
    assert_eq!(Simple::from(&r), expected);
}

fn all_ways_agree<const F: usize>(n: usize) {
    let a = scrambled(n, n, 1);
    let b = scrambled(n, n, 2);
    let expected = simple::multiply(&a, &b).unwrap();
    assert_eq!(simd::multiply(&a, &b).unwrap(), expected);
    let a_z = Matrix::<u64, F>::from(&a).unwrap();
    let b_z = Matrix::<u64, F>::from(&b).unwrap();
    let r = multiply::<_, F, DontDistribute, SimpleMultiplyAdd>(&a_z, &b_z).unwrap();
    assert_eq!(Simple::from(&r), expected);
    let r = multiply::<_, F, RayonDistribute<4>, SimdMultiplyAdd>(&a_z, &b_z).unwrap();
    assert_eq!(Simple::from(&r), expected);
    let r = strassen::<_, F, DontDistribute, SimpleMultiplyAdd>(&a_z, &b_z).unwrap();
    assert_eq!(Simple::from(&r), expected);
    let r = strassen::<_, F, RayonDistribute<4>, SimdMultiplyAdd>(&a_z, &b_z).unwrap();
    assert_eq!(Simple::from(&r), expected);
}

#[test]
fn whole_numbers_agree_in_all_ways() {
    all_ways_agree::<1>(1);
    all_ways_agree::<1>(16);
    all_ways_agree::<2>(32);
    all_ways_agree::<3>(24);
    all_ways_agree::<8>(8);
    all_ways_agree::<8>(64);
}

#[test]
fn rectangular_whole_numbers() {
    let a = scrambled(5, 3, 3);
    let b = scrambled(4, 5, 4);
    let plain = simple::multiply(&a, &b).unwrap();
    assert_eq!(plain.width(), 4);
    assert_eq!(plain.height(), 3);
    assert_eq!(simd::multiply(&a, &b).unwrap(), plain);
    assert_eq!(simple::multiply(&Simple::identity(3), &a).unwrap(), a);
    assert_eq!(simple::multiply(&a, &Simple::identity(5)).unwrap(), a);
    let mut cell = 0u64;
    for p in 0..5 {
        cell = cell.wrapping_add(a.get(p, 2).wrapping_mul(b.get(1, p)));
    }
    assert_eq!(plain.get(1, 2), cell);
}

fn exact<const F: usize, Mult: FragMultiplyAdd<Real>>(rng: &mut StdRng, plain: bool) {
    for shift in 0..5 {
        let a = random(rng, F * 1 << shift, F * 1 << shift);
        let b = random(rng, F * 1 << shift, F * 1 << shift);
        let a_z = Matrix::<Real, F>::from(&a).unwrap();
        let b_z = Matrix::<Real, F>::from(&b).unwrap();
        let alone = multiply::<_, F, DontDistribute, Mult>(&a_z, &b_z).unwrap();
        let spread = multiply::<_, F, RayonDistribute<F>, Mult>(&a_z, &b_z).unwrap();
        assert_eq!(alone, spread);
        let cut_off = multiply::<_, F, RayonDistribute<32>, Mult>(&a_z, &b_z).unwrap();
        assert_eq!(alone, cut_off);
        if plain {
            assert_eq!(simple::multiply(&a, &b).unwrap(), Simple::from(&alone));
        }
    }
}

#[test]
fn plain_kernel_gives_the_plain_product() {
    let mut rng = generator();
    exact::<1, SimpleMultiplyAdd>(&mut rng, true);
    exact::<2, SimpleMultiplyAdd>(&mut rng, true);
    exact::<7, SimpleMultiplyAdd>(&mut rng, true);
    exact::<16, SimpleMultiplyAdd>(&mut rng, true);
}

#[test]
fn distributors_agree() {
    let mut rng = generator();
    exact::<1, SimdMultiplyAdd>(&mut rng, false);
    exact::<4, SimdMultiplyAdd>(&mut rng, false);
    exact::<16, SimdMultiplyAdd>(&mut rng, false);
    let a = random(&mut rng, 64, 64);
    let b = random(&mut rng, 64, 64);
    let a_z = Matrix::<Real, 8>::from(&a).unwrap();
    let b_z = Matrix::<Real, 8>::from(&b).unwrap();
    let alone = strassen::<_, 8, DontDistribute, SimdMultiplyAdd>(&a_z, &b_z).unwrap();
    let spread = strassen::<_, 8, RayonDistribute<8>, SimdMultiplyAdd>(&a_z, &b_z).unwrap();
    assert_eq!(alone, spread);
}

#[test]
fn lanes_change_the_order_of_the_sum() {
    let row = Simple::from_vec(5, 1, reals(vec![1e8, 1., 1., 1., -1e8])).unwrap();
    let column = Simple::from_vec(1, 5, reals(vec![1.; 5])).unwrap();
    let one_by_one = simple::multiply(&row, &column).unwrap();
    assert_eq!(one_by_one.content(), &[Real(0.)]);
    let in_lanes = simd::multiply(&row, &column).unwrap();
    assert_eq!(in_lanes.content(), &[Real(3.)]);
    assert_eq!(simd::lane_reduce(row.content(), column.content()), Real(3.));
    assert_eq!(simd::lane_reduce::<u64>(&[1, 2, 3, 4, 5, 6], &[1, 10, 100, 1000, 2, 20]), 4451);
    assert_eq!(simd::lane_reduce::<u64>(&[], &[]), 0);
}

#[test]
fn fragments_change_the_order_of_the_sum() {
    // One row times one column, as the top-left cell of a product of size 8.
    let mut a = Simple::sized(8, 8);
    let mut b = Simple::sized(8, 8);
    let row = [1e8, 1., 1., 1., -1e8, 1., 1., 1.];
    for p in 0..8 {
        a.set(p, 0, Real(row[p]));
        b.set(0, p, Real(1.));
    }
    let plain = simple::multiply(&a, &b).unwrap();
    assert_eq!(plain.get(0, 0), Real(3.));
    let a_z = Matrix::<Real, 4>::from(&a).unwrap();
    let b_z = Matrix::<Real, 4>::from(&b).unwrap();
    let r = multiply::<_, 4, DontDistribute, SimpleMultiplyAdd>(&a_z, &b_z).unwrap();
    assert_eq!(Simple::from(&r).get(0, 0), Real(3.));
    // In lanes, each fragment of four is summed apart: 0 + (1e8 + 1 + 1 + 1),
    // then that plus (-1e8 + 1 + 1 + 1).
    let r = multiply::<_, 4, DontDistribute, SimdMultiplyAdd>(&a_z, &b_z).unwrap();
    assert_eq!(Simple::from(&r).get(0, 0), Real(1e8 + (-1e8 + 3.)));
}

#[test]
fn strassen_of_a_single_fragment() {
    let mut rng = generator();
    let a = random(&mut rng, 8, 8);
    let b = random(&mut rng, 8, 8);
    let a_z = Matrix::<Real, 8>::from(&a).unwrap();
    let b_z = Matrix::<Real, 8>::from(&b).unwrap();
    let r = strassen::<_, 8, DontDistribute, SimpleMultiplyAdd>(&a_z, &b_z).unwrap();
    assert_eq!(Simple::from(&r), simple::multiply(&a, &b).unwrap());
    assert_eq!(a_z.content(), a.content());
}

#[test]
fn strassen_64() {
    let mut rng = generator();
    let a = random(&mut rng, 64, 64);
    let b = random(&mut rng, 64, 64);
    let expected = simple::multiply(&a, &b).unwrap();
    let a_z = Matrix::<Real, 32>::from(&a).unwrap();
    let b_z = Matrix::<Real, 32>::from(&b).unwrap();
    let r_z = strassen::<_, 32, RayonDistribute<32>, SimdMultiplyAdd>(&a_z, &b_z).unwrap();
    let result = Simple::from(&r_z);
    assert_eq!(rounded(&expected), rounded(&result));
    close(&expected, &result);
}

fn near<const F: usize, Mult: FragMultiplyAdd<Real>>(rng: &mut StdRng) {
    for shift in 0..4 {
        let a = random(rng, F * 1 << shift, F * 1 << shift);
        let b = random(rng, F * 1 << shift, F * 1 << shift);
        let expected = simple::multiply(&a, &b).unwrap();
        close(&expected, &simd::multiply(&a, &b).unwrap());
        let a_z = Matrix::<Real, F>::from(&a).unwrap();
        let b_z = Matrix::<Real, F>::from(&b).unwrap();
        let r_z = multiply::<_, F, RayonDistribute<32>, Mult>(&a_z, &b_z).unwrap();
        close(&expected, &Simple::from(&r_z));
        let rs_z = strassen::<_, F, RayonDistribute<32>, Mult>(&a_z, &b_z).unwrap();
        close(&expected, &Simple::from(&rs_z));
    }
}

#[test]
fn reordered_sums_stay_near() {
    let mut rng = generator();
    near::<1, SimpleMultiplyAdd>(&mut rng);
    near::<1, SimdMultiplyAdd>(&mut rng);
    near::<4, SimdMultiplyAdd>(&mut rng);
    near::<16, SimpleMultiplyAdd>(&mut rng);
    near::<16, SimdMultiplyAdd>(&mut rng);
}

#[test]
fn empty_shapes() {
    let a = Simple::<u64>::sized(0, 3);
    let b = Simple::<u64>::sized(2, 0);
    let product = simple::multiply(&a, &b).unwrap();
    assert_eq!(product, Simple::sized(2, 3));
    assert_eq!(simd::multiply(&a, &b).unwrap(), Simple::sized(2, 3));
    assert_eq!(simple::multiply(&b, &a), Err(InvariantError::ShapeMismatch));
    let none = simple::multiply(&b, &Simple::sized(0, 2)).unwrap();
    assert_eq!(none.width(), 0);
    assert_eq!(none.height(), 0);
    assert_eq!(none.content(), &[]);
    assert_eq!(Simple::<u64>::sized(0, 3).rows().next(), Some(&[][..]));
    assert_eq!(Simple::<u64>::sized(3, 0).rows().next(), None);
    assert_eq!(
        Matrix::<u64, 1>::from_vec(1 << 40, Vec::new()),
        Err(InvariantError::ShapeMismatch)
    );
    assert_eq!(
        Matrix::<u64, 1>::from_vec(usize::MAX, Vec::new()),
        Err(InvariantError::NotPowerOfTwoMultipleOfF)
    );
}

#[test]
fn short_rows_leave_lanes_empty() {
    let a = Simple::<u64>::from_vec(3, 2, vec![1, 2, 3, 4, 5, 6]).unwrap();
    let b = Simple::<u64>::from_vec(2, 3, vec![1, 2, 3, 4, 5, 6]).unwrap();
    let expected = Simple::<u64>::from_vec(2, 2, vec![22, 28, 49, 64]).unwrap();
    assert_eq!(simple::multiply(&a, &b).unwrap(), expected);
    assert_eq!(simd::multiply(&a, &b).unwrap(), expected);
    let mut target = expected.clone();
    simd::multiply_add(&mut target.slice_mut(), &a.slice(), &b.slice());
    assert_eq!(target.content(), &[44, 56, 98, 128]);
}
