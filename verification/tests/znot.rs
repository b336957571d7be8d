use fastmatmult::element::Element;
use fastmatmult::simple;
use fastmatmult::simple::Matrix as Simple;
use fastmatmult::znot::{
    multiply, strassen, DontDistribute, FragMultiplyAdd, Matrix, RayonDistribute,
    SimdMultiplyAdd, SimpleMultiplyAdd,
};
use rand::{Rng, SeedableRng, StdRng};

/// A single-precision number as a matrix element.
#[derive(Clone, Copy, Debug, PartialEq)]
struct Real(f32);

impl Element for Real {
    fn zero_value() -> Self {
        Real(0.)
    }

    fn one_value() -> Self {
        Real(1.)
    }

    fn sum(a: Self, b: Self) -> Self {
        Real(a.0 + b.0)
    }

    fn difference(a: Self, b: Self) -> Self {
        Real(a.0 - b.0)
    }

    fn product(a: Self, b: Self) -> Self {
        Real(a.0 * b.0)
    }

    fn zero() -> Self {
        Real(0.)
    }

    fn one() -> Self {
        Real(1.)
    }

    fn plus(self, rhs: Self) -> Self {
        Real(self.0 + rhs.0)
    }

    fn minus(self, rhs: Self) -> Self {
        Real(self.0 - rhs.0)
    }

    fn times(self, rhs: Self) -> Self {
        Real(self.0 * rhs.0)
    }
}

fn reals(values: Vec<f32>) -> Vec<Real> {
    values.into_iter().map(Real).collect()
}

/// A generator that gives the same numbers in every run.
fn generator() -> StdRng {
    StdRng::from_seed([0; 32])
}

/// A matrix with each element drawn uniformly from [0, 10).
fn random(rng: &mut StdRng, w: usize, h: usize) -> Simple<Real> {
    let mut result = Simple::sized(w, h);
    for x in 0..w {
        for y in 0..h {
            result.set(x, y, Real(rng.gen_range(0., 10.)));
        }
    }
    result
}

/*
 * By summing in lanes, we reorder the additions on floats. It so happens
 * this changes the result somewhat, so we put a margin there.
 */
fn rounded(matrix: &Simple<Real>) -> Simple<Real> {
    let content = matrix.content().iter().map(|val| Real((val.0 / 20.0).round())).collect();
    Simple::from_vec(matrix.width(), matrix.height(), content).unwrap()
}

fn test_tab<const F: usize>() {
    let mut rng = generator();
    for shift in 0..7 {
        let matrix = random(&mut rng, F * 1 << shift, F * 1 << shift);
        let there = Matrix::<Real, F>::from(&matrix).unwrap();
        let back = Simple::from(&there);
        assert_eq!(matrix, back);
    }
}

#[test]
fn there_and_back_16() {
    test_tab::<16>();
}

#[test]
fn there_and_back_1() {
    test_tab::<1>();
}

#[test]
fn there_and_back_2() {
    test_tab::<2>();
}

#[test]
fn there_and_back_7() {
    test_tab::<7>();
}

#[test]
fn no_frag() {
    // Matrix 2*2 stays the same
    let ar = reals(vec![1., 2., 3., 4.]);
    let mut matrix = Simple::sized(2, 2);
    matrix.set(0, 0, Real(1.));
    matrix.set(1, 0, Real(2.));
    matrix.set(0, 1, Real(3.));
    matrix.set(1, 1, Real(4.));
    let conv = Matrix::<Real, 1>::from(&matrix).unwrap();
    let exp = Matrix::<Real, 1>::from_vec(2, ar.clone()).unwrap();
    assert_eq!(exp, conv);
    let back = Simple::from(&conv);
    assert_eq!(matrix, back);
}

/*
 * The sums of one cell are formed in another order here than by the plain
 * loop. A sum that lies halfway between two multiples of the margin can be
 * rounded to either, so the rounded values may be one apart.
 */
fn approx_eq(a: Simple<Real>, b: Simple<Real>) {
    let a = rounded(&a);
    let b = rounded(&b);
    assert_eq!(a.width(), b.width());
    assert_eq!(a.height(), b.height());
    for (x, y) in a.content().iter().zip(b.content()) {
        assert!((x.0 - y.0).abs() <= 1., "{} and {}", x.0, y.0);
    }
}

fn check_multi<const F: usize, Mult: FragMultiplyAdd<Real>>() {
    let mut rng = generator();
    for shift in 0..5 {
        let a = random(&mut rng, F * 1 << shift, F * 1 << shift);
        let b = random(&mut rng, F * 1 << shift, F * 1 << shift);
        let expected = simple::multiply(&a, &b).unwrap();
        let a_z = Matrix::<Real, F>::from(&a).unwrap();
        let b_z = Matrix::<Real, F>::from(&b).unwrap();
        let r_z = multiply::<_, F, DontDistribute, Mult>(&a_z, &b_z).unwrap();
        let result = Simple::from(&r_z);
        approx_eq(expected.clone(), result);
        let ra_z = multiply::<_, F, RayonDistribute<32>, Mult>(&a_z, &b_z).unwrap();
        let result = Simple::from(&ra_z);
        approx_eq(expected.clone(), result);
        let rs_z = strassen::<_, F, RayonDistribute<32>, Mult>(&a_z, &b_z).unwrap();
        let result = Simple::from(&rs_z);
        approx_eq(expected, result);
    }
}

#[test]
fn test_multi_1() {
    check_multi::<1, SimpleMultiplyAdd>();
}

#[test]
fn test_multi_2() {
    check_multi::<2, SimpleMultiplyAdd>();
}

#[test]
fn test_multi_7() {
    check_multi::<7, SimpleMultiplyAdd>();
}

#[test]
fn test_multi_16() {
    check_multi::<16, SimpleMultiplyAdd>();
}

#[test]
fn test_multi_1_simd() {
    check_multi::<1, SimdMultiplyAdd>();
}

#[test]
fn test_multi_2_simd() {
    check_multi::<2, SimdMultiplyAdd>();
}

#[test]
fn test_multi_7_simd() {
    check_multi::<7, SimdMultiplyAdd>();
}

#[test]
fn test_multi_16_simd() {
    check_multi::<16, SimdMultiplyAdd>();
}
