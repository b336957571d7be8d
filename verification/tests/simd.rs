use fastmatmult::element::Element;
use fastmatmult::simd::multiply;
use fastmatmult::simple;
use fastmatmult::simple::Matrix as Simple;
use rand::{Rng, SeedableRng, StdRng};

/// A single-precision number as a matrix element.
#[derive(Clone, Copy, Debug, PartialEq)]
struct Real(f32);

impl Element for Real {
    fn zero_value() -> Self {
        Real(0.)
    }

    fn one_value() -> Self {
        Real(1.)
    }

    fn sum(a: Self, b: Self) -> Self {
        Real(a.0 + b.0)
    }

    fn difference(a: Self, b: Self) -> Self {
        Real(a.0 - b.0)
    }

    fn product(a: Self, b: Self) -> Self {
        Real(a.0 * b.0)
    }

    fn zero() -> Self {
        Real(0.)
    }

    fn one() -> Self {
        Real(1.)
    }

    fn plus(self, rhs: Self) -> Self {
        Real(self.0 + rhs.0)
    }

    fn minus(self, rhs: Self) -> Self {
        Real(self.0 - rhs.0)
    }

    fn times(self, rhs: Self) -> Self {
        Real(self.0 * rhs.0)
    }
}

fn reals(values: Vec<f32>) -> Vec<Real> {
    values.into_iter().map(Real).collect()
}

/// A generator that gives the same numbers in every run.
fn generator() -> StdRng {
    StdRng::from_seed([0; 32])
}

/// A matrix with each element drawn uniformly from [0, 10).
fn random(rng: &mut StdRng, w: usize, h: usize) -> Simple<Real> {
    let mut result = Simple::sized(w, h);
    for x in 0..w {
        for y in 0..h {
            result.set(x, y, Real(rng.gen_range(0., 10.)));
        }
    }
    result
}

/*
 * By summing in lanes, we reorder the additions on floats. It so happens
 * this changes the result somewhat, so we put a margin there.
 */
fn rounded(matrix: &Simple<Real>) -> Simple<Real> {
    let content = matrix.content().iter().map(|val| Real((val.0 / 20.0).round())).collect();
    Simple::from_vec(matrix.width(), matrix.height(), content).unwrap()
}

fn approx_eq(a: Simple<Real>, b: Simple<Real>) {
    assert_eq!(rounded(&a), rounded(&b));
}

#[test]
fn test_multi() {
    let mut rng = generator();
    for shift in 0..7 {
        let s = 1 << shift;
        let a = random(&mut rng, s, s);
        let b = random(&mut rng, s, s);
        let expected = simple::multiply(&a, &b).unwrap();
        let result = multiply(&a, &b).unwrap();
        approx_eq(expected, result);
    }
}

#[test]
fn id() {
    for size in 1..4 {
        let id = Simple::<Real>::identity(size);
        let result = multiply(&id, &id).unwrap();
        approx_eq(result, id);
    }
}

#[test]
fn rect() {
    let mut rng = generator();
    let a = random(&mut rng, 2, 3);
    let b = random(&mut rng, 3, 2);
    let result = multiply(&a, &b).unwrap();
    let expected = simple::multiply(&a, &b).unwrap();
    approx_eq(expected, result);
}
