use fastmatmult::element::Element;
use fastmatmult::simple::{multiply, multiply_add, Matrix};

/// A single-precision number as a matrix element.
#[derive(Clone, Copy, Debug, PartialEq)]
struct Real(f32);

impl Element for Real {
    fn zero_value() -> Self {
        Real(0.)
    }

    fn one_value() -> Self {
        Real(1.)
    }

    fn sum(a: Self, b: Self) -> Self {
        Real(a.0 + b.0)
    }

    fn difference(a: Self, b: Self) -> Self {
        Real(a.0 - b.0)
    }

    fn product(a: Self, b: Self) -> Self {
        Real(a.0 * b.0)
    }

    fn zero() -> Self {
        Real(0.)
    }

    fn one() -> Self {
        Real(1.)
    }

    fn plus(self, rhs: Self) -> Self {
        Real(self.0 + rhs.0)
    }

    fn minus(self, rhs: Self) -> Self {
        Real(self.0 - rhs.0)
    }

    fn times(self, rhs: Self) -> Self {
        Real(self.0 * rhs.0)
    }
}

fn reals(values: Vec<f32>) -> Vec<Real> {
    values.into_iter().map(Real).collect()
}

#[test]
fn add_mult() {
    let mut result = Matrix::sized(2, 2);
    let id = Matrix::<Real>::identity(2);
    multiply_add(&mut result.slice_mut(), &id.slice(), &id.slice());
    assert_eq!(result, id);
    multiply_add(&mut result.slice_mut(), &id.slice(), &id.slice());
    let double = Matrix::from_vec(
        2,
        2,
        reals(vec![
            2., 0.,
            0., 2.0,
        ]),
    )
    .unwrap();
    assert_eq!(result, double);
}

#[test]
fn square_identity() {
    let id = Matrix::identity(3);
    let other = Matrix::from_vec(
        3,
        3,
        reals(vec![
            2., 3., 4.,
            0., 0., 0.,
            5., 6., 7.,
        ]),
    )
    .unwrap();
    let left_id = multiply(&id, &other).unwrap();
    assert_eq!(other, left_id);
    let right_id = multiply(&other, &id).unwrap();
    assert_eq!(other, right_id);
}

#[test]
fn rect_identity() {
    let rect = Matrix::from_vec(
        2,
        3,
        reals(vec![
            1., 2.,
            3., 4.,
            5., 6.,
        ]),
    )
    .unwrap();
    let left_rect = multiply(&Matrix::identity(3), &rect).unwrap();
    assert_eq!(rect, left_rect);
    let right_rect = multiply(&rect, &Matrix::identity(2)).unwrap();
    assert_eq!(rect, right_rect);
}

#[test]
fn arbitrary() {
    let a = Matrix::from_vec(
        2,
        3,
        reals(vec![
            1., 2.,
            3., 4.,
            5., 6.,
        ]),
    )
    .unwrap();
    let b = Matrix::from_vec(
        3,
        2,
        reals(vec![
            10., 11., 12.,
            13., 14., 15.,
        ]),
    )
    .unwrap();
    let res_a = multiply(&a, &b).unwrap();
    let exp_a = Matrix::from_vec(
        3,
        3,
        reals(vec![
            36., 39., 42.,
            82., 89., 96.,
            128., 139., 150.,
        ]),
    )
    .unwrap();
    assert_eq!(res_a, exp_a);
    let res_b = multiply(&b, &a).unwrap();
    let exp_b = Matrix::from_vec(
        2,
        2,
        reals(vec![
            103., 136.,
            130., 172.,
        ]),
    )
    .unwrap();
    assert_eq!(res_b, exp_b);
}
