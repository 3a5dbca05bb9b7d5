use pfaffian::matrix::{MatrixError, SkewMatrix};
use pfaffian::scalar::Scalar;

/// A double-precision number as a scalar.
#[derive(Clone, Copy, Debug, PartialEq)]
struct Real(f64);

impl Scalar for Real {
    // The five model functions exist for the verifier alone; nothing that
    // runs calls them.
    fn spec_zero() -> Real {
        unreachable!()
    }

    fn spec_one() -> Real {
        unreachable!()
    }

    fn spec_negate(self) -> Real {
        unreachable!()
    }

    fn spec_plus(self, _rhs: Real) -> Real {
        unreachable!()
    }

    fn spec_times(self, _rhs: Real) -> Real {
        unreachable!()
    }

    fn zero() -> Real {
        Real(0.0)
    }

    fn one() -> Real {
        Real(1.0)
    }

    fn negate(self) -> Real {
        Real(-self.0)
    }

    fn plus(self, rhs: Real) -> Real {
        Real(self.0 + rhs.0)
    }

    fn times(self, rhs: Real) -> Real {
        Real(self.0 * rhs.0)
    }
}

fn reals(values: &[f64]) -> Vec<Real> {
    values.iter().map(|v| Real(*v)).collect()
}

fn build(n: usize, values: &[f64]) -> SkewMatrix<Real> {
    match SkewMatrix::from_upper_triangle(n, &reals(values)) {
        Ok(m) => m,
        Err(e) => panic!("no matrix: {:?}", e),
    }
}

fn counting(n: usize) -> Vec<f64> {
    (1..=n * (n - 1) / 2).map(|v| v as f64).collect()
}

/// The expansion along the first index, with nothing remembered.
fn expand(m: &SkewMatrix<Real>, indices: &[usize]) -> f64 {
    if indices.is_empty() {
        return 1.0;
    }
    let mut total = 0.0;
    for position in 1..indices.len() {
        let mut rest = Vec::new();
        for k in 1..indices.len() {
            if k != position {
                rest.push(indices[k]);
            }
        }
        let sign = if position % 2 == 1 { 1.0 } else { -1.0 };
        total += sign * m.entry(indices[0], indices[position]).0 * expand(m, &rest);
    }
    total
}

fn same_bits(x: Real, y: Real) -> bool {
    x.0.to_bits() == y.0.to_bits()
}

#[test]
fn zeros_of_doubles_give_zero_in_the_products_and_sums_of_a_pfaffian() {
    let zero = Real::zero();
    let one = Real::one();
    let other = one.negate().times(zero);
    assert!(same_bits(one.times(zero), zero));
    assert!(same_bits(zero.times(one), zero));
    assert!(same_bits(zero.times(zero), zero));
    assert!(same_bits(other.times(one), other));
    assert!(same_bits(other.times(zero), other));
    assert!(same_bits(zero.plus(zero), zero));
    assert!(same_bits(zero.plus(other), zero));
}

#[test]
fn doubles_come_back_from_zero_and_one() {
    for x in [12.0, -3.5, 0.25, 1.0e300, -7.0e-200, 5.0e-324, f64::INFINITY, f64::MIN, 0.0] {
        let x = Real(x);
        assert!(same_bits(Real::zero().plus(x), x));
        assert!(same_bits(Real::one().times(x), x));
        assert!(same_bits(x.times(Real::one()), x));
    }
}

#[test]
fn the_opposite_of_a_double_undoes_itself() {
    for x in [12.0, -3.5, 0.0, -0.0, f64::INFINITY, f64::NEG_INFINITY, f64::NAN, f64::MAX] {
        let x = Real(x);
        assert!(same_bits(x.negate().negate(), x));
    }
    assert!(same_bits(Real(0.0).negate(), Real(-0.0)));
}

#[test]
fn the_opposite_of_one_in_front_gives_the_opposite_product() {
    for (x, y) in [(3.0, 6.0), (-1.25, 0.75), (1.0e200, 1.0e200), (0.1, 0.3), (-0.0, 4.0)] {
        let (x, y) = (Real(x), Real(y));
        assert!(same_bits(Real::one().negate().times(x).times(y), x.times(y).negate()));
    }
}

#[test]
fn order_two_gives_the_entry() {
    for a in [12.0, -3.5, 0.25, 1.0e300, -7.0e-200] {
        let m = build(2, &[a]);
        assert_eq!(m.pfaffian().0, a);
    }
}

#[test]
fn order_four_gives_af_minus_be_plus_cd() {
    let (a, b, c, d, e, f) = (2.0, 3.0, 4.0, 5.0, 6.0, 7.0);
    let m = build(4, &[a, b, c, d, e, f]);
    assert_eq!(m.pfaffian().0, a * f - b * e + c * d);
    assert_eq!(m.pfaffian().0, 16.0);

    let (a, b, c, d, e, f) = (0.5, -1.25, 3.0, 8.0, -0.75, 2.5);
    let m = build(4, &[a, b, c, d, e, f]);
    assert_eq!(m.pfaffian().0, a * f - b * e + c * d);
    assert_eq!(m.pfaffian().0, 24.3125);
}

#[test]
fn the_second_partner_counts_negatively() {
    // Only the pairs (0, 2) and (1, 3) carry a weight.
    let m = build(4, &[0.0, 3.0, 0.0, 0.0, 5.0, 0.0]);
    assert_eq!(m.pfaffian().0, -15.0);
}

#[test]
fn order_six_with_the_values_one_to_fifteen() {
    let m = build(6, &counting(6));
    assert_eq!(m.pfaffian().0, 256.0);
}

#[test]
fn order_eight_with_the_values_one_to_twenty_eight() {
    let m = build(8, &counting(8));
    assert_eq!(m.pfaffian().0, 18432.0);
}

#[test]
fn the_empty_matrix_has_pfaffian_one() {
    let m = build(0, &[]);
    assert_eq!(m.dimension(), 0);
    assert_eq!(m.pfaffian().0, 1.0);
}

#[test]
fn matrices_of_zeros_have_pfaffian_zero() {
    for n in [2usize, 4, 6, 8, 10] {
        let m = build(n, &vec![0.0; n * (n - 1) / 2]);
        assert_eq!(m.pfaffian().0, 0.0);
        assert!(same_bits(m.pfaffian(), Real(0.0)));
    }
}

#[test]
fn entries_mirror_each_other_with_opposite_sign() {
    let n = 6;
    let values = counting(n);
    let m = build(n, &values);
    assert_eq!(m.dimension(), n);
    let mut next = 0;
    for i in 0..n {
        assert_eq!(m.entry(i, i).0, 0.0);
        for j in i + 1..n {
            assert_eq!(m.entry(i, j).0, values[next]);
            assert_eq!(m.entry(j, i).0, -values[next]);
            assert_eq!(m.entry(i, j).0, -m.entry(j, i).0);
            next += 1;
        }
    }
    assert_eq!(next, 15);
}

#[test]
fn computing_twice_gives_the_same_bits() {
    let values: Vec<f64> = (0..28).map(|k| (k as f64 * 0.37).sin() * 3.0).collect();
    let m = build(8, &values);
    let first = m.pfaffian().0;
    let second = m.pfaffian().0;
    assert_eq!(first.to_bits(), second.to_bits());
    let again = build(8, &values);
    assert_eq!(again.pfaffian().0.to_bits(), first.to_bits());
}

#[test]
fn remembering_changes_no_result() {
    for n in [2usize, 4, 6, 8] {
        let values: Vec<f64> =
            (0..n * (n - 1) / 2).map(|k| ((k * k) as f64 * 0.61).cos() * 2.0 - 0.3).collect();
        let m = build(n, &values);
        let all: Vec<usize> = (0..n).collect();
        assert_eq!(m.pfaffian().0.to_bits(), expand(&m, &all).to_bits());
    }
}

#[test]
fn not_a_number_and_infinity_pass_through() {
    let m = build(2, &[f64::NAN]);
    assert!(m.pfaffian().0.is_nan());
    let m = build(2, &[f64::INFINITY]);
    assert_eq!(m.pfaffian().0, f64::INFINITY);
    let m = build(4, &[f64::INFINITY, 0.0, 0.0, 0.0, 0.0, 0.0]);
    assert!(m.pfaffian().0.is_nan());
}

#[test]
fn an_odd_dimension_is_refused() {
    for n in [1usize, 3, 5, 7] {
        let r = SkewMatrix::from_upper_triangle(n, &reals(&counting(n)));
        assert!(matches!(r, Err(MatrixError::InvalidDimension)));
    }
    let r = SkewMatrix::from_upper_triangle(3, &reals(&[1.0]));
    assert!(matches!(r, Err(MatrixError::InvalidDimension)));
}

#[test]
fn a_wrong_number_of_values_is_refused() {
    let r = SkewMatrix::from_upper_triangle(4, &reals(&[1.0, 2.0, 3.0, 4.0, 5.0]));
    assert!(matches!(r, Err(MatrixError::InvalidValueCount { expected: 6, actual: 5 })));
    let r = SkewMatrix::from_upper_triangle(4, &reals(&counting(6)));
    assert!(matches!(r, Err(MatrixError::InvalidValueCount { expected: 6, actual: 15 })));
    let r = SkewMatrix::from_upper_triangle(0, &reals(&[1.0]));
    assert!(matches!(r, Err(MatrixError::InvalidValueCount { expected: 0, actual: 1 })));
    let r = SkewMatrix::from_upper_triangle(2, &reals(&[]));
    assert!(matches!(r, Err(MatrixError::InvalidValueCount { expected: 1, actual: 0 })));
}
