use pfaffian::matrix::{pairs_above_diagonal, MatrixError, SkewMatrix};
use pfaffian::scalar::Scalar;

fn build(n: usize, values: &[i64]) -> SkewMatrix<i64> {
    match SkewMatrix::from_upper_triangle(n, values) {
        Ok(m) => m,
        Err(e) => panic!("no matrix: {:?}", e),
    }
}

fn counting(n: usize) -> Vec<i64> {
    (1..=(n * (n - 1) / 2) as i64).collect()
}

#[test]
fn integer_arithmetic_wraps() {
    assert_eq!(<i64 as Scalar>::zero(), 0);
    assert_eq!(<i64 as Scalar>::one(), 1);
    assert_eq!(Scalar::negate(5i64), -5);
    assert_eq!(Scalar::negate(i64::MIN), i64::MIN);
    assert_eq!(Scalar::plus(i64::MAX, 1i64), i64::MIN);
    assert_eq!(Scalar::plus(20i64, 22i64), 42);
    assert_eq!(Scalar::times(6i64, -7i64), -42);
    assert_eq!(Scalar::times(1i64 << 62, 4i64), 0);
    assert_eq!(Scalar::times(i64::MAX, 2i64), -2);
}

#[test]
fn entries_stand_row_by_row() {
    let m = build(4, &[1, 2, 3, 4, 5, 6]);
    let expected = [[0, 1, 2, 3], [-1, 0, 4, 5], [-2, -4, 0, 6], [-3, -5, -6, 0]];
    for i in 0..4 {
        for j in 0..4 {
            assert_eq!(m.entry(i, j), expected[i][j]);
        }
    }
}

#[test]
fn last_pair_of_order_six_holds_the_fifteenth_value() {
    let m = build(6, &counting(6));
    assert_eq!(m.entry(4, 5), 15);
    assert_eq!(m.entry(5, 4), -15);
    assert_eq!(m.entry(1, 2), 6);
    assert_eq!(m.entry(2, 5), 12);
    assert_eq!(m.entry(3, 4), 13);
}

#[test]
fn dimension_is_the_one_asked_for() {
    assert_eq!(build(0, &[]).dimension(), 0);
    for n in [2usize, 4, 6, 12] {
        assert_eq!(build(n, &counting(n)).dimension(), n);
    }
}

#[test]
fn diagonal_is_zero() {
    let m = build(8, &counting(8));
    for i in 0..8 {
        assert_eq!(m.entry(i, i), 0);
    }
}

#[test]
fn integer_pfaffians() {
    assert_eq!(build(0, &[]).pfaffian(), 1);
    assert_eq!(build(2, &[12]).pfaffian(), 12);
    assert_eq!(build(2, &[-12]).pfaffian(), -12);
    assert_eq!(build(4, &[2, 3, 4, 5, 6, 7]).pfaffian(), 16);
    assert_eq!(build(6, &counting(6)).pfaffian(), 256);
    assert_eq!(build(8, &counting(8)).pfaffian(), 18432);
    assert_eq!(build(6, &[0; 15]).pfaffian(), 0);
}

#[test]
fn pfaffian_squared_is_the_determinant() {
    // The determinant of this matrix of dimension 4 is 64.
    let m = build(4, &[1, 2, 3, 4, 5, 6]);
    assert_eq!(m.pfaffian(), 1 * 6 - 2 * 5 + 3 * 4);
    assert_eq!(m.pfaffian() * m.pfaffian(), 64);
}

#[test]
fn a_chain_of_pairs_multiplies_its_weights() {
    // Only the pairs (0, 1), (2, 3), ... carry a weight, so one matching counts.
    for n in [2usize, 8, 16, 20] {
        let mut values = vec![0i64; n * (n - 1) / 2];
        let mut next = 0;
        let mut product: i64 = 1;
        for i in 0..n {
            for j in i + 1..n {
                if i % 2 == 0 && j == i + 1 {
                    values[next] = (i as i64) / 2 + 2;
                    product *= values[next];
                }
                next += 1;
            }
        }
        assert_eq!(build(n, &values).pfaffian(), product);
    }
}

#[test]
fn large_integers_wrap_around() {
    let big = i64::MAX;
    let m = build(4, &[big, 0, 0, 0, 0, 2]);
    assert_eq!(m.pfaffian(), big.wrapping_mul(2));
    assert_eq!(m.pfaffian(), -2);
}

#[test]
fn a_dimension_of_twelve_is_computed() {
    let n = 12;
    let values: Vec<i64> = (0..66).map(|k| (k * 7 % 11) - 5).collect();
    let m = build(n, &values);
    let direct = expand(&m, &(0..n).collect::<Vec<usize>>());
    assert_eq!(m.pfaffian(), direct);
}

/// The expansion along the first index, with nothing remembered.
fn expand(m: &SkewMatrix<i64>, indices: &[usize]) -> i64 {
    if indices.is_empty() {
        return 1;
    }
    let mut total: i64 = 0;
    for position in 1..indices.len() {
        let mut rest = Vec::new();
        for k in 1..indices.len() {
            if k != position {
                rest.push(indices[k]);
            }
        }
        let sign: i64 = if position % 2 == 1 { 1 } else { -1 };
        let term = sign
            .wrapping_mul(m.entry(indices[0], indices[position]))
            .wrapping_mul(expand(m, &rest));
        total = total.wrapping_add(term);
    }
    total
}

#[test]
fn pairs_above_the_diagonal_are_counted() {
    assert_eq!(pairs_above_diagonal(0), 0);
    assert_eq!(pairs_above_diagonal(1), 0);
    assert_eq!(pairs_above_diagonal(2), 1);
    assert_eq!(pairs_above_diagonal(4), 6);
    assert_eq!(pairs_above_diagonal(6), 15);
    assert_eq!(pairs_above_diagonal(7), 21);
    assert_eq!(pairs_above_diagonal(100), 4950);
    let max = usize::MAX as u128;
    assert_eq!(pairs_above_diagonal(usize::MAX), max * (max - 1) / 2);
}

#[test]
fn dimensions_beyond_any_memory_are_refused_like_others() {
    let r = SkewMatrix::<i64>::from_upper_triangle(usize::MAX, &[]);
    assert_eq!(r.err(), Some(MatrixError::InvalidDimension));
    let r = SkewMatrix::<i64>::from_upper_triangle(usize::MAX - 1, &[1, 2, 3]);
    let max = usize::MAX as u128;
    assert_eq!(
        r.err(),
        Some(MatrixError::InvalidValueCount { expected: (max - 1) * (max - 2) / 2, actual: 3 })
    );
}

#[test]
fn integer_matrices_report_the_same_errors() {
    let r = SkewMatrix::<i64>::from_upper_triangle(5, &counting(5));
    assert!(matches!(r, Err(MatrixError::InvalidDimension)));
    assert_eq!(r.err(), Some(MatrixError::InvalidDimension));
    let r = SkewMatrix::<i64>::from_upper_triangle(6, &counting(5));
    assert_eq!(r.err(), Some(MatrixError::InvalidValueCount { expected: 15, actual: 10 }));
}

/// Adds to `all` every way to split the places `free` into pairs, each pair
/// with its lower place first, after the pairs `done`.
fn extend(free: &[usize], done: &mut Vec<(usize, usize)>, all: &mut Vec<Vec<(usize, usize)>>) {
    if free.is_empty() {
        all.push(done.clone());
        return;
    }
    for k in 1..free.len() {
        let rest: Vec<usize> = free
            .iter()
            .enumerate()
            .filter(|(i, _)| *i != 0 && *i != k)
            .map(|(_, x)| *x)
            .collect();
        done.push((free[0], free[k]));
        extend(&rest, done, all);
        done.pop();
    }
}

/// All ways to split the places `0..n` into pairs.
fn perfect_matchings(n: usize) -> Vec<Vec<(usize, usize)>> {
    let mut all = Vec::new();
    extend(&(0..n).collect::<Vec<usize>>(), &mut Vec::new(), &mut all);
    all
}

/// The sign of the permutation that the places of the pairs, read pair after
/// pair, make of `0..n`.
fn sign_of_matching(pairs: &[(usize, usize)]) -> i64 {
    let word: Vec<usize> = pairs.iter().flat_map(|(a, b)| [*a, *b]).collect();
    let mut inversions = 0;
    for i in 0..word.len() {
        for j in i + 1..word.len() {
            if word[i] > word[j] {
                inversions += 1;
            }
        }
    }
    if inversions % 2 == 0 {
        1
    } else {
        -1
    }
}

#[test]
fn pfaffian_is_the_signed_sum_over_all_perfect_matchings() {
    let counts = [1usize, 1, 3, 15, 105];
    for half in 0..5usize {
        let n = 2 * half;
        let count = (n * n.saturating_sub(1) / 2) as i64;
        let values: Vec<i64> = (0..count).map(|k| (k * 5 % 13) - 6).collect();
        let m = build(n, &values);
        let matchings = perfect_matchings(n);
        assert_eq!(matchings.len(), counts[half]);
        let mut sum: i64 = 0;
        for pairs in &matchings {
            let mut weight: i64 = 1;
            for (a, b) in pairs {
                weight *= m.entry(*a, *b);
            }
            sum += sign_of_matching(pairs) * weight;
        }
        assert_eq!(m.pfaffian(), sum);
    }
}
