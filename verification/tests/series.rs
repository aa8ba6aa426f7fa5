use scilib::errors::MathError;
use scilib::math::series::{max_slice, mean, min_slice, pearson_r, scale_min_max, variance};
use scilib::rational::Rational;

#[test]
fn max_of_mixed_values() {
    let v: Vec<i64> = vec![0, 12, -1, 52, 2, 28];
    assert_eq!(max_slice(&v), Ok(52));
}

#[test]
fn max_keeps_first_seen_on_ties() {
    let v: Vec<i64> = vec![7, 3, 7, -2];
    assert_eq!(max_slice(&v), Ok(7));
}

#[test]
fn min_of_mixed_values() {
    let v: Vec<i64> = vec![0, 12, -1, 52, 2, 28];
    assert_eq!(min_slice(&v), Ok(-1));
}

#[test]
fn min_of_single_element() {
    let v: Vec<i64> = vec![9];
    assert_eq!(min_slice(&v), Ok(9));
    assert_eq!(max_slice(&v), Ok(9));
}

#[test]
fn mean_of_six_values() {
    let v: Vec<i64> = vec![0, 1, 2, 3, 4, 5];
    let m: Rational = mean(&v).unwrap();
    assert!(m.eq_frac(5, 2));
    assert_eq!(m.num, 15);
    assert_eq!(m.den, 6);
}

#[test]
fn max_and_min_of_empty_series_are_errors() {
    let v: Vec<i64> = vec![];
    assert_eq!(max_slice(&v), Err(MathError::EmptyInput));
    assert_eq!(min_slice(&v), Err(MathError::EmptyInput));
}

#[test]
fn mean_of_empty_series_is_an_error() {
    let v: Vec<i64> = vec![];
    assert_eq!(mean(&v), Err(MathError::EmptyInput));
}

#[test]
fn mean_lies_between_min_and_max() {
    let v: Vec<i64> = vec![1, 5, 3];
    let m: Rational = mean(&v).unwrap();
    let lo: i64 = min_slice(&v).unwrap();
    let hi: i64 = max_slice(&v).unwrap();
    assert!(m.eq_frac(3, 1));
    // lo <= m <= hi, cleared of the positive denominator of m
    assert!((lo as i128) * m.den <= m.num);
    assert!(m.num <= (hi as i128) * m.den);
    assert!(m.le_frac(hi as i128, 1));
    assert!(!m.le_frac((lo as i128) * 2, 3));
}

#[test]
fn variance_of_six_values_and_std_dev() {
    let v: Vec<i64> = vec![0, 1, 2, 3, 4, 5];
    let var: Rational = variance(&v).unwrap();
    assert!(var.eq_frac(35, 12));
    let std_dev: f64 = (var.num as f64 / var.den as f64).sqrt();
    assert!((std_dev - 1.707825127659933).abs() < 1e-10);
}

#[test]
fn variance_of_empty_series_is_an_error() {
    let v: Vec<i64> = vec![];
    assert_eq!(variance(&v), Err(MathError::EmptyInput));
}

#[test]
fn variance_is_zero_exactly_for_a_constant_series() {
    let constant: Vec<i64> = vec![7, 7, 7];
    let var: Rational = variance(&constant).unwrap();
    assert!(var.eq_frac(0, 1));

    let non_constant: Vec<i64> = vec![1, 2];
    let var: Rational = variance(&non_constant).unwrap();
    assert!(var.num > 0);
    let std_dev: f64 = (var.num as f64 / var.den as f64).sqrt();
    assert!(std_dev > 0.0);
}

#[test]
fn pearson_r_of_a_series_with_itself_is_one() {
    let x: Vec<i64> = vec![1, 2, 4];
    let terms = pearson_r(&x, &x).unwrap();
    assert_eq!(terms.cov, terms.var_x);
    assert_eq!(terms.cov, terms.var_y);
    assert!(terms.cov > 0);
    let r: f64 = terms.cov as f64 / ((terms.var_x as f64) * (terms.var_y as f64)).sqrt();
    assert!((r - 1.0).abs() < 1e-12);
}

#[test]
fn pearson_r_of_opposed_series_is_minus_one() {
    let x: Vec<i64> = vec![1, 2, 3];
    let y: Vec<i64> = vec![3, 2, 1];
    let terms = pearson_r(&x, &y).unwrap();
    assert_eq!(terms.cov, -6);
    assert_eq!(terms.var_x, 6);
    assert_eq!(terms.var_y, 6);
    let r: f64 = terms.cov as f64 / ((terms.var_x as f64) * (terms.var_y as f64)).sqrt();
    assert!((r + 1.0).abs() < 1e-12);
    // the Cauchy-Schwarz bound, attained with equality here
    assert!(terms.cov * terms.cov <= terms.var_x * terms.var_y);
}

#[test]
fn pearson_r_of_unequal_lengths_is_an_error() {
    let x: Vec<i64> = vec![1, 2];
    let y: Vec<i64> = vec![1, 2, 3];
    assert_eq!(pearson_r(&x, &y), Err(MathError::LengthMismatch));
}

#[test]
fn scale_min_max_onto_a_decreasing_interval() {
    let v: Vec<i64> = vec![1, 2, 3, 4, 5, 6];
    let a = Rational::from_int(2);
    let b = Rational::from_int(-1);
    let out: Vec<Rational> = scale_min_max(&v, a, b).unwrap();
    assert_eq!(out.len(), 6);
    // the minimum lands on a and the maximum on b
    assert!(out[0].eq_frac(2, 1));
    assert!(out[5].eq_frac(-1, 1));
    // the map is affine: a + (x - min) * (b - a) / (max - min), here 2 - 3*(x-1)/5
    assert!(out[3].eq_frac(1, 5));
    let expected_nums: [i128; 6] = [10, 7, 4, 1, -2, -5];
    for (value, expected) in out.iter().zip(expected_nums.iter()) {
        assert_eq!(value.den, 5);
        assert_eq!(value.num, *expected);
    }
    // monotonic between the ends: strictly decreasing for b < a
    for pair in out.windows(2) {
        assert!(pair[0].num > pair[1].num);
    }
}

#[test]
fn scale_min_max_onto_an_increasing_interval_attains_both_ends() {
    let v: Vec<i64> = vec![1, 2, 3, 4, 5, 6];
    let a = Rational::from_int(-1);
    let b = Rational::from_int(2);
    let out: Vec<Rational> = scale_min_max(&v, a, b).unwrap();
    assert!(out[0].eq_frac(-1, 1));
    assert!(out[5].eq_frac(2, 1));
    // every value stays within [a, b]: cleared of the shared denominator 5
    for value in out.iter() {
        assert_eq!(value.den, 5);
        assert!(-5 <= value.num && value.num <= 10);
    }
}

#[test]
fn scale_min_max_of_empty_series_is_an_error() {
    let v: Vec<i64> = vec![];
    let a = Rational::from_int(0);
    let b = Rational::from_int(1);
    assert_eq!(scale_min_max(&v, a, b), Err(MathError::EmptyInput));
}

#[test]
fn scale_min_max_of_constant_series_is_an_error() {
    let v: Vec<i64> = vec![5, 5];
    let a = Rational::from_int(0);
    let b = Rational::from_int(1);
    assert_eq!(scale_min_max(&v, a, b), Err(MathError::DegenerateRange));
}
