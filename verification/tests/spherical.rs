use scilib::coordinate::spherical::Spherical;
use scilib::errors::MathError;
use scilib::rational::Rational;

#[test]
fn new_and_default_are_the_origin() {
    let n = Spherical::new();
    let d = Spherical::default();
    assert_eq!(n, d);
    assert!(n.r.eq_frac(0, 1));
    assert!(n.theta.eq_frac(0, 1));
    assert!(n.phi.eq_frac(0, 1));
}

#[test]
fn from_keeps_the_given_fields() {
    let m = Spherical {
        r: Rational::from_int(1),
        theta: Rational::new(3, 25),
        phi: Rational::new(14, 5),
    };
    let f = Spherical::from(Rational::from_int(1), Rational::new(3, 25), Rational::new(14, 5));
    assert_eq!(m, f);
}

#[test]
fn scalar_multiplication_scales_only_the_radius() {
    // r = 1, theta = 0.2, phi = 2.1, multiplied by 2
    let s = Spherical::from(Rational::from_int(1), Rational::new(1, 5), Rational::new(21, 10));
    let res = s.mul(Rational::from_int(2));
    assert!(res.r.eq_frac(2, 1));
    assert_eq!(res.theta, s.theta);
    assert_eq!(res.phi, s.phi);
}

#[test]
fn assigning_multiplication_matches_multiplication() {
    let s = Spherical::from(Rational::from_int(1), Rational::new(1, 5), Rational::new(21, 10));
    let mut t = s;
    t.mul_assign(Rational::from_int(2));
    assert_eq!(t, s.mul(Rational::from_int(2)));
}

#[test]
fn negation_flips_only_the_radius() {
    let s = Spherical::from(Rational::from_int(1), Rational::new(1, 5), Rational::new(21, 10));
    let res = s.neg();
    assert!(res.r.eq_frac(-1, 1));
    assert_eq!(res.theta, s.theta);
    assert_eq!(res.phi, s.phi);
}

#[test]
fn scalar_division_scales_only_the_radius() {
    let s = Spherical::from(Rational::from_int(2), Rational::new(1, 5), Rational::new(21, 10));
    let res = s.div(Rational::from_int(2)).unwrap();
    assert!(res.r.eq_frac(1, 1));
    assert_eq!(res.theta, s.theta);
    assert_eq!(res.phi, s.phi);
}

#[test]
fn division_by_a_negative_scalar_keeps_the_denominator_positive() {
    let s = Spherical::from(Rational::from_int(2), Rational::new(1, 5), Rational::new(21, 10));
    let res = s.div(Rational::from_int(-2)).unwrap();
    assert!(res.r.eq_frac(-1, 1));
    assert!(res.r.den >= 1);
}

#[test]
fn division_by_zero_is_an_error() {
    let s = Spherical::from(Rational::from_int(1), Rational::new(1, 5), Rational::new(21, 10));
    assert_eq!(s.div(Rational::from_int(0)), Err(MathError::DivideByZero));
}

#[test]
fn assigning_division_by_zero_leaves_the_point_unchanged() {
    let s = Spherical::from(Rational::from_int(1), Rational::new(1, 5), Rational::new(21, 10));
    let mut t = s;
    let res = t.div_assign(Rational::from_int(0));
    assert_eq!(res, Err(MathError::DivideByZero));
    assert_eq!(t, s);
}

#[test]
fn assigning_division_matches_division() {
    let s = Spherical::from(Rational::from_int(3), Rational::new(1, 5), Rational::new(21, 10));
    let mut t = s;
    t.div_assign(Rational::from_int(2)).unwrap();
    assert_eq!(t, s.div(Rational::from_int(2)).unwrap());
}
