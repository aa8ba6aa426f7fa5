//! Spherical coordinates.
//!
//! A point in 3D space as a radial distance and two angles. Scalar
//! multiplication, division and negation act on the radius alone and leave
//! both angles untouched: they stretch the point along its existing ray
//! from the origin. This is deliberately not a full spherical negation or
//! a coordinate-consistent scale; callers who need those must adjust the
//! angles themselves.

use vstd::prelude::*;

use crate::errors::MathError;
use crate::rational::{frac_div, frac_int, frac_mul, frac_neg, frac_eq, fits_i128, Frac, Rational};

verus! {

/// Spherical coordinates, defined for 3D space.
///
/// The radius is expected to be non-negative by convention, but nothing
/// enforces that; the angles are in radians and are not normalized.
#[derive(Clone, Copy, Debug, PartialEq, Eq, Structural)]
pub struct Spherical {
    /// Radial distance.
    pub r: Rational,
    /// Longitude angle.
    pub theta: Rational,
    /// Latitude angle.
    pub phi: Rational,
}

impl Spherical {
    /// All three fields carry well-defined values.
    pub open spec fn wf(self) -> bool {
        self.r.wf() && self.theta.wf() && self.phi.wf()
    }

    /// Creates a new entity, all elements equal to zero; the same value as
    /// `Spherical::default()`.
    pub fn new() -> (res: Spherical)
        ensures
            res.wf(),
            res.r@ == frac_int(0),
            res.theta@ == frac_int(0),
            res.phi@ == frac_int(0),
    {
        Spherical { r: Rational::from_int(0), theta: Rational::from_int(0), phi: Rational::from_int(0) }
    }

    /// Creates a point from three given values, with no validation beyond
    /// their denominators being positive.
    pub fn from(r: Rational, theta: Rational, phi: Rational) -> (res: Spherical)
        requires
            r.wf(),
            theta.wf(),
            phi.wf(),
        ensures
            res.wf(),
            res.r == r,
            res.theta == theta,
            res.phi == phi,
    {
        Spherical { r, theta, phi }
    }

    /// Scalar multiplication: multiplies the radius by a scalar; the
    /// angles pass through unchanged.
    pub fn mul(self, rhs: Rational) -> (res: Spherical)
        requires
            self.wf(),
            rhs.wf(),
            fits_i128(self.r@.n * rhs@.n),
            fits_i128(self.r@.d * rhs@.d),
        ensures
            res.wf(),
            res.r@ == frac_mul(self.r@, rhs@),
            res.theta == self.theta,
            res.phi == self.phi,
    {
        proof {
            assert(self.r.den * rhs.den >= 1) by (nonlinear_arith)
                requires
                    self.r.den >= 1,
                    rhs.den >= 1,
            ;
        }
        Spherical {
            r: Rational { num: self.r.num * rhs.num, den: self.r.den * rhs.den },
            theta: self.theta,
            phi: self.phi,
        }
    }

    /// Assigning scalar multiplication: multiplies the radius by a scalar
    /// in place.
    pub fn mul_assign(&mut self, rhs: Rational)
        requires
            old(self).wf(),
            rhs.wf(),
            fits_i128(old(self).r@.n * rhs@.n),
            fits_i128(old(self).r@.d * rhs@.d),
        ensures
            final(self).wf(),
            final(self).r@ == frac_mul(old(self).r@, rhs@),
            final(self).theta == old(self).theta,
            final(self).phi == old(self).phi,
    {
        proof {
            assert(self.r.den * rhs.den >= 1) by (nonlinear_arith)
                requires
                    self.r.den >= 1,
                    rhs.den >= 1,
            ;
        }
        self.r = Rational { num: self.r.num * rhs.num, den: self.r.den * rhs.den };
    }

    /// Scalar division: divides the radius by a scalar; the angles pass
    /// through unchanged. A zero divisor is reported as
    /// [`MathError::DivideByZero`] instead of yielding an infinity.
    pub fn div(self, rhs: Rational) -> (res: Result<Spherical, MathError>)
        requires
            self.wf(),
            rhs.wf(),
            fits_i128(self.r@.n * rhs@.d),
            fits_i128(self.r@.d * rhs@.n),
            fits_i128(-(self.r@.n * rhs@.d)),
            fits_i128(-(self.r@.d * rhs@.n)),
        ensures
            match res {
                Ok(p) => {
                    &&& rhs@.n != 0
                    &&& p.wf()
                    &&& frac_eq(p.r@, frac_div(self.r@, rhs@))
                    &&& p.theta == self.theta
                    &&& p.phi == self.phi
                },
                Err(e) => rhs@.n == 0 && e == MathError::DivideByZero,
            },
    {
        if rhs.num == 0 {
            Err(MathError::DivideByZero)
        } else if rhs.num > 0 {
            proof {
                assert(self.r.den * rhs.num >= 1) by (nonlinear_arith)
                    requires
                        self.r.den >= 1,
                        rhs.num >= 1,
                ;
            }
            Ok(Spherical {
                r: Rational { num: self.r.num * rhs.den, den: self.r.den * rhs.num },
                theta: self.theta,
                phi: self.phi,
            })
        } else {
            proof {
                assert(-(self.r.den * rhs.num) >= 1) by (nonlinear_arith)
                    requires
                        self.r.den >= 1,
                        rhs.num <= -1,
                ;
            }
            let p = Spherical {
                r: Rational { num: -(self.r.num * rhs.den), den: -(self.r.den * rhs.num) },
                theta: self.theta,
                phi: self.phi,
            };
            proof {
                lemma_div_negated(self.r@, rhs@);
            }
            Ok(p)
        }
    }

    /// Assigning scalar division: divides the radius by a scalar in place.
    /// On a zero divisor the point is left unchanged and
    /// [`MathError::DivideByZero`] is reported.
    pub fn div_assign(&mut self, rhs: Rational) -> (res: Result<(), MathError>)
        requires
            old(self).wf(),
            rhs.wf(),
            fits_i128(old(self).r@.n * rhs@.d),
            fits_i128(old(self).r@.d * rhs@.n),
            fits_i128(-(old(self).r@.n * rhs@.d)),
            fits_i128(-(old(self).r@.d * rhs@.n)),
        ensures
            match res {
                Ok(()) => {
                    &&& rhs@.n != 0
                    &&& final(self).wf()
                    &&& frac_eq(final(self).r@, frac_div(old(self).r@, rhs@))
                    &&& final(self).theta == old(self).theta
                    &&& final(self).phi == old(self).phi
                },
                Err(e) => {
                    &&& rhs@.n == 0
                    &&& e == MathError::DivideByZero
                    &&& *final(self) == *old(self)
                },
            },
    {
        match (*self).div(rhs) {
            Ok(p) => {
                *self = p;
                Ok(())
            },
            Err(e) => Err(e),
        }
    }

    /// Negation: multiplication by minus one, i.e. it flips the sign of
    /// the radius only, leaving the angles unchanged. This does not rotate
    /// the point by pi as a true spherical negation would.
    pub fn neg(self) -> (res: Spherical)
        requires
            self.wf(),
            self.r.num > i128::MIN,
        ensures
            res.wf(),
            res.r@ == frac_neg(self.r@),
            res.r@ == frac_mul(self.r@, frac_int(-1)),
            res.theta == self.theta,
            res.phi == self.phi,
    {
        Spherical {
            r: Rational { num: -self.r.num, den: self.r.den },
            theta: self.theta,
            phi: self.phi,
        }
    }
}

impl Default for Spherical {
    /// The origin: all elements equal to zero, the same value as
    /// `Spherical::new()`.
    fn default() -> (res: Spherical)
        ensures
            res.wf(),
            res.r@ == frac_int(0),
            res.theta@ == frac_int(0),
            res.phi@ == frac_int(0),
    {
        Spherical::new()
    }
}

/// Negating both parts of a fraction leaves its value unchanged, so a
/// division by a negative scalar can keep its denominator positive.
proof fn lemma_div_negated(r: Frac, k: Frac)
    by (nonlinear_arith)
    requires
        k.n != 0,
        r.d != 0,
        k.d != 0,
    ensures
        frac_eq(Frac { n: -(r.n * k.d), d: -(r.d * k.n) }, frac_div(r, k)),
{
}

} // verus!
