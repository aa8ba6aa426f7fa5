//! Exact rational values.
//!
//! The statistics in this crate are stated and computed over exact
//! fractions instead of approximate machine reals: a mean, a variance or a
//! min-max scaled value of an integer series is an exact rational, and the
//! contracts here pin it down exactly.
//!
//! `Frac` is the specification-level value: an unbounded numerator over a
//! non-zero unbounded denominator. `Rational` is the executable carrier: an
//! `i128` numerator over a positive `i128` denominator, whose view is a
//! `Frac`. Two fractions are compared as mathematical values (by
//! cross-multiplication), never by their representation.

use vstd::prelude::*;

verus! {

/// Specification-level fraction `n / d`. Meaningful whenever `d != 0`;
/// nothing here reduces a fraction, so equality of values is `frac_eq`,
/// not equality of the two fields.
pub struct Frac {
    pub n: int,
    pub d: int,
}

/// The fraction of an integer.
pub open spec fn frac_int(v: int) -> Frac {
    Frac { n: v, d: 1 }
}

/// Value equality: `p.n / p.d == q.n / q.d`, cleared of denominators.
pub open spec fn frac_eq(p: Frac, q: Frac) -> bool {
    p.n * q.d == q.n * p.d
}

/// Value order: `p.n / p.d <= q.n / q.d`. Both sides of the order are
/// multiplied by the square `(p.d * q.d) * (p.d * q.d) > 0`, so the
/// definition is correct for denominators of either sign.
pub open spec fn frac_le(p: Frac, q: Frac) -> bool {
    p.n * p.d * q.d * q.d <= q.n * q.d * p.d * p.d
}

/// Strict value order.
pub open spec fn frac_lt(p: Frac, q: Frac) -> bool {
    p.n * p.d * q.d * q.d < q.n * q.d * p.d * p.d
}

pub open spec fn frac_add(p: Frac, q: Frac) -> Frac {
    Frac { n: p.n * q.d + q.n * p.d, d: p.d * q.d }
}

pub open spec fn frac_sub(p: Frac, q: Frac) -> Frac {
    Frac { n: p.n * q.d - q.n * p.d, d: p.d * q.d }
}

pub open spec fn frac_mul(p: Frac, q: Frac) -> Frac {
    Frac { n: p.n * q.n, d: p.d * q.d }
}

pub open spec fn frac_div(p: Frac, q: Frac) -> Frac {
    Frac { n: p.n * q.d, d: p.d * q.n }
}

pub open spec fn frac_neg(q: Frac) -> Frac {
    Frac { n: -q.n, d: q.d }
}

/// The affine map `a + (x - lo) * (b - a) / (hi - lo)` that carries the
/// interval `[lo, hi]` onto `[a, b]`: `lo` goes to `a`, `hi` goes to `b`,
/// and everything between moves linearly.
pub open spec fn affine(x: Frac, lo: Frac, hi: Frac, a: Frac, b: Frac) -> Frac {
    frac_add(a, frac_div(frac_mul(frac_sub(x, lo), frac_sub(b, a)), frac_sub(hi, lo)))
}

/// The affine map from `[a, b]` onto `[a, b]` is the identity:
/// `a + (y - a) * (b - a) / (b - a) == y` as a value, for any `y`.
#[verifier::rlimit(100)]
pub proof fn lemma_affine_rescale(y: Frac, a: Frac, b: Frac)
    ensures
        frac_eq(affine(y, a, b, a, b), y),
{
    let s = frac_sub(y, a);
    let t = frac_sub(b, a);
    let r = affine(y, a, b, a, b);
    assert(r.n == a.n * ((s.d * t.d) * t.n) + ((s.n * t.n) * t.d) * a.d);
    assert(r.d == a.d * ((s.d * t.d) * t.n));
    let c = t.d * t.n;
    let p = a.n * s.d + s.n * a.d;
    let q = a.d * s.d;
    assert(p * y.d == q * y.n) by (nonlinear_arith)
        requires
            p == a.n * s.d + s.n * a.d,
            q == a.d * s.d,
            s.n == y.n * a.d - a.n * y.d,
            s.d == y.d * a.d,
    ;
    assert(a.n * ((s.d * t.d) * t.n) == (a.n * s.d) * c) by (nonlinear_arith)
        requires
            c == t.d * t.n,
    ;
    assert(((s.n * t.n) * t.d) * a.d == (s.n * a.d) * c) by (nonlinear_arith)
        requires
            c == t.d * t.n,
    ;
    assert((a.n * s.d) * c + (s.n * a.d) * c == p * c) by (nonlinear_arith)
        requires
            p == a.n * s.d + s.n * a.d,
    ;
    assert(r.n == p * c);
    assert(r.d == q * c) by (nonlinear_arith)
        requires
            r.d == a.d * ((s.d * t.d) * t.n),
            q == a.d * s.d,
            c == t.d * t.n,
    ;
    assert(r.n * y.d == y.n * r.d) by (nonlinear_arith)
        requires
            r.n == p * c,
            r.d == q * c,
            p * y.d == q * y.n,
    ;
}

/// A mathematical integer fits the executable numerator/denominator type.
pub open spec fn fits_i128(v: int) -> bool {
    i128::MIN as int <= v <= i128::MAX as int
}

/// With positive denominators the order needs no squares: it is plain
/// cross-multiplication.
pub proof fn lemma_frac_le_pos(p: Frac, q: Frac)
    by (nonlinear_arith)
    requires
        p.d >= 1,
        q.d >= 1,
    ensures
        frac_le(p, q) <==> p.n * q.d <= q.n * p.d,
        frac_lt(p, q) <==> p.n * q.d < q.n * p.d,
{
}

/// Executable exact rational. The two fields are public so that a caller
/// can read the exact result of a computation; every function that takes a
/// `Rational` asks for `wf()`, a positive denominator.
#[derive(Clone, Copy, Debug, PartialEq, Eq, Structural)]
pub struct Rational {
    pub num: i128,
    pub den: i128,
}

impl View for Rational {
    type V = Frac;

    open spec fn view(&self) -> Frac {
        Frac { n: self.num as int, d: self.den as int }
    }
}

impl Rational {
    /// The denominator is positive, so the carried value is well defined.
    pub open spec fn wf(self) -> bool {
        self.den >= 1
    }

    /// The rational `num / den`.
    pub fn new(num: i128, den: i128) -> (r: Rational)
        requires
            den >= 1,
        ensures
            r.wf(),
            r@ == (Frac { n: num as int, d: den as int }),
    {
        Rational { num, den }
    }

    /// The rational with the value of the integer `v`.
    pub fn from_int(v: i64) -> (r: Rational)
        ensures
            r.wf(),
            r@ == frac_int(v as int),
    {
        Rational { num: v as i128, den: 1 }
    }

    /// Does this rational have exactly the value `n / d`?
    pub fn eq_frac(&self, n: i128, d: i128) -> (r: bool)
        requires
            self.wf(),
            d >= 1,
            fits_i128(self.num * d),
            fits_i128(n * self.den),
        ensures
            r == frac_eq(self@, Frac { n: n as int, d: d as int }),
    {
        self.num * d == n * self.den
    }

    /// Is this rational's value at most `n / d`?
    pub fn le_frac(&self, n: i128, d: i128) -> (r: bool)
        requires
            self.wf(),
            d >= 1,
            fits_i128(self.num * d),
            fits_i128(n * self.den),
        ensures
            r == frac_le(self@, Frac { n: n as int, d: d as int }),
    {
        proof {
            lemma_frac_le_pos(self@, Frac { n: n as int, d: d as int });
        }
        self.num * d <= n * self.den
    }
}

} // verus!
