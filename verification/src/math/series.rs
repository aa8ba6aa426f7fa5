//! Aggregate statistics over integer series.
//!
//! A series is an ordered, finite, non-empty sequence of numbers. The
//! functions here report its extremes, its mean, its population variance,
//! the terms of the Pearson correlation of two series, and a min-max
//! rescaling — each one exactly, as an integer or an exact rational.
//!
//! The functions are independent and composable: each is pure, touches no
//! shared state, and is specified on its own.

use vstd::prelude::*;

use crate::errors::MathError;
use crate::rational::{
    affine, frac_eq, frac_int, frac_le, frac_lt, frac_sub, lemma_affine_rescale,
    lemma_frac_le_pos, Frac, Rational,
};

verus! {

/// Largest magnitude of a series element accepted by the functions whose
/// intermediate products must fit the machine integers: two to the 31st.
pub const ELEM_BOUND: i64 = 0x8000_0000;

/// Largest series length accepted by the same functions: two to the 31st.
pub const MAX_LEN: usize = 0x8000_0000;

/// Every element of the series lies within [`ELEM_BOUND`].
pub open spec fn bounded_elems(s: Seq<i64>) -> bool {
    forall|i: int| 0 <= i < s.len() ==> -(ELEM_BOUND as int) <= #[trigger] s[i] <= ELEM_BOUND as int
}

/// Sum of the elements of a series.
pub open spec fn sum_of(s: Seq<i64>) -> int
    decreases s.len(),
{
    if s.len() == 0 {
        0
    } else {
        sum_of(s.drop_last()) + s.last()
    }
}

/// Sum of the squares of the elements.
pub open spec fn sum_sq(s: Seq<i64>) -> int
    decreases s.len(),
{
    if s.len() == 0 {
        0
    } else {
        sum_sq(s.drop_last()) + s.last() * s.last()
    }
}

/// Sum of the pairwise products of two series of equal length.
pub open spec fn sum_prod(x: Seq<i64>, y: Seq<i64>) -> int
    decreases x.len(),
{
    if x.len() == 0 {
        0
    } else {
        sum_prod(x.drop_last(), y.drop_last()) + x.last() * y.last()
    }
}

/// The greatest element of a non-empty series.
pub open spec fn seq_max(s: Seq<i64>) -> int
    decreases s.len(),
{
    if s.len() <= 1 {
        s[0] as int
    } else if s.last() > seq_max(s.drop_last()) {
        s.last() as int
    } else {
        seq_max(s.drop_last())
    }
}

/// The least element of a non-empty series.
pub open spec fn seq_min(s: Seq<i64>) -> int
    decreases s.len(),
{
    if s.len() <= 1 {
        s[0] as int
    } else if s.last() < seq_min(s.drop_last()) {
        s.last() as int
    } else {
        seq_min(s.drop_last())
    }
}

/// All elements of the series are equal.
pub open spec fn all_equal(s: Seq<i64>) -> bool {
    forall|i: int, j: int| 0 <= i < s.len() && 0 <= j < s.len() ==> s[i] == s[j]
}

/// `n` times the sum of squared deviations from the mean, cleared of its
/// denominator: `n * sum(x^2) - sum(x)^2`, which is `n^2` times the
/// population variance of the series.
pub open spec fn var_n(s: Seq<i64>) -> int {
    s.len() * sum_sq(s) - sum_of(s) * sum_of(s)
}

/// The matching numerator of the covariance of two equal-length series:
/// `n * sum(x*y) - sum(x) * sum(y)`, which is `n^2` times the population
/// covariance.
pub open spec fn cov_n(x: Seq<i64>, y: Seq<i64>) -> int {
    x.len() * sum_prod(x, y) - sum_of(x) * sum_of(y)
}

/// Finds the maximum value in a slice.
///
/// Scans from the first element with a strict comparison, so ties keep the
/// first-seen maximum; for a total order the returned value is simply the
/// greatest element. A zero-length series is reported as
/// [`MathError::EmptyInput`] instead of an out-of-bounds access.
pub fn max_slice(val: &Vec<i64>) -> (r: Result<i64, MathError>)
    ensures
        match r {
            Ok(m) => {
                &&& val@.len() >= 1
                &&& m as int == seq_max(val@)
                &&& forall|i: int| 0 <= i < val@.len() ==> val@[i] <= m
                &&& exists|i: int| 0 <= i < val@.len() && val@[i] == m
            },
            Err(e) => val@.len() == 0 && e == MathError::EmptyInput,
        },
{
    if val.len() == 0 {
        return Err(MathError::EmptyInput);
    }
    let mut current_max: i64 = val[0];
    let n: usize = val.len();
    for k in 1..n
        invariant
            n == val@.len(),
            current_max as int == seq_max(val@.take(k as int)),
            forall|i: int| 0 <= i < k ==> val@[i] <= current_max,
            exists|i: int| 0 <= i < k && val@[i] == current_max,
    {
        proof {
            assert(val@.take(k as int + 1).drop_last() =~= val@.take(k as int));
        }
        if val[k] > current_max {
            current_max = val[k];
        }
    }
    proof {
        assert(val@.take(n as int) =~= val@);
    }
    Ok(current_max)
}

/// Finds the minimum value in a slice.
///
/// Symmetric to [`max_slice`]: a strict less-than scan from the first
/// element, with a zero-length series reported as
/// [`MathError::EmptyInput`].
pub fn min_slice(val: &Vec<i64>) -> (r: Result<i64, MathError>)
    ensures
        match r {
            Ok(m) => {
                &&& val@.len() >= 1
                &&& m as int == seq_min(val@)
                &&& forall|i: int| 0 <= i < val@.len() ==> m <= val@[i]
                &&& exists|i: int| 0 <= i < val@.len() && val@[i] == m
            },
            Err(e) => val@.len() == 0 && e == MathError::EmptyInput,
        },
{
    if val.len() == 0 {
        return Err(MathError::EmptyInput);
    }
    let mut current_min: i64 = val[0];
    let n: usize = val.len();
    for k in 1..n
        invariant
            n == val@.len(),
            current_min as int == seq_min(val@.take(k as int)),
            forall|i: int| 0 <= i < k ==> current_min <= val@[i],
            exists|i: int| 0 <= i < k && val@[i] == current_min,
    {
        proof {
            assert(val@.take(k as int + 1).drop_last() =~= val@.take(k as int));
        }
        if val[k] < current_min {
            current_min = val[k];
        }
    }
    proof {
        assert(val@.take(n as int) =~= val@);
    }
    Ok(current_min)
}

/// Mean value of a series: the sum of the elements over their count,
/// reported as an exact rational. A zero-length series is reported as
/// [`MathError::EmptyInput`] instead of a silent undefined quotient.
pub fn mean(val: &Vec<i64>) -> (r: Result<Rational, MathError>)
    ensures
        match r {
            Ok(m) => {
                &&& val@.len() >= 1
                &&& m.wf()
                &&& m@ == (Frac { n: sum_of(val@), d: val@.len() as int })
                &&& frac_le(frac_int(seq_min(val@)), m@)
                &&& frac_le(m@, frac_int(seq_max(val@)))
            },
            Err(e) => val@.len() == 0 && e == MathError::EmptyInput,
        },
{
    let n: usize = val.len();
    if n == 0 {
        return Err(MathError::EmptyInput);
    }
    let mut acc: i128 = 0;
    for k in 0..n
        invariant
            n == val@.len(),
            acc as int == sum_of(val@.take(k as int)),
            -((k as int) * 0x8000_0000_0000_0000) <= acc as int
                <= (k as int) * 0x8000_0000_0000_0000,
    {
        proof {
            assert(val@.take(k as int + 1).drop_last() =~= val@.take(k as int));
        }
        acc = acc + (val[k] as i128);
    }
    proof {
        assert(val@.take(n as int) =~= val@);
        lemma_mean_between_min_and_max(val@);
    }
    Ok(Rational { num: acc, den: n as i128 })
}

/// Population variance of a series, reported as an exact rational:
/// `(n * sum(x^2) - sum(x)^2) / n^2`, the mean of the squared deviations
/// from the mean. The population standard deviation is its square root.
/// A zero-length series is reported as [`MathError::EmptyInput`].
pub fn variance(val: &Vec<i64>) -> (r: Result<Rational, MathError>)
    requires
        val@.len() <= MAX_LEN,
        bounded_elems(val@),
    ensures
        match r {
            Ok(v) => {
                &&& val@.len() >= 1
                &&& v.wf()
                &&& v@ == (Frac { n: var_n(val@), d: (val@.len() * val@.len()) as int })
                &&& v@.n >= 0
                &&& (v@.n == 0 <==> all_equal(val@))
            },
            Err(e) => val@.len() == 0 && e == MathError::EmptyInput,
        },
{
    let n: usize = val.len();
    if n == 0 {
        return Err(MathError::EmptyInput);
    }
    let mut sum: i128 = 0;
    let mut sumsq: i128 = 0;
    for k in 0..n
        invariant
            n == val@.len(),
            n <= MAX_LEN,
            bounded_elems(val@),
            sum as int == sum_of(val@.take(k as int)),
            sumsq as int == sum_sq(val@.take(k as int)),
            -((k as int) * 0x8000_0000) <= sum as int <= (k as int) * 0x8000_0000,
            0 <= sumsq as int <= (k as int) * 0x4000_0000_0000_0000,
    {
        proof {
            assert(val@.take(k as int + 1).drop_last() =~= val@.take(k as int));
        }
        let x: i128 = val[k] as i128;
        proof {
            assert(0 <= x * x <= 0x4000_0000_0000_0000) by (nonlinear_arith)
                requires
                    -0x8000_0000 <= x <= 0x8000_0000,
            ;
        }
        sum = sum + x;
        sumsq = sumsq + x * x;
    }
    proof {
        assert(val@.take(n as int) =~= val@);
    }
    let n_i: i128 = n as i128;
    proof {
        lemma_variance_nonneg(val@);
        assert(0 <= n_i * sumsq <= 0x1000_0000_0000_0000_0000_0000_0000_0000
            && 0 <= sum * sum <= 0x1000_0000_0000_0000_0000_0000_0000_0000
            && 1 <= n_i * n_i <= 0x4000_0000_0000_0000) by (nonlinear_arith)
            requires
                1 <= n_i <= 0x8000_0000,
                0 <= sumsq <= n_i * 0x4000_0000_0000_0000,
                -(n_i * 0x8000_0000) <= sum <= n_i * 0x8000_0000,
        ;
    }
    Ok(Rational { num: n_i * sumsq - sum * sum, den: n_i * n_i })
}

/// The exact terms of the Pearson correlation coefficient of two series.
///
/// All three fields carry `n^2` times the corresponding population
/// moment, so the shared factor cancels and the coefficient itself is
/// `cov / sqrt(var_x * var_y)`.
#[derive(Clone, Copy, Debug, PartialEq, Eq, Structural)]
pub struct PearsonTerms {
    /// `n * sum(x*y) - sum(x) * sum(y)`: the covariance numerator.
    pub cov: i128,
    /// `n * sum(x^2) - sum(x)^2`: the variance numerator of the first series.
    pub var_x: i128,
    /// `n * sum(y^2) - sum(y)^2`: the variance numerator of the second series.
    pub var_y: i128,
}

/// Pearson r correlation between two non-empty series of equal length,
/// reported as its exact terms: the coefficient is
/// `cov / sqrt(var_x * var_y)`, and by the Cauchy-Schwarz bound in the
/// contract it lies in `[-1, 1]`. Series of unequal length are reported
/// as [`MathError::LengthMismatch`] instead of a silent truncation.
pub fn pearson_r(sample_x: &Vec<i64>, sample_y: &Vec<i64>) -> (r: Result<
    PearsonTerms,
    MathError,
>)
    requires
        sample_x@.len() >= 1,
        sample_y@.len() >= 1,
        sample_x@.len() <= MAX_LEN,
        bounded_elems(sample_x@),
        bounded_elems(sample_y@),
    ensures
        match r {
            Ok(t) => {
                &&& sample_x@.len() == sample_y@.len()
                &&& t.cov == cov_n(sample_x@, sample_y@)
                &&& t.var_x == var_n(sample_x@)
                &&& t.var_y == var_n(sample_y@)
                &&& t.var_x >= 0
                &&& t.var_y >= 0
                &&& t.cov * t.cov <= t.var_x * t.var_y
            },
            Err(e) => sample_x@.len() != sample_y@.len() && e == MathError::LengthMismatch,
        },
{
    let n: usize = sample_x.len();
    if n != sample_y.len() {
        return Err(MathError::LengthMismatch);
    }
    let mut sx: i128 = 0;
    let mut sy: i128 = 0;
    let mut sxx: i128 = 0;
    let mut syy: i128 = 0;
    let mut sxy: i128 = 0;
    for k in 0..n
        invariant
            n == sample_x@.len(),
            n == sample_y@.len(),
            n <= MAX_LEN,
            bounded_elems(sample_x@),
            bounded_elems(sample_y@),
            sx as int == sum_of(sample_x@.take(k as int)),
            sy as int == sum_of(sample_y@.take(k as int)),
            sxx as int == sum_sq(sample_x@.take(k as int)),
            syy as int == sum_sq(sample_y@.take(k as int)),
            sxy as int == sum_prod(sample_x@.take(k as int), sample_y@.take(k as int)),
            -((k as int) * 0x8000_0000) <= sx as int <= (k as int) * 0x8000_0000,
            -((k as int) * 0x8000_0000) <= sy as int <= (k as int) * 0x8000_0000,
            0 <= sxx as int <= (k as int) * 0x4000_0000_0000_0000,
            0 <= syy as int <= (k as int) * 0x4000_0000_0000_0000,
            -((k as int) * 0x4000_0000_0000_0000) <= sxy as int
                <= (k as int) * 0x4000_0000_0000_0000,
    {
        proof {
            assert(sample_x@.take(k as int + 1).drop_last() =~= sample_x@.take(k as int));
            assert(sample_y@.take(k as int + 1).drop_last() =~= sample_y@.take(k as int));
        }
        let x: i128 = sample_x[k] as i128;
        let y: i128 = sample_y[k] as i128;
        proof {
            assert(0 <= x * x <= 0x4000_0000_0000_0000 && 0 <= y * y <= 0x4000_0000_0000_0000
                && -0x4000_0000_0000_0000 <= x * y <= 0x4000_0000_0000_0000) by (nonlinear_arith)
                requires
                    -0x8000_0000 <= x <= 0x8000_0000,
                    -0x8000_0000 <= y <= 0x8000_0000,
            ;
        }
        sx = sx + x;
        sy = sy + y;
        sxx = sxx + x * x;
        syy = syy + y * y;
        sxy = sxy + x * y;
    }
    proof {
        assert(sample_x@.take(n as int) =~= sample_x@);
        assert(sample_y@.take(n as int) =~= sample_y@);
    }
    let n_i: i128 = n as i128;
    proof {
        lemma_variance_nonneg(sample_x@);
        lemma_variance_nonneg(sample_y@);
        lemma_pearson_bounded(sample_x@, sample_y@);
        assert(-0x1000_0000_0000_0000_0000_0000_0000_0000 <= n_i * sxy
            <= 0x1000_0000_0000_0000_0000_0000_0000_0000
            && 0 <= n_i * sxx <= 0x1000_0000_0000_0000_0000_0000_0000_0000
            && 0 <= n_i * syy <= 0x1000_0000_0000_0000_0000_0000_0000_0000
            && -0x1000_0000_0000_0000_0000_0000_0000_0000 <= sx * sy
            <= 0x1000_0000_0000_0000_0000_0000_0000_0000
            && 0 <= sx * sx <= 0x1000_0000_0000_0000_0000_0000_0000_0000
            && 0 <= sy * sy <= 0x1000_0000_0000_0000_0000_0000_0000_0000) by (nonlinear_arith)
            requires
                1 <= n_i <= 0x8000_0000,
                -(n_i * 0x8000_0000) <= sx <= n_i * 0x8000_0000,
                -(n_i * 0x8000_0000) <= sy <= n_i * 0x8000_0000,
                0 <= sxx <= n_i * 0x4000_0000_0000_0000,
                0 <= syy <= n_i * 0x4000_0000_0000_0000,
                -(n_i * 0x4000_0000_0000_0000) <= sxy <= n_i * 0x4000_0000_0000_0000,
        ;
    }
    Ok(PearsonTerms {
        cov: n_i * sxy - sx * sy,
        var_x: n_i * sxx - sx * sx,
        var_y: n_i * syy - sy * sy,
    })
}

/// Largest magnitude of the numerator and denominator of a scaling target
/// accepted by [`scale_min_max`]: two to the 46th. Together with
/// [`ELEM_BOUND`] it keeps every intermediate product within the machine
/// integers.
pub const SCALE_BOUND: i128 = 0x4000_0000_0000;

/// The scaling target fits [`SCALE_BOUND`].
pub open spec fn scale_param_ok(q: Frac) -> bool {
    &&& -(SCALE_BOUND as int) <= q.n <= SCALE_BOUND as int
    &&& 1 <= q.d <= SCALE_BOUND as int
}

/// Shared denominator of every element scaled from `[lo, hi]` to `[a, b]`.
pub open spec fn scale_den(lo: int, hi: int, a: Frac, b: Frac) -> int {
    (a.d * b.d) * (hi - lo)
}

/// Numerator of the element `x` scaled from `[lo, hi]` to `[a, b]`: the
/// value `a + (x - lo) * (b - a) / (hi - lo)` cleared of [`scale_den`].
pub open spec fn scale_num(x: int, lo: int, hi: int, a: Frac, b: Frac) -> int {
    (a.n * b.d) * (hi - lo) + (x - lo) * (b.n * a.d - a.n * b.d)
}

/// The exact value of element `i` of the series `s` min-max scaled to the
/// target interval `[a, b]`.
pub open spec fn scaled_value(s: Seq<i64>, i: int, a: Frac, b: Frac) -> Frac {
    Frac {
        n: scale_num(s[i] as int, seq_min(s), seq_max(s), a, b),
        d: scale_den(seq_min(s), seq_max(s), a, b),
    }
}

/// Min-max scaling of a series: maps every element affinely so that the
/// series minimum lands on `a` and its maximum on `b`:
/// `scaled = a + (x - min) * (b - a) / (max - min)`.
///
/// A zero-length series is reported as [`MathError::EmptyInput`], and a
/// series whose elements are all equal (maximum == minimum) as
/// [`MathError::DegenerateRange`] instead of an undefined quotient.
pub fn scale_min_max(val: &Vec<i64>, a: Rational, b: Rational) -> (r: Result<
    Vec<Rational>,
    MathError,
>)
    requires
        bounded_elems(val@),
        a.wf(),
        b.wf(),
        scale_param_ok(a@),
        scale_param_ok(b@),
    ensures
        match r {
            Ok(out) => {
                &&& val@.len() >= 1
                &&& seq_min(val@) < seq_max(val@)
                &&& out@.len() == val@.len()
                &&& forall|i: int|
                    0 <= i < out@.len() ==> (#[trigger] out@[i]).wf() && out@[i]@
                        == scaled_value(val@, i, a@, b@)
                &&& forall|i: int|
                    0 <= i < out@.len() ==> frac_eq(
                        #[trigger] out@[i]@,
                        affine(
                            frac_int(val@[i] as int),
                            frac_int(seq_min(val@)),
                            frac_int(seq_max(val@)),
                            a@,
                            b@,
                        ),
                    )
            },
            Err(e) => {
                if val@.len() == 0 {
                    e == MathError::EmptyInput
                } else {
                    seq_min(val@) == seq_max(val@) && e == MathError::DegenerateRange
                }
            },
        },
{
    let n: usize = val.len();
    if n == 0 {
        return Err(MathError::EmptyInput);
    }
    let hi: i64 = match max_slice(val) {
        Ok(v) => v,
        Err(e) => {
            return Err(e);
        },
    };
    let lo: i64 = match min_slice(val) {
        Ok(v) => v,
        Err(e) => {
            return Err(e);
        },
    };
    if hi == lo {
        return Err(MathError::DegenerateRange);
    }
    proof {
        lemma_scale_products_fit(
            a@.n,
            a@.d,
            b@.n,
            b@.d,
            lo as int,
            hi as int,
            lo as int,
        );
    }
    let t1: i128 = b.num * a.den - a.num * b.den;
    let span: i128 = (hi as i128) - (lo as i128);
    let d_big: i128 = (a.den * b.den) * span;
    let base: i128 = (a.num * b.den) * span;
    let mut out: Vec<Rational> = Vec::new();
    for k in 0..n
        invariant
            n == val@.len(),
            bounded_elems(val@),
            a.wf(),
            b.wf(),
            scale_param_ok(a@),
            scale_param_ok(b@),
            lo as int == seq_min(val@),
            hi as int == seq_max(val@),
            lo < hi,
            -(ELEM_BOUND as int) <= lo as int,
            hi as int <= ELEM_BOUND as int,
            forall|i: int| 0 <= i < val@.len() ==> lo <= #[trigger] val@[i] <= hi,
            t1 as int == b@.n * a@.d - a@.n * b@.d,
            span as int == hi - lo,
            d_big as int == scale_den(lo as int, hi as int, a@, b@),
            1 <= d_big,
            base as int == (a@.n * b@.d) * (hi as int - lo as int),
            out@.len() == k,
            forall|i: int|
                0 <= i < k ==> (#[trigger] out@[i]).wf() && out@[i]@
                    == scaled_value(val@, i, a@, b@),
    {
        let x: i64 = val[k];
        proof {
            lemma_scale_products_fit(
                a@.n,
                a@.d,
                b@.n,
                b@.d,
                lo as int,
                hi as int,
                x as int,
            );
        }
        let num_k: i128 = base + ((x as i128) - (lo as i128)) * t1;
        out.push(Rational { num: num_k, den: d_big });
    }
    proof {
        assert forall|i: int| 0 <= i < out@.len() implies frac_eq(
            #[trigger] out@[i]@,
            affine(
                frac_int(val@[i] as int),
                frac_int(seq_min(val@)),
                frac_int(seq_max(val@)),
                a@,
                b@,
            ),
        ) by {
            lemma_scale_num_affine(val@[i] as int, seq_min(val@), seq_max(val@), a@, b@);
        }
    }
    Ok(out)
}

/// Every product that [`scale_min_max`] forms from bounded inputs fits the
/// machine integers, and the shared denominator is positive.
proof fn lemma_scale_products_fit(an: int, ad: int, bn: int, bd: int, lo: int, hi: int, x: int)
    by (nonlinear_arith)
    requires
        -(SCALE_BOUND as int) <= an <= SCALE_BOUND as int,
        1 <= ad <= SCALE_BOUND as int,
        -(SCALE_BOUND as int) <= bn <= SCALE_BOUND as int,
        1 <= bd <= SCALE_BOUND as int,
        -(ELEM_BOUND as int) <= lo <= ELEM_BOUND as int,
        -(ELEM_BOUND as int) <= hi <= ELEM_BOUND as int,
        lo < hi,
        lo <= x <= hi,
    ensures
        i128::MIN as int <= bn * ad <= i128::MAX as int,
        i128::MIN as int <= an * bd <= i128::MAX as int,
        i128::MIN as int <= bn * ad - an * bd <= i128::MAX as int,
        i128::MIN as int <= ad * bd <= i128::MAX as int,
        1 <= (ad * bd) * (hi - lo) <= i128::MAX as int,
        i128::MIN as int <= (an * bd) * (hi - lo) <= i128::MAX as int,
        i128::MIN as int <= (x - lo) * (bn * ad - an * bd) <= i128::MAX as int,
        i128::MIN as int <= (an * bd) * (hi - lo) + (x - lo) * (bn * ad - an * bd)
            <= i128::MAX as int,
{
}

/// The cleared fraction [`scale_num`] over [`scale_den`] is exactly the
/// value of the affine map on the integer element `x`.
proof fn lemma_scale_num_affine(x: int, lo: int, hi: int, a: Frac, b: Frac)
    ensures
        frac_eq(
            Frac { n: scale_num(x, lo, hi, a, b), d: scale_den(lo, hi, a, b) },
            affine(frac_int(x), frac_int(lo), frac_int(hi), a, b),
        ),
{
    let s = frac_sub(frac_int(x), frac_int(lo));
    let t = frac_sub(b, a);
    let h = frac_sub(frac_int(hi), frac_int(lo));
    let r = affine(frac_int(x), frac_int(lo), frac_int(hi), a, b);
    assert(r.n == a.n * ((s.d * t.d) * h.n) + ((s.n * t.n) * h.d) * a.d);
    assert(r.d == a.d * ((s.d * t.d) * h.n));
    let u = (a.n * b.d) * h.n + s.n * t.n;
    assert(a.n * ((s.d * t.d) * h.n) == ((a.n * b.d) * h.n) * a.d) by (nonlinear_arith)
        requires
            s.d == 1,
            t.d == b.d * a.d,
    ;
    assert(u * a.d == ((a.n * b.d) * h.n) * a.d + (s.n * t.n) * a.d) by (nonlinear_arith)
        requires
            u == (a.n * b.d) * h.n + s.n * t.n,
    ;
    assert(r.n == u * a.d);
    assert(r.d == ((a.d * b.d) * h.n) * a.d) by (nonlinear_arith)
        requires
            r.d == a.d * ((s.d * t.d) * h.n),
            s.d == 1,
            t.d == b.d * a.d,
    ;
    assert(scale_num(x, lo, hi, a, b) == u);
    assert(scale_den(lo, hi, a, b) == (a.d * b.d) * h.n);
    assert(u * (((a.d * b.d) * h.n) * a.d) == (u * a.d) * ((a.d * b.d) * h.n))
        by (nonlinear_arith);
    assert(scale_num(x, lo, hi, a, b) * r.d == r.n * scale_den(lo, hi, a, b));
}

/// The greatest element bounds the series from above and is attained.
proof fn lemma_seq_max_props(s: Seq<i64>)
    requires
        s.len() >= 1,
    ensures
        forall|i: int| 0 <= i < s.len() ==> #[trigger] s[i] <= seq_max(s),
        exists|i: int| 0 <= i < s.len() && #[trigger] s[i] == seq_max(s),
    decreases s.len(),
{
    if s.len() == 1 {
        assert(s[0] == seq_max(s));
    } else {
        let t = s.drop_last();
        lemma_seq_max_props(t);
        assert forall|i: int| 0 <= i < s.len() implies #[trigger] s[i] <= seq_max(s) by {
            if i < s.len() - 1 {
                assert(s[i] == t[i]);
            }
        }
        let j = choose|j: int| 0 <= j < t.len() && #[trigger] t[j] == seq_max(t);
        if s.last() > seq_max(t) {
            assert(s[s.len() - 1] == seq_max(s));
        } else {
            assert(s[j] == seq_max(s));
        }
    }
}

/// The least element bounds the series from below and is attained.
proof fn lemma_seq_min_props(s: Seq<i64>)
    requires
        s.len() >= 1,
    ensures
        forall|i: int| 0 <= i < s.len() ==> seq_min(s) <= #[trigger] s[i],
        exists|i: int| 0 <= i < s.len() && #[trigger] s[i] == seq_min(s),
    decreases s.len(),
{
    if s.len() == 1 {
        assert(s[0] == seq_min(s));
    } else {
        let t = s.drop_last();
        lemma_seq_min_props(t);
        assert forall|i: int| 0 <= i < s.len() implies seq_min(s) <= #[trigger] s[i] by {
            if i < s.len() - 1 {
                assert(s[i] == t[i]);
            }
        }
        let j = choose|j: int| 0 <= j < t.len() && #[trigger] t[j] == seq_min(t);
        if s.last() < seq_min(t) {
            assert(s[s.len() - 1] == seq_min(s));
        } else {
            assert(s[j] == seq_min(s));
        }
    }
}

/// The sum of a non-empty series lies between its length times its least
/// element and its length times its greatest element.
proof fn lemma_sum_between_extremes(s: Seq<i64>)
    requires
        s.len() >= 1,
    ensures
        (s.len() as int) * seq_min(s) <= sum_of(s),
        sum_of(s) <= (s.len() as int) * seq_max(s),
    decreases s.len(),
{
    if s.len() == 1 {
        assert(sum_of(s.drop_last()) == 0);
        assert(sum_of(s) == s[0]);
    } else {
        let t = s.drop_last();
        lemma_sum_between_extremes(t);
        assert(sum_of(s) == sum_of(t) + s[s.len() - 1]);
        lemma_seq_max_props(s);
        lemma_seq_min_props(s);
        assert((t.len() as int) * seq_min(t) >= (t.len() as int) * seq_min(s))
            by (nonlinear_arith)
            requires
                seq_min(t) >= seq_min(s),
                t.len() >= 0,
        ;
        assert((t.len() as int) * seq_max(t) <= (t.len() as int) * seq_max(s))
            by (nonlinear_arith)
            requires
                seq_max(t) <= seq_max(s),
                t.len() >= 0,
        ;
        assert((s.len() as int) * seq_min(s) == (t.len() as int) * seq_min(s) + seq_min(s))
            by (nonlinear_arith)
            requires
                s.len() == t.len() + 1,
        ;
        assert((s.len() as int) * seq_max(s) == (t.len() as int) * seq_max(s) + seq_max(s))
            by (nonlinear_arith)
            requires
                s.len() == t.len() + 1,
        ;
        assert(seq_min(s) <= s[s.len() - 1] && s[s.len() - 1] <= seq_max(s));
    }
}

/// For all non-empty series: `min(S) <= mean(S) <= max(S)`, the mean
/// being the exact rational `sum(S) / len(S)`.
pub proof fn lemma_mean_between_min_and_max(s: Seq<i64>)
    requires
        s.len() >= 1,
    ensures
        frac_le(frac_int(seq_min(s)), Frac { n: sum_of(s), d: s.len() as int }),
        frac_le(Frac { n: sum_of(s), d: s.len() as int }, frac_int(seq_max(s))),
{
    lemma_sum_between_extremes(s);
    let m = Frac { n: sum_of(s), d: s.len() as int };
    lemma_frac_le_pos(frac_int(seq_min(s)), m);
    lemma_frac_le_pos(m, frac_int(seq_max(s)));
    assert(seq_min(s) * (s.len() as int) <= sum_of(s) * 1 && sum_of(s) * 1 <= seq_max(s) * (
    s.len() as int)) by (nonlinear_arith)
        requires
            (s.len() as int) * seq_min(s) <= sum_of(s),
            sum_of(s) <= (s.len() as int) * seq_max(s),
    ;
}

/// Sum of the squared deviations of the elements from the value `y`.
spec fn sum_sq_dev(s: Seq<i64>, y: int) -> int
    decreases s.len(),
{
    if s.len() == 0 {
        0
    } else {
        sum_sq_dev(s.drop_last(), y) + (s.last() - y) * (s.last() - y)
    }
}

/// The squared deviations from `y`, expanded: `sum(x^2) - 2y*sum(x) + n*y^2`.
proof fn lemma_sum_sq_dev_expand(s: Seq<i64>, y: int)
    ensures
        sum_sq_dev(s, y) == sum_sq(s) - 2 * y * sum_of(s) + (s.len() as int) * (y * y),
    decreases s.len(),
{
    if s.len() == 0 {
    } else {
        let t = s.drop_last();
        lemma_sum_sq_dev_expand(t, y);
        let l = s.last() as int;
        assert(sum_sq_dev(s, y) == sum_sq_dev(t, y) + (l - y) * (l - y));
        assert(sum_sq(s) == sum_sq(t) + l * l);
        assert(sum_of(s) == sum_of(t) + l);
        assert(sum_sq_dev(t, y) + (l - y) * (l - y) == sum_sq(t) + l * l - 2 * y * (sum_of(t)
            + l) + ((t.len() as int) + 1) * (y * y)) by (nonlinear_arith)
            requires
                sum_sq_dev(t, y) == sum_sq(t) - 2 * y * sum_of(t) + (t.len() as int) * (y * y),
        ;
        assert(2 * y * (sum_of(t) + l) == 2 * y * sum_of(s)) by (nonlinear_arith)
            requires
                sum_of(s) == sum_of(t) + l,
        ;
        assert(((t.len() as int) + 1) * (y * y) == (s.len() as int) * (y * y))
            by (nonlinear_arith)
            requires
                s.len() == t.len() + 1,
        ;
    }
}

/// A sum of squared deviations is non-negative, and zero exactly when
/// every element equals `y`.
proof fn lemma_sum_sq_dev_nonneg(s: Seq<i64>, y: int)
    ensures
        sum_sq_dev(s, y) >= 0,
        sum_sq_dev(s, y) == 0 <==> (forall|i: int| 0 <= i < s.len() ==> #[trigger] s[i] == y),
    decreases s.len(),
{
    if s.len() == 0 {
    } else {
        let t = s.drop_last();
        lemma_sum_sq_dev_nonneg(t, y);
        let l = s.last() as int;
        assert((l - y) * (l - y) >= 0 && ((l - y) * (l - y) == 0 <==> l == y))
            by (nonlinear_arith);
        assert(sum_sq_dev(s, y) == sum_sq_dev(t, y) + (l - y) * (l - y));
        if sum_sq_dev(s, y) == 0 {
            assert(sum_sq_dev(t, y) == 0 && l == y);
            assert forall|i: int| 0 <= i < s.len() implies #[trigger] s[i] == y by {
                if i < s.len() - 1 {
                    assert(s[i] == t[i]);
                }
            }
        }
        if forall|i: int| 0 <= i < s.len() ==> #[trigger] s[i] == y {
            assert forall|i: int| 0 <= i < t.len() implies #[trigger] t[i] == y by {
                assert(t[i] == s[i]);
            }
            assert(l == y);
            assert(sum_sq_dev(t, y) == 0);
        }
    }
}

/// For all non-empty series: the variance numerator
/// `n * sum(x^2) - sum(x)^2` is non-negative, and it is zero exactly when
/// all elements of the series are equal. The population standard
/// deviation is the square root of this quantity over `n^2`, so it too is
/// non-negative and zero exactly for a constant series.
pub proof fn lemma_variance_nonneg(s: Seq<i64>)
    requires
        s.len() >= 1,
    ensures
        var_n(s) >= 0,
        var_n(s) == 0 <==> all_equal(s),
    decreases s.len(),
{
    if s.len() == 1 {
        assert(sum_of(s.drop_last()) == 0);
        assert(sum_sq(s.drop_last()) == 0);
        assert(sum_of(s) == s[0]);
        assert(sum_sq(s) == s[0] * s[0]);
        assert(var_n(s) == 1 * (s[0] * s[0]) - (s[0] as int) * (s[0] as int));
        assert(all_equal(s));
    } else {
        let t = s.drop_last();
        let l = s.last() as int;
        lemma_variance_nonneg(t);
        lemma_sum_sq_dev_expand(t, l);
        lemma_sum_sq_dev_nonneg(t, l);
        assert(sum_of(s) == sum_of(t) + l);
        assert(sum_sq(s) == sum_sq(t) + l * l);
        assert(var_n(s) == var_n(t) + sum_sq_dev(t, l)) by (nonlinear_arith)
            requires
                s.len() == t.len() + 1,
                sum_of(s) == sum_of(t) + l,
                sum_sq(s) == sum_sq(t) + l * l,
                var_n(s) == (s.len() as int) * sum_sq(s) - sum_of(s) * sum_of(s),
                var_n(t) == (t.len() as int) * sum_sq(t) - sum_of(t) * sum_of(t),
                sum_sq_dev(t, l) == sum_sq(t) - 2 * l * sum_of(t) + (t.len() as int) * (l * l),
        ;
        if var_n(s) == 0 {
            assert(var_n(t) == 0 && sum_sq_dev(t, l) == 0);
            assert forall|i: int| 0 <= i < s.len() implies #[trigger] s[i] == l by {
                if i < s.len() - 1 {
                    assert(s[i] == t[i]);
                }
            }
            assert(all_equal(s));
        }
        if all_equal(s) {
            assert forall|i: int| 0 <= i < t.len() implies #[trigger] t[i] == l by {
                assert(t[i] == s[i]);
                assert(s[i] == s[s.len() - 1]);
            }
            assert(sum_sq_dev(t, l) == 0);
            assert(all_equal(t));
            assert(var_n(t) == 0);
            assert(var_n(s) == 0);
        }
    }
}

/// The pairwise products of a series with itself are its squares.
proof fn lemma_sum_prod_self(s: Seq<i64>)
    ensures
        sum_prod(s, s) == sum_sq(s),
    decreases s.len(),
{
    if s.len() > 0 {
        lemma_sum_prod_self(s.drop_last());
    }
}

/// Self-correlation: over the pair `(X, X)` the covariance numerator
/// equals both variance numerators, and for a non-constant series it is
/// positive — so the Pearson coefficient, `cov / sqrt(var_x * var_y)`,
/// of a non-constant series with itself is exactly one.
pub proof fn lemma_pearson_self(s: Seq<i64>)
    requires
        s.len() >= 1,
    ensures
        cov_n(s, s) == var_n(s),
        !all_equal(s) ==> var_n(s) > 0,
{
    lemma_sum_prod_self(s);
    lemma_variance_nonneg(s);
}

/// Sum of the squares of the shifted elements `m*x - c`.
spec fn sum_sq_shift(s: Seq<i64>, m: int, c: int) -> int
    decreases s.len(),
{
    if s.len() == 0 {
        0
    } else {
        sum_sq_shift(s.drop_last(), m, c) + (m * s.last() - c) * (m * s.last() - c)
    }
}

/// Sum of the pairwise products of two equally shifted series.
spec fn sum_prod_shift(x: Seq<i64>, y: Seq<i64>, m: int, cx: int, cy: int) -> int
    decreases x.len(),
{
    if x.len() == 0 {
        0
    } else {
        sum_prod_shift(x.drop_last(), y.drop_last(), m, cx, cy) + (m * x.last() - cx) * (m
            * y.last() - cy)
    }
}

/// The shifted squares, expanded over the plain sums.
proof fn lemma_sum_sq_shift_expand(s: Seq<i64>, m: int, c: int)
    ensures
        sum_sq_shift(s, m, c) == (m * m) * sum_sq(s) - 2 * (m * c) * sum_of(s) + (
        s.len() as int) * (c * c),
    decreases s.len(),
{
    if s.len() == 0 {
    } else {
        let t = s.drop_last();
        lemma_sum_sq_shift_expand(t, m, c);
        let l = s.last() as int;
        assert(sum_sq_shift(s, m, c) == sum_sq_shift(t, m, c) + (m * l - c) * (m * l - c));
        assert(sum_sq(s) == sum_sq(t) + l * l);
        assert(sum_of(s) == sum_of(t) + l);
        assert((m * l - c) * (m * l - c) == (m * m) * (l * l) - 2 * (m * c) * l + c * c)
            by (nonlinear_arith);
        assert((m * m) * sum_sq(s) == (m * m) * sum_sq(t) + (m * m) * (l * l))
            by (nonlinear_arith)
            requires
                sum_sq(s) == sum_sq(t) + l * l,
        ;
        assert(2 * (m * c) * sum_of(s) == 2 * (m * c) * sum_of(t) + 2 * (m * c) * l)
            by (nonlinear_arith)
            requires
                sum_of(s) == sum_of(t) + l,
        ;
        assert((s.len() as int) * (c * c) == (t.len() as int) * (c * c) + c * c)
            by (nonlinear_arith)
            requires
                s.len() == t.len() + 1,
        ;
    }
}

/// The shifted products, expanded over the plain sums.
proof fn lemma_sum_prod_shift_expand(x: Seq<i64>, y: Seq<i64>, m: int, cx: int, cy: int)
    requires
        x.len() == y.len(),
    ensures
        sum_prod_shift(x, y, m, cx, cy) == (m * m) * sum_prod(x, y) - (m * cy) * sum_of(x) - (m
            * cx) * sum_of(y) + (x.len() as int) * (cx * cy),
    decreases x.len(),
{
    if x.len() == 0 {
    } else {
        let tx = x.drop_last();
        let ty = y.drop_last();
        lemma_sum_prod_shift_expand(tx, ty, m, cx, cy);
        let lx = x.last() as int;
        let ly = y.last() as int;
        assert(sum_prod_shift(x, y, m, cx, cy) == sum_prod_shift(tx, ty, m, cx, cy) + (m * lx
            - cx) * (m * ly - cy));
        assert(sum_prod(x, y) == sum_prod(tx, ty) + lx * ly);
        assert(sum_of(x) == sum_of(tx) + lx);
        assert(sum_of(y) == sum_of(ty) + ly);
        let dx = m * lx - cx;
        let dy = m * ly - cy;
        assert(dx * dy == (m * lx) * (m * ly) - (m * lx) * cy - cx * (m * ly) + cx * cy)
            by (nonlinear_arith)
            requires
                dx == m * lx - cx,
                dy == m * ly - cy,
        ;
        assert((m * lx) * (m * ly) == (m * m) * (lx * ly)) by (nonlinear_arith);
        assert((m * lx) * cy == (m * cy) * lx) by (nonlinear_arith);
        assert(cx * (m * ly) == (m * cx) * ly) by (nonlinear_arith);
        assert((m * m) * sum_prod(x, y) == (m * m) * sum_prod(tx, ty) + (m * m) * (lx * ly))
            by (nonlinear_arith)
            requires
                sum_prod(x, y) == sum_prod(tx, ty) + lx * ly,
        ;
        assert((m * cy) * sum_of(x) == (m * cy) * sum_of(tx) + (m * cy) * lx)
            by (nonlinear_arith)
            requires
                sum_of(x) == sum_of(tx) + lx,
        ;
        assert((m * cx) * sum_of(y) == (m * cx) * sum_of(ty) + (m * cx) * ly)
            by (nonlinear_arith)
            requires
                sum_of(y) == sum_of(ty) + ly,
        ;
        assert((x.len() as int) * (cx * cy) == (tx.len() as int) * (cx * cy) + cx * cy)
            by (nonlinear_arith)
            requires
                x.len() == tx.len() + 1,
        ;
    }
}

/// A sum of shifted squares is non-negative.
proof fn lemma_sum_sq_shift_nonneg(s: Seq<i64>, m: int, c: int)
    ensures
        sum_sq_shift(s, m, c) >= 0,
    decreases s.len(),
{
    if s.len() > 0 {
        lemma_sum_sq_shift_nonneg(s.drop_last(), m, c);
        let l = s.last() as int;
        assert((m * l - c) * (m * l - c) >= 0) by (nonlinear_arith);
    }
}

/// One inductive step of the Cauchy-Schwarz inequality: extending both
/// sides by one pair of elements preserves it.
proof fn lemma_cs_step(big_a: int, big_b: int, p: int, a: int, b: int)
    requires
        big_a >= 0,
        big_b >= 0,
        p * p <= big_a * big_b,
    ensures
        (p + a * b) * (p + a * b) <= (big_a + a * a) * (big_b + b * b),
{
    let u = big_a * (b * b);
    let v = big_b * (a * a);
    assert(u >= 0 && v >= 0) by (nonlinear_arith)
        requires
            big_a >= 0,
            big_b >= 0,
            u == big_a * (b * b),
            v == big_b * (a * a),
    ;
    assert((u + v) * (u + v) == 4 * (u * v) + (u - v) * (u - v)) by (nonlinear_arith);
    assert((u - v) * (u - v) >= 0) by (nonlinear_arith);
    assert(u * v == (big_a * big_b) * ((a * b) * (a * b))) by (nonlinear_arith)
        requires
            u == big_a * (b * b),
            v == big_b * (a * a),
    ;
    assert((big_a * big_b) * ((a * b) * (a * b)) >= (p * p) * ((a * b) * (a * b)))
        by (nonlinear_arith)
        requires
            p * p <= big_a * big_b,
    ;
    assert(4 * ((p * p) * ((a * b) * (a * b))) == (2 * (p * (a * b))) * (2 * (p * (a * b))))
        by (nonlinear_arith);
    assert((u + v) * (u + v) >= (2 * (p * (a * b))) * (2 * (p * (a * b))));
    assert(u + v >= 2 * (p * (a * b))) by (nonlinear_arith)
        requires
            (u + v) * (u + v) >= (2 * (p * (a * b))) * (2 * (p * (a * b))),
            u + v >= 0,
    ;
    assert((p + a * b) * (p + a * b) == p * p + 2 * (p * (a * b)) + (a * b) * (a * b))
        by (nonlinear_arith);
    assert((big_a + a * a) * (big_b + b * b) == big_a * big_b + u + v + (a * a) * (b * b))
        by (nonlinear_arith)
        requires
            u == big_a * (b * b),
            v == big_b * (a * a),
    ;
    assert((a * b) * (a * b) == (a * a) * (b * b)) by (nonlinear_arith);
}

/// Cauchy-Schwarz over two equally shifted series.
proof fn lemma_cs_shift(x: Seq<i64>, y: Seq<i64>, m: int, cx: int, cy: int)
    requires
        x.len() == y.len(),
    ensures
        sum_prod_shift(x, y, m, cx, cy) * sum_prod_shift(x, y, m, cx, cy) <= sum_sq_shift(
            x,
            m,
            cx,
        ) * sum_sq_shift(y, m, cy),
    decreases x.len(),
{
    if x.len() == 0 {
    } else {
        let tx = x.drop_last();
        let ty = y.drop_last();
        lemma_cs_shift(tx, ty, m, cx, cy);
        lemma_sum_sq_shift_nonneg(tx, m, cx);
        lemma_sum_sq_shift_nonneg(ty, m, cy);
        lemma_cs_step(
            sum_sq_shift(tx, m, cx),
            sum_sq_shift(ty, m, cy),
            sum_prod_shift(tx, ty, m, cx, cy),
            m * (x.last() as int) - cx,
            m * (y.last() as int) - cy,
        );
    }
}

/// The Cauchy-Schwarz bound on the Pearson terms:
/// `cov^2 <= var_x * var_y`, so the coefficient
/// `cov / sqrt(var_x * var_y)` of two non-constant series lies in
/// `[-1, 1]`.
pub proof fn lemma_pearson_bounded(x: Seq<i64>, y: Seq<i64>)
    requires
        x.len() == y.len(),
        x.len() >= 1,
    ensures
        cov_n(x, y) * cov_n(x, y) <= var_n(x) * var_n(y),
{
    let n = x.len() as int;
    let sx = sum_of(x);
    let sy = sum_of(y);
    lemma_cs_shift(x, y, n, sx, sy);
    lemma_sum_sq_shift_expand(x, n, sx);
    lemma_sum_sq_shift_expand(y, n, sy);
    lemma_sum_prod_shift_expand(x, y, n, sx, sy);
    assert(sum_sq_shift(x, n, sx) == n * var_n(x)) by (nonlinear_arith)
        requires
            sum_sq_shift(x, n, sx) == (n * n) * sum_sq(x) - 2 * (n * sx) * sum_of(x) + n * (sx
                * sx),
            sx == sum_of(x),
            var_n(x) == n * sum_sq(x) - sum_of(x) * sum_of(x),
    ;
    assert(sum_sq_shift(y, n, sy) == n * var_n(y)) by (nonlinear_arith)
        requires
            sum_sq_shift(y, n, sy) == (n * n) * sum_sq(y) - 2 * (n * sy) * sum_of(y) + n * (sy
                * sy),
            sy == sum_of(y),
            var_n(y) == n * sum_sq(y) - sum_of(y) * sum_of(y),
    ;
    assert(sum_prod_shift(x, y, n, sx, sy) == n * cov_n(x, y)) by (nonlinear_arith)
        requires
            sum_prod_shift(x, y, n, sx, sy) == (n * n) * sum_prod(x, y) - (n * sy) * sum_of(x)
                - (n * sx) * sum_of(y) + n * (sx * sy),
            sx == sum_of(x),
            sy == sum_of(y),
            cov_n(x, y) == n * sum_prod(x, y) - sum_of(x) * sum_of(y),
    ;
    assert(cov_n(x, y) * cov_n(x, y) <= var_n(x) * var_n(y)) by (nonlinear_arith)
        requires
            (n * cov_n(x, y)) * (n * cov_n(x, y)) <= (n * var_n(x)) * (n * var_n(y)),
            n >= 1,
    ;
}

/// Min-max scaling is idempotent on an increasing target interval: after
/// scaling a non-constant series to `[a, b]` with `a < b`, every scaled
/// value lies in `[a, b]`, the values `a` and `b` are both attained — so
/// they are the minimum and maximum of the scaled series — and the
/// affine map of `[a, b]` onto `[a, b]` leaves every scaled value
/// unchanged: a second scaling with the same `(a, b)` returns the same
/// series. (With a decreasing target, `b < a`, a second scaling instead
/// reverses the series, so the requirement `a < b` cannot be dropped.)
pub proof fn lemma_scale_min_max_idempotent(s: Seq<i64>, a: Frac, b: Frac)
    requires
        s.len() >= 1,
        seq_min(s) < seq_max(s),
        a.d >= 1,
        b.d >= 1,
        frac_lt(a, b),
    ensures
        forall|i: int|
            0 <= i < s.len() ==> frac_le(a, #[trigger] scaled_value(s, i, a, b)) && frac_le(
                scaled_value(s, i, a, b),
                b,
            ),
        exists|i: int| 0 <= i < s.len() && frac_eq(#[trigger] scaled_value(s, i, a, b), a),
        exists|i: int| 0 <= i < s.len() && frac_eq(#[trigger] scaled_value(s, i, a, b), b),
        forall|i: int|
            0 <= i < s.len() ==> frac_eq(
                affine(#[trigger] scaled_value(s, i, a, b), a, b, a, b),
                scaled_value(s, i, a, b),
            ),
{
    let lo = seq_min(s);
    let hi = seq_max(s);
    let t1 = b.n * a.d - a.n * b.d;
    let d = scale_den(lo, hi, a, b);
    lemma_seq_min_props(s);
    lemma_seq_max_props(s);
    lemma_frac_le_pos(a, b);
    assert(t1 >= 1);
    assert(d >= 1) by (nonlinear_arith)
        requires
            a.d >= 1,
            b.d >= 1,
            hi - lo >= 1,
            d == (a.d * b.d) * (hi - lo),
    ;
    assert forall|i: int|
        0 <= i < s.len() implies frac_le(a, #[trigger] scaled_value(s, i, a, b)) && frac_le(
        scaled_value(s, i, a, b),
        b,
    ) by {
        let x = s[i] as int;
        let y = scaled_value(s, i, a, b);
        lemma_frac_le_pos(a, y);
        lemma_frac_le_pos(y, b);
        assert(a.n * d <= y.n * a.d) by (nonlinear_arith)
            requires
                d == (a.d * b.d) * (hi - lo),
                y.n == (a.n * b.d) * (hi - lo) + (x - lo) * t1,
                x >= lo,
                t1 >= 1,
                a.d >= 1,
        ;
        assert(y.n * b.d <= b.n * d) by (nonlinear_arith)
            requires
                d == (a.d * b.d) * (hi - lo),
                y.n == (a.n * b.d) * (hi - lo) + (x - lo) * t1,
                t1 == b.n * a.d - a.n * b.d,
                x <= hi,
                t1 >= 1,
                b.d >= 1,
        ;
    }
    let imin = choose|i: int| 0 <= i < s.len() && #[trigger] s[i] == seq_min(s);
    let ymin = scaled_value(s, imin, a, b);
    assert(ymin.n * a.d == a.n * d) by (nonlinear_arith)
        requires
            d == (a.d * b.d) * (hi - lo),
            ymin.n == (a.n * b.d) * (hi - lo) + (lo - lo) * t1,
    ;
    assert(frac_eq(ymin, a));
    let imax = choose|i: int| 0 <= i < s.len() && #[trigger] s[i] == seq_max(s);
    let ymax = scaled_value(s, imax, a, b);
    assert(ymax.n * b.d == b.n * d) by (nonlinear_arith)
        requires
            d == (a.d * b.d) * (hi - lo),
            ymax.n == (a.n * b.d) * (hi - lo) + (hi - lo) * t1,
            t1 == b.n * a.d - a.n * b.d,
    ;
    assert(frac_eq(ymax, b));
    assert forall|i: int|
        0 <= i < s.len() implies frac_eq(
        affine(#[trigger] scaled_value(s, i, a, b), a, b, a, b),
        scaled_value(s, i, a, b),
    ) by {
        lemma_affine_rescale(scaled_value(s, i, a, b), a, b);
    }
}

} // verus!
