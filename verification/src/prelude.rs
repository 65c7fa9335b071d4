//! The descriptive statistics layer: mean, variance, covariance and
//! standard deviation, as pure functions over exact rational series.
//!
//! A [`Series`] holds its values as integer numerators over one shared
//! positive scale denominator, so every value is the exact rational
//! `nums[i] / den`. The empty-series edge of mean and variance (0 / 0 in
//! exact arithmetic) is excluded by precondition throughout: this library
//! makes "at least one data point" a caller obligation rather than
//! producing an undefined value.

use vstd::prelude::*;

use crate::numbers::MAX_ABS;
use crate::numbers::MAX_LEN;
use crate::numbers::MEAN_BOUND;
use crate::numbers::Ratio;
use crate::numbers::SD_NUM_MAX;
use crate::numbers::SD_PRECISION;
use crate::numbers::isqrt;
use crate::numbers::lemma_sqrt_floor_brackets;
use crate::numbers::sqrt_floor;

verus! {

/// A finite series of exact rational values: `nums[i] / den` with a
/// shared positive scale denominator `den`.
#[derive(Debug)]
pub struct Series {
    pub nums: Vec<i128>,
    pub den: i128,
}

impl Series {
    /// A series is well formed when its scale denominator is positive.
    pub open spec fn wf(self) -> bool {
        1 <= self.den
    }

    /// All values and the scale are within the magnitude bounds that keep
    /// the statistics free of overflow.
    pub open spec fn bounded(self) -> bool {
        &&& self.den <= MAX_ABS
        &&& forall|i: int| 0 <= i < self.nums@.len() ==> -MAX_ABS <= #[trigger] self.nums@[i]
            <= MAX_ABS
    }

    pub fn new(nums: Vec<i128>, den: i128) -> (r: Series)
        requires
            1 <= den,
        ensures
            r.nums@ == nums@,
            r.den == den,
            r.wf(),
    {
        Series { nums, den }
    }

    pub fn len(&self) -> (n: usize)
        ensures
            n == self.nums@.len(),
    {
        self.nums.len()
    }
}

/// Sum of a sequence of integers.
pub open spec fn sum_ints(s: Seq<i128>) -> int
    decreases s.len(),
{
    if s.len() == 0 {
        0
    } else {
        sum_ints(s.drop_last()) + s.last()
    }
}

/// Sum of squared deviations against a given mean `mn / md`:
/// `sum_i (s[i] * md - mn * d)^2`, the numerator of the variance of the
/// series `s / d` over the common denominator `n * (d * md)^2`.
pub open spec fn sum_sq_devs(s: Seq<i128>, mn: int, md: int, d: int) -> int
    decreases s.len(),
{
    if s.len() == 0 {
        0
    } else {
        let t = s.last() * md - mn * d;
        sum_sq_devs(s.drop_last(), mn, md, d) + t * t
    }
}

/// Sum of cross deviations against given means `mxn / mxd` and `myn / myd`:
/// `sum_i (x[i] * mxd - mxn * dx) * (y[i] * myd - myn * dy)`, the numerator
/// of the covariance of `x / dx` and `y / dy` over the common denominator
/// `n * (dx * mxd) * (dy * myd)`.
pub open spec fn sum_cross(
    x: Seq<i128>,
    y: Seq<i128>,
    mxn: int,
    mxd: int,
    dx: int,
    myn: int,
    myd: int,
    dy: int,
) -> int
    decreases x.len(),
{
    if x.len() == 0 || y.len() == 0 {
        0
    } else {
        let t = (x.last() * mxd - mxn * dx) * (y.last() * myd - myn * dy);
        sum_cross(x.drop_last(), y.drop_last(), mxn, mxd, dx, myn, myd, dy) + t
    }
}

/// # Arithmetic mean
///
/// Returns the exact rational `sum(nums) / (n * den)`: the sum of the
/// series' values divided by how many there are.
pub fn mean(series: &Series) -> (r: Ratio)
    requires
        series.wf(),
        series.bounded(),
        1 <= series.nums@.len() <= MAX_LEN,
    ensures
        r.num == sum_ints(series.nums@),
        r.den == series.nums@.len() * series.den,
        r.wf(),
        -MEAN_BOUND <= r.num <= MEAN_BOUND,
        1 <= r.den <= MEAN_BOUND,
{
    let n: usize = series.nums.len();
    let mut i: usize = 0;
    let mut acc: i128 = 0;
    while i < n
        invariant
            0 <= i <= n,
            n == series.nums@.len(),
            1 <= n <= MAX_LEN,
            series.bounded(),
            acc == sum_ints(series.nums@.take(i as int)),
            -(i as int) * MAX_ABS <= acc <= (i as int) * MAX_ABS,
        decreases n - i,
    {
        let x: i128 = series.nums[i];
        proof {
            assert(series.nums@.take(i + 1).drop_last() =~= series.nums@.take(i as int));
            assert(series.nums@.take(i + 1).last() == series.nums@[i as int]);
        }
        acc = acc + x;
        i = i + 1;
    }
    proof {
        assert(series.nums@.take(n as int) =~= series.nums@);
        assert((n as int) * (series.den as int) <= 1024 * MAX_ABS) by (nonlinear_arith)
            requires
                1 <= n <= 1024,
                1 <= series.den <= MAX_ABS,
        ;
        assert((n as int) * (series.den as int) >= 1) by (nonlinear_arith)
            requires
                1 <= n,
                1 <= series.den,
        ;
    }
    let den: i128 = (n as i128) * series.den;
    Ratio { num: acc, den }
}

/// The mean a statistic resolves to: the precomputed one when present
/// (used verbatim), else the series' own exact mean.
pub open spec fn resolved_mean(series: Series, pre: Option<Ratio>) -> (int, int) {
    match pre {
        Some(m) => (m.num as int, m.den as int),
        None => (sum_ints(series.nums@), series.nums@.len() * series.den),
    }
}

/// Numerator of the variance of `series` against the resolved mean.
pub open spec fn variance_num(series: Series, pre: Option<Ratio>) -> int {
    sum_sq_devs(series.nums@, resolved_mean(series, pre).0, resolved_mean(series, pre).1, series.den as int)
}

/// Denominator of the variance of `series` against the resolved mean.
pub open spec fn variance_den(series: Series, pre: Option<Ratio>) -> int {
    let md = resolved_mean(series, pre).1;
    series.nums@.len() * ((series.den * md) * (series.den * md))
}

/// A precomputed mean a statistic will accept: well formed and within the
/// bounds the series' own mean always meets.
pub open spec fn mean_in_bounds(m: Ratio) -> bool {
    &&& m.wf()
    &&& -MEAN_BOUND <= m.num <= MEAN_BOUND
    &&& m.den <= MEAN_BOUND
}

/// # Variance
///
/// The average of the squared deviations from the mean (population
/// variance, divisor `n`). With `pre_computed_mean` present that value is
/// used verbatim; otherwise the series' own exact mean is used. The result
/// is the exact rational
/// `sum_i (x[i] - m)^2 / n == sum_sq_devs(..) / (n * (den * md)^2)`.
pub fn variance(series: &Series, pre_computed_mean: Option<Ratio>) -> (r: Ratio)
    requires
        series.wf(),
        series.bounded(),
        1 <= series.nums@.len() <= MAX_LEN,
        pre_computed_mean matches Some(m) ==> mean_in_bounds(m),
    ensures
        r.num == variance_num(*series, pre_computed_mean),
        r.den == variance_den(*series, pre_computed_mean),
        0 <= r.num,
        r.wf(),
{
    let n: usize = series.nums.len();
    let (mn, md): (i128, i128) = match pre_computed_mean {
        Some(m) => (m.num, m.den),
        None => {
            let m = mean(series);
            (m.num, m.den)
        },
    };
    let d: i128 = series.den;
    let mut i: usize = 0;
    let mut acc: i128 = 0;
    while i < n
        invariant
            0 <= i <= n,
            n == series.nums@.len(),
            1 <= n <= MAX_LEN,
            series.wf(),
            series.bounded(),
            d == series.den,
            -MEAN_BOUND <= mn <= MEAN_BOUND,
            1 <= md <= MEAN_BOUND,
            acc == sum_sq_devs(series.nums@.take(i as int), mn as int, md as int, d as int),
            0 <= acc <= (i as int) * 20769187434139310514121985316880384,
        decreases n - i,
    {
        let x: i128 = series.nums[i];
        proof {
            assert(series.nums@.take(i + 1).drop_last() =~= series.nums@.take(i as int));
            assert(-72057594037927936 <= (x as int) * (md as int) <= 72057594037927936)
                by (nonlinear_arith)
                requires
                    -MAX_ABS <= x <= MAX_ABS,
                    1 <= md <= MEAN_BOUND,
            ;
            assert(-72057594037927936 <= (mn as int) * (d as int) <= 72057594037927936)
                by (nonlinear_arith)
                requires
                    -MEAN_BOUND <= mn <= MEAN_BOUND,
                    1 <= d <= MAX_ABS,
            ;
        }
        let t: i128 = x * md - mn * d;
        proof {
            assert(0 <= (t as int) * (t as int) <= 20769187434139310514121985316880384)
                by (nonlinear_arith)
                requires
                    -144115188075855872 <= t <= 144115188075855872,
            ;
        }
        acc = acc + t * t;
        i = i + 1;
    }
    proof {
        assert(series.nums@.take(n as int) =~= series.nums@);
        assert(1 <= (d as int) * (md as int) <= 72057594037927936) by (nonlinear_arith)
            requires
                1 <= d <= MAX_ABS,
                1 <= md <= MEAN_BOUND,
        ;
    }
    let e: i128 = d * md;
    proof {
        assert(1 <= (e as int) * (e as int) <= 5192296858534827628530496329220096)
            by (nonlinear_arith)
            requires
                1 <= e <= 72057594037927936,
        ;
        assert(1 <= (n as int) * ((e as int) * (e as int)) <= 5316911983139663491615228241121378304)
            by (nonlinear_arith)
            requires
                1 <= n <= MAX_LEN,
                1 <= (e as int) * (e as int) <= 5192296858534827628530496329220096,
        ;
    }
    let den: i128 = (n as i128) * (e * e);
    Ratio { num: acc, den }
}

/// Supplying a variance the exact mean of its series changes nothing: the
/// precomputed-mean path and the internal-mean path resolve to the same
/// exact rational.
pub proof fn lemma_variance_precomputed_mean_agrees(series: Series, m: Ratio)
    requires
        m.num == sum_ints(series.nums@),
        m.den == series.nums@.len() * series.den,
    ensures
        variance_num(series, None) == variance_num(series, Some(m)),
        variance_den(series, None) == variance_den(series, Some(m)),
{
}

/// Numerator of the covariance of `x` and `y` against the resolved means.
pub open spec fn covariance_num(x: Series, y: Series, pre: Option<(Ratio, Ratio)>) -> int {
    let mx = resolved_mean(x, pre_x(pre));
    let my = resolved_mean(y, pre_y(pre));
    sum_cross(x.nums@, y.nums@, mx.0, mx.1, x.den as int, my.0, my.1, y.den as int)
}

/// Denominator of the covariance of `x` and `y` against the resolved means.
pub open spec fn covariance_den(x: Series, y: Series, pre: Option<(Ratio, Ratio)>) -> int {
    let mxd = resolved_mean(x, pre_x(pre)).1;
    let myd = resolved_mean(y, pre_y(pre)).1;
    x.nums@.len() * ((x.den * mxd) * (y.den * myd))
}

/// First component of an optional precomputed mean pair.
pub open spec fn pre_x(pre: Option<(Ratio, Ratio)>) -> Option<Ratio> {
    match pre {
        Some(p) => Some(p.0),
        None => None,
    }
}

/// Second component of an optional precomputed mean pair.
pub open spec fn pre_y(pre: Option<(Ratio, Ratio)>) -> Option<Ratio> {
    match pre {
        Some(p) => Some(p.1),
        None => None,
    }
}

/// # Covariance
///
/// The average, over all positions, of the product of the two series'
/// deviations from their means (population covariance, divisor `n`). The
/// two series must pair up position by position, so they must have equal
/// length. With `pre_computed_mean` present the pair is used verbatim;
/// otherwise each series' own exact mean is used.
pub fn covariance(x: &Series, y: &Series, pre_computed_mean: Option<(Ratio, Ratio)>) -> (r: Ratio)
    requires
        x.wf(),
        y.wf(),
        x.bounded(),
        y.bounded(),
        x.nums@.len() == y.nums@.len(),
        1 <= x.nums@.len() <= MAX_LEN,
        pre_computed_mean matches Some(p) ==> mean_in_bounds(p.0) && mean_in_bounds(p.1),
    ensures
        r.num == covariance_num(*x, *y, pre_computed_mean),
        r.den == covariance_den(*x, *y, pre_computed_mean),
        r.wf(),
{
    let n: usize = x.nums.len();
    let (mxn, mxd): (i128, i128) = match &pre_computed_mean {
        Some(p) => (p.0.num, p.0.den),
        None => {
            let m = mean(x);
            (m.num, m.den)
        },
    };
    let (myn, myd): (i128, i128) = match &pre_computed_mean {
        Some(p) => (p.1.num, p.1.den),
        None => {
            let m = mean(y);
            (m.num, m.den)
        },
    };
    let dx: i128 = x.den;
    let dy: i128 = y.den;
    let mut i: usize = 0;
    let mut acc: i128 = 0;
    while i < n
        invariant
            0 <= i <= n,
            n == x.nums@.len(),
            n == y.nums@.len(),
            1 <= n <= MAX_LEN,
            x.wf(),
            y.wf(),
            x.bounded(),
            y.bounded(),
            dx == x.den,
            dy == y.den,
            -MEAN_BOUND <= mxn <= MEAN_BOUND,
            1 <= mxd <= MEAN_BOUND,
            -MEAN_BOUND <= myn <= MEAN_BOUND,
            1 <= myd <= MEAN_BOUND,
            acc == sum_cross(
                x.nums@.take(i as int),
                y.nums@.take(i as int),
                mxn as int,
                mxd as int,
                dx as int,
                myn as int,
                myd as int,
                dy as int,
            ),
            -(i as int) * 20769187434139310514121985316880384 <= acc <= (i as int)
                * 20769187434139310514121985316880384,
        decreases n - i,
    {
        let xv: i128 = x.nums[i];
        let yv: i128 = y.nums[i];
        proof {
            assert(x.nums@.take(i + 1).drop_last() =~= x.nums@.take(i as int));
            assert(y.nums@.take(i + 1).drop_last() =~= y.nums@.take(i as int));
            assert(-72057594037927936 <= (xv as int) * (mxd as int) <= 72057594037927936
                && -72057594037927936 <= (mxn as int) * (dx as int) <= 72057594037927936
                && -72057594037927936 <= (yv as int) * (myd as int) <= 72057594037927936
                && -72057594037927936 <= (myn as int) * (dy as int) <= 72057594037927936)
                by (nonlinear_arith)
                requires
                    -MAX_ABS <= xv <= MAX_ABS,
                    -MAX_ABS <= yv <= MAX_ABS,
                    1 <= mxd <= MEAN_BOUND,
                    1 <= myd <= MEAN_BOUND,
                    -MEAN_BOUND <= mxn <= MEAN_BOUND,
                    -MEAN_BOUND <= myn <= MEAN_BOUND,
                    1 <= dx <= MAX_ABS,
                    1 <= dy <= MAX_ABS,
            ;
        }
        let tx: i128 = xv * mxd - mxn * dx;
        let ty: i128 = yv * myd - myn * dy;
        proof {
            assert(-20769187434139310514121985316880384 <= (tx as int) * (ty as int)
                <= 20769187434139310514121985316880384) by (nonlinear_arith)
                requires
                    -144115188075855872 <= tx <= 144115188075855872,
                    -144115188075855872 <= ty <= 144115188075855872,
            ;
        }
        acc = acc + tx * ty;
        i = i + 1;
    }
    proof {
        assert(x.nums@.take(n as int) =~= x.nums@);
        assert(y.nums@.take(n as int) =~= y.nums@);
        assert(1 <= (dx as int) * (mxd as int) <= 72057594037927936 && 1 <= (dy as int) * (
        myd as int) <= 72057594037927936) by (nonlinear_arith)
            requires
                1 <= dx <= MAX_ABS,
                1 <= dy <= MAX_ABS,
                1 <= mxd <= MEAN_BOUND,
                1 <= myd <= MEAN_BOUND,
        ;
    }
    let ex: i128 = dx * mxd;
    let ey: i128 = dy * myd;
    proof {
        assert(1 <= (ex as int) * (ey as int) <= 5192296858534827628530496329220096)
            by (nonlinear_arith)
            requires
                1 <= ex <= 72057594037927936,
                1 <= ey <= 72057594037927936,
        ;
        assert(1 <= (n as int) * ((ex as int) * (ey as int))
            <= 5316911983139663491615228241121378304) by (nonlinear_arith)
            requires
                1 <= n <= MAX_LEN,
                1 <= (ex as int) * (ey as int) <= 5192296858534827628530496329220096,
        ;
    }
    let den: i128 = (n as i128) * (ex * ey);
    Ratio { num: acc, den }
}

/// Covariance is symmetric: swapping the two series (and the precomputed
/// mean pair with them) gives the same exact rational.
pub proof fn lemma_covariance_symmetric(x: Series, y: Series, pre: Option<(Ratio, Ratio)>)
    requires
        x.nums@.len() == y.nums@.len(),
    ensures
        covariance_num(x, y, pre) == covariance_num(y, x, swap_means(pre)),
        covariance_den(x, y, pre) == covariance_den(y, x, swap_means(pre)),
{
    let mx = resolved_mean(x, pre_x(pre));
    let my = resolved_mean(y, pre_y(pre));
    lemma_sum_cross_symmetric(
        x.nums@,
        y.nums@,
        mx.0,
        mx.1,
        x.den as int,
        my.0,
        my.1,
        y.den as int,
    );
    assert((x.den * mx.1) * (y.den * my.1) == (y.den * my.1) * (x.den * mx.1))
        by (nonlinear_arith);
}

/// The mean pair of the swapped series pair.
pub open spec fn swap_means(pre: Option<(Ratio, Ratio)>) -> Option<(Ratio, Ratio)> {
    match pre {
        Some(p) => Some((p.1, p.0)),
        None => None,
    }
}

proof fn lemma_sum_cross_symmetric(
    x: Seq<i128>,
    y: Seq<i128>,
    mxn: int,
    mxd: int,
    dx: int,
    myn: int,
    myd: int,
    dy: int,
)
    requires
        x.len() == y.len(),
    ensures
        sum_cross(x, y, mxn, mxd, dx, myn, myd, dy) == sum_cross(y, x, myn, myd, dy, mxn, mxd, dx),
    decreases x.len(),
{
    if x.len() > 0 {
        lemma_sum_cross_symmetric(x.drop_last(), y.drop_last(), mxn, mxd, dx, myn, myd, dy);
        assert((x.last() * mxd - mxn * dx) * (y.last() * myd - myn * dy) == (y.last() * myd - myn
            * dy) * (x.last() * mxd - mxn * dx)) by (nonlinear_arith);
    }
}

/// # Standard deviation
///
/// The non-negative square root of a variance, computed to the fixed
/// absolute precision `1 / SD_PRECISION` and depending only on the
/// variance's value, never on its representation: the result is
/// `floor(SD_PRECISION * sqrt(variance)) / SD_PRECISION`, pinned by the
/// bracketing `r^2 <= variance < (r + 1/SD_PRECISION)^2` (stated below
/// cross-multiplied over the positive denominators). It is monotone over
/// non-negative variances (see [`lemma_standard_deviation_monotone`]). A
/// negative variance has no real square root, so it is excluded by
/// precondition.
pub fn standard_deviation(variance: Ratio) -> (r: Ratio)
    requires
        variance.wf(),
        0 <= variance.num <= SD_NUM_MAX,
    ensures
        r.den == SD_PRECISION,
        r.num == sqrt_floor((((SD_PRECISION * SD_PRECISION) * variance.num) as int) / (variance.den as int)),
        0 <= r.num,
        r.wf(),
        (r.num * r.num) * variance.den <= (SD_PRECISION * SD_PRECISION) * variance.num,
        (SD_PRECISION * SD_PRECISION) * variance.num < ((r.num + 1) * (r.num + 1)) * variance.den,
{
    let ppe: i128 = SD_PRECISION * SD_PRECISION;
    proof {
        assert(0 <= (ppe as int) * (variance.num as int)
            <= 77371252455336267181195264000000000000) by (nonlinear_arith)
            requires
                0 <= variance.num <= SD_NUM_MAX,
                ppe == 1000000000000,
        ;
    }
    let pn: u128 = (ppe as u128) * (variance.num as u128);
    let wd: u128 = pn / (variance.den as u128);
    proof {
        vstd::arithmetic::div_mod::lemma_div_nonincreasing(pn as int, variance.den as int);
    }
    let wi: i128 = wd as i128;
    let t: i128 = isqrt(wi);
    proof {
        let a = (SD_PRECISION * SD_PRECISION) * (variance.num as int);
        let b = variance.den as int;
        vstd::arithmetic::div_mod::lemma_fundamental_div_mod(a, b);
        vstd::arithmetic::div_mod::lemma_mod_pos_bound(a, b);
        assert((t * t) * b <= a) by (nonlinear_arith)
            requires
                t * t <= a / b,
                a == b * (a / b) + a % b,
                0 <= a % b,
                1 <= b,
        ;
        assert(a < ((t + 1) * (t + 1)) * b) by (nonlinear_arith)
            requires
                a / b < (t + 1) * (t + 1),
                a == b * (a / b) + a % b,
                a % b < b,
                1 <= b,
        ;
    }
    Ratio { num: t, den: SD_PRECISION }
}

/// Floor division is monotone across denominators: if `a1 / b1 <= a2 / b2`
/// as rationals, the integer quotients are ordered the same way.
proof fn lemma_div_cross_mono(a1: int, b1: int, a2: int, b2: int)
    requires
        0 <= a1,
        1 <= b1,
        1 <= b2,
        a1 * b2 <= a2 * b1,
    ensures
        a1 / b1 <= a2 / b2,
{
    let q1 = a1 / b1;
    vstd::arithmetic::div_mod::lemma_fundamental_div_mod(a1, b1);
    vstd::arithmetic::div_mod::lemma_mod_pos_bound(a1, b1);
    assert(q1 * b2 <= a2) by (nonlinear_arith)
        requires
            a1 == b1 * q1 + a1 % b1,
            0 <= a1 % b1,
            a1 * b2 <= a2 * b1,
            1 <= b1,
            1 <= b2,
    ;
    assert(0 <= a2) by (nonlinear_arith)
        requires
            0 <= a1,
            1 <= b1,
            1 <= b2,
            a1 * b2 <= a2 * b1,
    ;
    vstd::arithmetic::div_mod::lemma_fundamental_div_mod(a2, b2);
    vstd::arithmetic::div_mod::lemma_mod_pos_bound(a2, b2);
    assert(q1 <= a2 / b2) by (nonlinear_arith)
        requires
            q1 * b2 <= a2,
            a2 == b2 * (a2 / b2) + a2 % b2,
            a2 % b2 < b2,
            1 <= b2,
    ;
}

/// Standard deviation is monotone over non-negative variances: a variance
/// no larger than another (as exact rational values, however represented)
/// never has a larger square root.
pub proof fn lemma_standard_deviation_monotone(v1: Ratio, v2: Ratio)
    requires
        v1.wf(),
        v2.wf(),
        0 <= v1.num,
        v1.num * v2.den <= v2.num * v1.den,
    ensures
        sqrt_floor((((SD_PRECISION * SD_PRECISION) * v1.num) as int) / (v1.den as int)) <= sqrt_floor(
            (((SD_PRECISION * SD_PRECISION) * v2.num) as int) / (v2.den as int),
        ),
{
    let pp = (SD_PRECISION * SD_PRECISION) as int;
    let a1 = pp * v1.num;
    let b1 = v1.den as int;
    let a2 = pp * v2.num;
    let b2 = v2.den as int;
    assert(0 <= a1 && a1 * b2 <= a2 * b1) by (nonlinear_arith)
        requires
            0 < pp,
            0 <= v1.num,
            v1.num * v2.den <= v2.num * v1.den,
            a1 == pp * v1.num,
            a2 == pp * v2.num,
            b1 == v1.den,
            b2 == v2.den,
    ;
    lemma_div_cross_mono(a1, b1, a2, b2);
    let w1 = a1 / b1;
    let w2 = a2 / b2;
    vstd::arithmetic::div_mod::lemma_div_pos_is_pos(a1, b1);
    lemma_sqrt_floor_brackets(w1);
    lemma_sqrt_floor_brackets(w2);
    let s1 = sqrt_floor(w1);
    let s2 = sqrt_floor(w2);
    assert(s1 <= s2) by (nonlinear_arith)
        requires
            0 <= s1,
            0 <= s2,
            s1 * s1 <= w1,
            w1 <= w2,
            w2 < (s2 + 1) * (s2 + 1),
    ;
}

/// Standard deviation is a function of the variance's value alone: two
/// representations of the same non-negative rational get the same root.
pub proof fn lemma_standard_deviation_value_independent(v1: Ratio, v2: Ratio)
    requires
        v1.wf(),
        v2.wf(),
        0 <= v1.num,
        v1.num * v2.den == v2.num * v1.den,
    ensures
        sqrt_floor((((SD_PRECISION * SD_PRECISION) * v1.num) as int) / (v1.den as int)) == sqrt_floor(
            (((SD_PRECISION * SD_PRECISION) * v2.num) as int) / (v2.den as int),
        ),
{
    assert(0 <= v2.num) by (nonlinear_arith)
        requires
            0 <= v1.num,
            1 <= v1.den,
            1 <= v2.den,
            v1.num * v2.den == v2.num * v1.den,
    ;
    lemma_standard_deviation_monotone(v1, v2);
    lemma_standard_deviation_monotone(v2, v1);
}

} // verus!
