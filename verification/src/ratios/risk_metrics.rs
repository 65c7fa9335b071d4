//! The risk metrics: the market risk coefficient Beta
//! (`covariance(series, market) / variance(market)`) and the
//! risk-adjusted-return Sharpe ratio
//! (`(portfolio return - risk-free rate) / standard deviation`),
//! both as exact rationals built on the statistics layer.

use vstd::prelude::*;

use crate::numbers::BETA_BOUND;
use crate::numbers::EPS_DEN;
use crate::numbers::MAX_ABS;
use crate::numbers::MAX_LEN;
use crate::numbers::MEAN_BOUND;
use crate::numbers::Ratio;
use crate::numbers::SD_PRECISION;
use crate::numbers::TOLERANCE_DEN;
use crate::numbers::abs_i;
use crate::numbers::isqrt;
use crate::numbers::lemma_div_common_factor;
use crate::numbers::rat_eq;
use crate::numbers::sqrt_floor;
use crate::prelude::Series;
use crate::prelude::covariance_den;
use crate::prelude::covariance_num;
use crate::prelude::mean;
use crate::prelude::sum_cross;
use crate::prelude::sum_ints;
use crate::prelude::sum_sq_devs;
use crate::prelude::variance_den;
use crate::prelude::variance_num;

verus! {

/// Sum of products of deviations scaled by the length:
/// `sum_i (x[i] * n - sx) * (y[i] * n - sy)`. With `sx`, `sy` the sums of
/// the two series and `n` their length, this is the covariance numerator
/// with the common scale factored out; with `y == x` it is the variance
/// numerator in the same factored form.
pub open spec fn sum_dev_prods(x: Seq<i128>, y: Seq<i128>, n: int, sx: int, sy: int) -> int
    decreases x.len(),
{
    if x.len() == 0 || y.len() == 0 {
        0
    } else {
        let t = (x.last() * n - sx) * (y.last() * n - sy);
        sum_dev_prods(x.drop_last(), y.drop_last(), n, sx, sy) + t
    }
}

/// A series is constant when all its values equal the first.
pub open spec fn is_constant(s: Seq<i128>) -> bool {
    forall|i: int| 0 <= i < s.len() ==> #[trigger] s[i] == s[0]
}

/// A sum of squared deviations is never negative.
pub proof fn lemma_sum_dev_sq_nonneg(x: Seq<i128>, n: int, sx: int)
    ensures
        0 <= sum_dev_prods(x, x, n, sx, sx),
    decreases x.len(),
{
    if x.len() > 0 {
        lemma_sum_dev_sq_nonneg(x.drop_last(), n, sx);
        assert(0 <= (x.last() * n - sx) * (x.last() * n - sx)) by (nonlinear_arith);
    }
}

/// A sum of squared deviations with one deviation not zero is positive.
proof fn lemma_sum_dev_sq_pos(x: Seq<i128>, n: int, sx: int, k: int)
    requires
        0 <= k < x.len(),
        x[k] * n - sx != 0,
    ensures
        1 <= sum_dev_prods(x, x, n, sx, sx),
    decreases x.len(),
{
    let t = x.last() * n - sx;
    if k == x.len() - 1 {
        lemma_sum_dev_sq_nonneg(x.drop_last(), n, sx);
        assert(1 <= t * t) by (nonlinear_arith)
            requires
                t != 0,
        ;
    } else {
        lemma_sum_dev_sq_pos(x.drop_last(), n, sx, k);
        assert(0 <= t * t) by (nonlinear_arith);
    }
}

/// Numerator of Beta, the factored exact form of
/// `covariance(series, market) / variance(market)` over internal means:
/// `market.den * sum_dev_prods(series, market)`.
pub open spec fn beta_num(s: Series, m: Series) -> int {
    m.den * sum_dev_prods(s.nums@, m.nums@, s.nums@.len() as int, sum_ints(s.nums@), sum_ints(m.nums@))
}

/// Denominator of Beta in the same factored form:
/// `series.den * sum_dev_prods(market, market)`.
pub open spec fn beta_den(s: Series, m: Series) -> int {
    s.den * sum_dev_prods(m.nums@, m.nums@, m.nums@.len() as int, sum_ints(m.nums@), sum_ints(m.nums@))
}

/// The value of a Beta counts as one when it is within `1 / TOLERANCE_DEN`
/// of one.
pub open spec fn is_one_spec(v: Ratio) -> bool {
    TOLERANCE_DEN * abs_i(v.num - v.den) < v.den
}

/// # Beta (market risk coefficient)
///
/// The ratio of an asset's return covariance with a market benchmark to
/// the benchmark's own variance, wrapped as an immutable value object with
/// classification queries.
pub struct Beta {
    val: Ratio,
}

impl View for Beta {
    type V = Ratio;

    closed spec fn view(&self) -> Ratio {
        self.val
    }
}

impl Beta {
    /// The wrapped ratio is well formed and small enough that every
    /// classification query stays free of overflow.
    pub open spec fn inv(self) -> bool {
        &&& self@.wf()
        &&& -BETA_BOUND <= self@.num <= BETA_BOUND
        &&& 1 <= self@.den <= BETA_BOUND
    }

    /// Builds the Beta of a return series against a market benchmark:
    /// `covariance(series, market) / variance(market)`, each with its own
    /// internal mean, as the exact rational `beta_num / beta_den`
    /// (see [`lemma_beta_is_covariance_over_variance`]). Two empty series
    /// give the explicit fallback value zero. The two series must have the
    /// same length, and a non-empty market must not be constant (a
    /// constant market has variance zero, so its Beta is undefined).
    pub fn new(series: &Series, market: &Series) -> (b: Beta)
        requires
            series.wf(),
            market.wf(),
            series.nums@.len() == market.nums@.len(),
            series.nums@.len() <= MAX_LEN,
            series.nums@.len() > 0 ==> series.bounded() && market.bounded() && !is_constant(
                market.nums@,
            ),
        ensures
            b.inv(),
            series.nums@.len() == 0 ==> b@.num == 0 && b@.den == 1,
            series.nums@.len() > 0 ==> b@.num == beta_num(*series, *market) && b@.den == beta_den(
                *series,
                *market,
            ),
    {
        if series.nums.len() == 0 {
            return Beta { val: Ratio { num: 0, den: 1 } };
        }
        let ms = mean(series);
        let mm = mean(market);
        let ss: i128 = ms.num;
        let sm: i128 = mm.num;
        let nu: usize = series.nums.len();
        let n: i128 = nu as i128;
        let mut i: usize = 0;
        let mut uv: i128 = 0;
        let mut vv: i128 = 0;
        while i < nu
            invariant
                0 <= i <= nu,
                nu == series.nums@.len(),
                nu == market.nums@.len(),
                1 <= nu <= MAX_LEN,
                n == nu as i128,
                series.bounded(),
                market.bounded(),
                -MEAN_BOUND <= ss <= MEAN_BOUND,
                -MEAN_BOUND <= sm <= MEAN_BOUND,
                uv == sum_dev_prods(
                    series.nums@.take(i as int),
                    market.nums@.take(i as int),
                    n as int,
                    ss as int,
                    sm as int,
                ),
                vv == sum_dev_prods(
                    market.nums@.take(i as int),
                    market.nums@.take(i as int),
                    n as int,
                    sm as int,
                    sm as int,
                ),
                -(i as int) * 295147905179352825856 <= uv <= (i as int) * 295147905179352825856,
                0 <= vv <= (i as int) * 295147905179352825856,
            decreases nu - i,
        {
            let xv: i128 = series.nums[i];
            let yv: i128 = market.nums[i];
            proof {
                assert(series.nums@.take(i + 1).drop_last() =~= series.nums@.take(i as int));
                assert(market.nums@.take(i + 1).drop_last() =~= market.nums@.take(i as int));
                assert(-8589934592 <= (xv as int) * (n as int) <= 8589934592 && -8589934592 <= (
                yv as int) * (n as int) <= 8589934592) by (nonlinear_arith)
                    requires
                        -MAX_ABS <= xv <= MAX_ABS,
                        -MAX_ABS <= yv <= MAX_ABS,
                        1 <= n <= 1024,
                ;
            }
            let u: i128 = xv * n - ss;
            let v: i128 = yv * n - sm;
            proof {
                assert(-295147905179352825856 <= (u as int) * (v as int) <= 295147905179352825856
                    && 0 <= (v as int) * (v as int) <= 295147905179352825856) by (nonlinear_arith)
                    requires
                        -17179869184 <= u <= 17179869184,
                        -17179869184 <= v <= 17179869184,
                ;
            }
            uv = uv + u * v;
            vv = vv + v * v;
            i = i + 1;
        }
        proof {
            assert(series.nums@.take(nu as int) =~= series.nums@);
            assert(market.nums@.take(nu as int) =~= market.nums@);
            let k = choose|k: int| 0 <= k < market.nums@.len() && #[trigger] market.nums@[k]
                != market.nums@[0];
            assert(market.nums@[0] * (n as int) - sm != 0 || market.nums@[k] * (n as int) - sm
                != 0) by (nonlinear_arith)
                requires
                    market.nums@[0] != market.nums@[k],
                    1 <= n,
            ;
            if market.nums@[0] * (n as int) - sm != 0 {
                lemma_sum_dev_sq_pos(market.nums@, n as int, sm as int, 0);
            } else {
                lemma_sum_dev_sq_pos(market.nums@, n as int, sm as int, k);
            }
            assert(-2535301200456458802993406410752 <= (market.den as int) * (uv as int)
                <= 2535301200456458802993406410752) by (nonlinear_arith)
                requires
                    1 <= market.den <= MAX_ABS,
                    -302231454903657293676544 <= uv <= 302231454903657293676544,
            ;
            assert(1 <= (series.den as int) * (vv as int) <= 2535301200456458802993406410752)
                by (nonlinear_arith)
                requires
                    1 <= series.den <= MAX_ABS,
                    1 <= vv <= 302231454903657293676544,
            ;
        }
        Beta { val: Ratio { num: market.den * uv, den: series.den * vv } }
    }

    /// Constructs a Beta directly from a raw rational value, bypassing the
    /// covariance and variance computation.
    pub fn from_value(v: Ratio) -> (b: Beta)
        requires
            v.wf(),
            -BETA_BOUND <= v.num <= BETA_BOUND,
            v.den <= BETA_BOUND,
        ensures
            b@ == v,
            b.inv(),
    {
        Beta { val: v }
    }

    /// True exactly when the value is within `1 / TOLERANCE_DEN` of one
    /// (tolerance-based, to absorb the noise of approximate inputs, not
    /// exact equality): the fund moves with the market.
    pub fn is_one(&self) -> (r: bool)
        requires
            self.inv(),
        ensures
            r == is_one_spec(self@),
    {
        let diff: i128 = self.val.num - self.val.den;
        let a: i128 = if diff < 0 {
            -diff
        } else {
            diff
        };
        proof {
            assert(0 <= TOLERANCE_DEN * (a as int) <= 85070591730234615865843651857942052864)
                by (nonlinear_arith)
                requires
                    0 <= a <= 81129638414606681695789005144064,
            ;
        }
        TOLERANCE_DEN * a < self.val.den
    }

    /// True exactly when the value is negative: the fund moves against the
    /// market. (An exact rational has no negative zero, so this is a plain
    /// sign test.)
    pub fn is_negative(&self) -> (r: bool)
        ensures
            r == (self@.num < 0),
    {
        self.val.num < 0
    }

    /// True exactly when the value is zero or positive: the fund moves
    /// with the market.
    pub fn is_positive(&self) -> (r: bool)
        ensures
            r == (self@.num >= 0),
    {
        self.val.num >= 0
    }

    /// The raw rational value of the coefficient.
    pub fn value(&self) -> (r: Ratio)
        ensures
            r == self@,
    {
        self.val
    }
}

/// A Beta whose numerator and denominator are equal is exactly one, and
/// `is_one` holds of it. With [`Beta::new`]'s contract this is the law
/// that a series' beta against itself is one: `beta_num(s, s)` and
/// `beta_den(s, s)` are the same product, so `Beta::new(x, x)` carries a
/// value equal to `1 / 1` exactly (no tolerance is needed in exact
/// arithmetic), for any non-constant series `x`.
pub proof fn lemma_beta_of_self_is_one(s: Series, v: Ratio)
    requires
        v.wf(),
        v.num == beta_num(s, s),
        v.den == beta_den(s, s),
    ensures
        rat_eq(v.num as int, v.den as int, 1, 1),
        is_one_spec(v),
{
}

/// Beta is exactly covariance over variance: the value `Beta::new`
/// produces equals, as a rational, `covariance(series, market)` (internal
/// means) divided by `variance(market)` (internal mean).
pub proof fn lemma_beta_is_covariance_over_variance(s: Series, m: Series)
    requires
        s.wf(),
        m.wf(),
        s.nums@.len() == m.nums@.len(),
        1 <= s.nums@.len(),
    ensures
        rat_eq(
            beta_num(s, m),
            beta_den(s, m),
            covariance_num(s, m, None) * variance_den(m, None),
            covariance_den(s, m, None) * variance_num(m, None),
        ),
{
    let n = s.nums@.len() as int;
    let sx = sum_ints(s.nums@);
    let sy = sum_ints(m.nums@);
    let ds = s.den as int;
    let dm = m.den as int;
    let p = sum_dev_prods(s.nums@, m.nums@, n, sx, sy);
    let v = sum_dev_prods(m.nums@, m.nums@, n, sy, sy);
    lemma_sum_cross_factors(s.nums@, m.nums@, n, sx, sy, ds, dm);
    lemma_sum_cross_factors(m.nums@, m.nums@, n, sy, sy, dm, dm);
    lemma_sum_sq_is_cross(m.nums@, sy, n * dm, dm);
    assert(covariance_num(s, m, None) == (ds * dm) * p);
    assert(variance_num(m, None) == (dm * dm) * v);
    let n3 = (n * n) * n;
    let a2 = dm * dm;
    lemma_den_cube(n, ds, dm, covariance_den(s, m, None));
    lemma_den_cube(n, dm, dm, variance_den(m, None));
    lemma_beta_shuffle(n3, a2, ds, dm, p, v);
}

/// A statistic's denominator `n * ((a * (n * a)) * (b * (n * b)))`
/// regrouped as a cube times two squares.
proof fn lemma_den_cube(n: int, a: int, b: int, r: int) by (nonlinear_arith)
    requires
        r == n * ((a * (n * a)) * (b * (n * b))),
    ensures
        r == ((n * n) * n) * ((a * a) * (b * b)),
{
}

/// Both sides of the Beta cross-multiplication reduce to the same
/// product `n3 * ds^2 * dm^2 * a2^2 * p * v`.
proof fn lemma_beta_shuffle(n3: int, a2: int, ds: int, dm: int, p: int, v: int)
    ensures
        (dm * p) * ((n3 * ((ds * ds) * a2)) * (a2 * v)) == (((ds * dm) * p) * (n3 * (a2 * a2))) * (
        ds * v),
{
    let q = dm * p;
    let c = ds * ds;
    let a4 = a2 * a2;
    assert(q * ((n3 * (c * a2)) * (a2 * v)) == ((c * q) * (n3 * a4)) * v) by (nonlinear_arith)
        requires
            a4 == a2 * a2,
    ;
    assert((((ds * dm) * p) * (n3 * a4)) * (ds * v) == ((c * q) * (n3 * a4)) * v)
        by (nonlinear_arith)
        requires
            c == ds * ds,
            q == dm * p,
    ;
}

/// `sum_cross` against the internal means `(sx / (n * dx), sy / (n * dy))`
/// is `(dx * dy)` times the factored deviation sum.
proof fn lemma_sum_cross_factors(x: Seq<i128>, y: Seq<i128>, n: int, sx: int, sy: int, dx: int, dy: int)
    requires
        x.len() == y.len(),
    ensures
        sum_cross(x, y, sx, n * dx, dx, sy, n * dy, dy) == (dx * dy) * sum_dev_prods(x, y, n, sx, sy),
    decreases x.len(),
{
    if x.len() == 0 {
        assert((dx * dy) * 0 == 0) by (nonlinear_arith);
    } else {
        lemma_sum_cross_factors(x.drop_last(), y.drop_last(), n, sx, sy, dx, dy);
        let rest = sum_dev_prods(x.drop_last(), y.drop_last(), n, sx, sy);
        let xl = x.last() as int;
        let yl = y.last() as int;
        let a = xl * n - sx;
        let b = yl * n - sy;
        assert(xl * (n * dx) - sx * dx == dx * a) by (nonlinear_arith)
            requires
                a == xl * n - sx,
        ;
        assert(yl * (n * dy) - sy * dy == dy * b) by (nonlinear_arith)
            requires
                b == yl * n - sy,
        ;
        assert((dx * a) * (dy * b) == (dx * dy) * (a * b)) by (nonlinear_arith);
        assert((dx * dy) * rest + (dx * dy) * (a * b) == (dx * dy) * (rest + a * b))
            by (nonlinear_arith);
    }
}

/// A sum of squared deviations is the cross sum of a series with itself.
proof fn lemma_sum_sq_is_cross(x: Seq<i128>, mn: int, md: int, d: int)
    ensures
        sum_sq_devs(x, mn, md, d) == sum_cross(x, x, mn, md, d, mn, md, d),
    decreases x.len(),
{
    if x.len() > 0 {
        lemma_sum_sq_is_cross(x.drop_last(), mn, md, d);
    }
}

/// Numerator and denominator of the Sharpe ratio computed from a raw
/// return series: the portfolio return is the series' exact mean, the
/// standard deviation is the library's own `standard_deviation` of the
/// series' variance against that mean — `t / SD_PRECISION` with
/// `t = sqrt_floor(SD_PRECISION^2 * variance)`, where the variance's
/// value is `q / e` (see [`lemma_sharpe_divides_by_standard_deviation`]) —
/// and the ratio is `(mean - rf) / (t / SD_PRECISION)`. A standard
/// deviation below `1 / EPS_DEN` counts as zero and gives the explicit
/// fallback value zero.
pub open spec fn sharpe_series_spec(nums: Seq<i128>, d: int, rfn: int, rfd: int) -> (int, int) {
    let n = nums.len() as int;
    let s = sum_ints(nums);
    let q = sum_dev_prods(nums, nums, n, s, s);
    let e = ((n * n) * n) * (d * d);
    let t = sqrt_floor(((SD_PRECISION * SD_PRECISION) * q) / e);
    if t * EPS_DEN < SD_PRECISION {
        (0, 1)
    } else {
        ((s * rfd - rfn * (n * d)) * SD_PRECISION, ((n * d) * rfd) * t)
    }
}

/// Series-mode Sharpe divides by the library's own standard deviation of
/// the series' variance: with `m` the exact mean of the series and `v` the
/// exact variance against it, the root `t` in [`sharpe_series_spec`] is
/// exactly what `standard_deviation(v)` returns, and away from the
/// near-zero threshold the Sharpe pair is exactly
/// `(m - rf) / (t / SD_PRECISION)` cross-multiplied.
pub proof fn lemma_sharpe_divides_by_standard_deviation(s: Series, rf: Ratio, m: Ratio, v: Ratio)
    requires
        s.wf(),
        1 <= s.nums@.len(),
        m.num == sum_ints(s.nums@),
        m.den == s.nums@.len() * s.den,
        v.num == variance_num(s, Some(m)),
        v.den == variance_den(s, Some(m)),
    ensures
        ({
            let sdn = sqrt_floor((((SD_PRECISION * SD_PRECISION) * v.num) as int) / (v.den as int));
            let sh = sharpe_series_spec(s.nums@, s.den as int, rf.num as int, rf.den as int);
            &&& (sdn * EPS_DEN < SD_PRECISION ==> sh.0 == 0 && sh.1 == 1)
            &&& (sdn * EPS_DEN >= SD_PRECISION ==> sh.0 == (m.num * rf.den - rf.num * m.den)
                * SD_PRECISION && sh.1 == (m.den * rf.den) * sdn)
        }),
{
    let n = s.nums@.len() as int;
    let d = s.den as int;
    let sx = sum_ints(s.nums@);
    let q = sum_dev_prods(s.nums@, s.nums@, n, sx, sx);
    let e = ((n * n) * n) * (d * d);
    let pp = SD_PRECISION * SD_PRECISION;
    lemma_sum_sq_is_cross(s.nums@, sx, n * d, d);
    lemma_sum_cross_factors(s.nums@, s.nums@, n, sx, sx, d, d);
    assert(v.num == (d * d) * q);
    lemma_den_cube(n, d, d, v.den as int);
    assert(v.den == (d * d) * e) by (nonlinear_arith)
        requires
            v.den == ((n * n) * n) * ((d * d) * (d * d)),
            e == ((n * n) * n) * (d * d),
    ;
    assert(pp * ((d * d) * q) == (d * d) * (pp * q)) by (nonlinear_arith);
    lemma_sum_dev_sq_nonneg(s.nums@, n, sx);
    assert(0 <= pp * q && 1 <= d * d && 1 <= e) by (nonlinear_arith)
        requires
            0 <= q,
            0 < pp,
            1 <= n,
            1 <= d,
            e == ((n * n) * n) * (d * d),
    ;
    lemma_div_common_factor(d * d, pp * q, e);
}

/// # Sharpe ratio, series mode
///
/// Given a return series and a risk-free rate `rf`, the excess return over
/// the series' standard deviation: portfolio return `mean(series)`,
/// standard deviation `standard_deviation(variance(series, mean))` — the
/// fixed-precision root of the exact variance, as
/// [`lemma_sharpe_divides_by_standard_deviation`] states. A standard
/// deviation below `1 / EPS_DEN` (effectively zero) gives exactly zero.
pub fn sharpe(series: &Series, rf: Ratio) -> (r: Ratio)
    requires
        series.wf(),
        series.bounded(),
        1 <= series.nums@.len() <= MAX_LEN,
        rf.wf(),
        -MAX_ABS <= rf.num <= MAX_ABS,
        rf.den <= MAX_ABS,
    ensures
        r.num == sharpe_series_spec(series.nums@, series.den as int, rf.num as int, rf.den as int).0,
        r.den == sharpe_series_spec(series.nums@, series.den as int, rf.num as int, rf.den as int).1,
        r.wf(),
{
    let m = mean(series);
    let s: i128 = m.num;
    let nu: usize = series.nums.len();
    let n: i128 = nu as i128;
    let mut i: usize = 0;
    let mut q: i128 = 0;
    while i < nu
        invariant
            0 <= i <= nu,
            nu == series.nums@.len(),
            1 <= nu <= MAX_LEN,
            n == nu as i128,
            series.bounded(),
            -MEAN_BOUND <= s <= MEAN_BOUND,
            q == sum_dev_prods(
                series.nums@.take(i as int),
                series.nums@.take(i as int),
                n as int,
                s as int,
                s as int,
            ),
            0 <= q <= (i as int) * 295147905179352825856,
        decreases nu - i,
    {
        let xv: i128 = series.nums[i];
        proof {
            assert(series.nums@.take(i + 1).drop_last() =~= series.nums@.take(i as int));
            assert(-8589934592 <= (xv as int) * (n as int) <= 8589934592) by (nonlinear_arith)
                requires
                    -MAX_ABS <= xv <= MAX_ABS,
                    1 <= n <= 1024,
            ;
        }
        let u: i128 = xv * n - s;
        proof {
            assert(0 <= (u as int) * (u as int) <= 295147905179352825856) by (nonlinear_arith)
                requires
                    -17179869184 <= u <= 17179869184,
            ;
        }
        q = q + u * u;
        i = i + 1;
    }
    proof {
        assert(series.nums@.take(nu as int) =~= series.nums@);
        assert(1 <= (n as int) * (n as int) <= 1048576 && 1 <= ((n as int) * (n as int)) * (
        n as int) <= 1073741824 && 1 <= (series.den as int) * (series.den as int)
            <= 70368744177664) by (nonlinear_arith)
            requires
                1 <= n <= 1024,
                1 <= series.den <= MAX_ABS,
        ;
        assert(1 <= (((n as int) * (n as int)) * (n as int)) * ((series.den as int) * (
        series.den as int)) <= 75557863725914323419136) by (nonlinear_arith)
            requires
                1 <= ((n as int) * (n as int)) * (n as int) <= 1073741824,
                1 <= (series.den as int) * (series.den as int) <= 70368744177664,
        ;
    }
    let e: i128 = ((n * n) * n) * (series.den * series.den);
    let ppe: i128 = SD_PRECISION * SD_PRECISION;
    proof {
        assert(0 <= (ppe as int) * (q as int) <= 302231454903657293676544000000000000)
            by (nonlinear_arith)
            requires
                0 <= q <= 302231454903657293676544,
                ppe == 1000000000000,
        ;
    }
    let pn: u128 = (ppe as u128) * (q as u128);
    let wd: u128 = pn / (e as u128);
    proof {
        vstd::arithmetic::div_mod::lemma_div_nonincreasing(pn as int, e as int);
    }
    let wi: i128 = wd as i128;
    let t: i128 = isqrt(wi);
    proof {
        assert(t <= 549755813888000000) by (nonlinear_arith)
            requires
                0 <= t,
                (t as int) * (t as int) <= 302231454903657293676544000000000000,
        ;
        assert(0 <= (t as int) * EPS_DEN <= 2475880078570760549798248448000000)
            by (nonlinear_arith)
            requires
                0 <= t <= 549755813888000000,
        ;
    }
    if t * EPS_DEN < SD_PRECISION {
        return Ratio { num: 0, den: 1 };
    }
    proof {
        assert(-72057594037927936 <= (s as int) * (rf.den as int) <= 72057594037927936
            && -72057594037927936 <= (rf.num as int) * ((n as int) * (series.den as int))
            <= 72057594037927936 && 1 <= (n as int) * (series.den as int) <= 8589934592)
            by (nonlinear_arith)
            requires
                -MEAN_BOUND <= s <= MEAN_BOUND,
                1 <= rf.den <= MAX_ABS,
                -MAX_ABS <= rf.num <= MAX_ABS,
                1 <= n <= 1024,
                1 <= series.den <= MAX_ABS,
        ;
    }
    let a: i128 = s * rf.den - rf.num * (n * series.den);
    proof {
        assert(-144115188075855872000000 <= (a as int) * SD_PRECISION
            <= 144115188075855872000000) by (nonlinear_arith)
            requires
                -144115188075855872 <= a <= 144115188075855872,
        ;
        assert(1 <= ((n as int) * (series.den as int)) * (rf.den as int) <= 72057594037927936)
            by (nonlinear_arith)
            requires
                1 <= (n as int) * (series.den as int) <= 8589934592,
                1 <= rf.den <= MAX_ABS,
        ;
        assert(1 <= (((n as int) * (series.den as int)) * (rf.den as int)) * (t as int)
            <= 39614081257132168796771975168000000) by (nonlinear_arith)
            requires
                1 <= ((n as int) * (series.den as int)) * (rf.den as int) <= 72057594037927936,
                1 <= t <= 549755813888000000,
        ;
    }
    Ratio { num: a * SD_PRECISION, den: ((n * series.den) * rf.den) * t }
}

/// Numerator and denominator of the Sharpe ratio from precomputed
/// figures: `(rp - rf) / sd`, or exactly zero when `sd < 1 / EPS_DEN`.
pub open spec fn sharpe_summary_spec(rp: Ratio, rf: Ratio, sd: Ratio) -> (int, int) {
    if sd.num * EPS_DEN < sd.den {
        (0, 1)
    } else {
        ((rp.num * rf.den - rf.num * rp.den) * sd.den, (rp.den * rf.den) * sd.num)
    }
}

/// # Sharpe ratio, summary mode
///
/// Given a precomputed portfolio return `rp`, risk-free rate `rf` and
/// standard deviation `sd`, the exact rational `(rp - rf) / sd`. A
/// standard deviation below `1 / EPS_DEN` (effectively zero, negative
/// included) gives exactly zero, avoiding a near-zero denominator.
pub fn sharpe_summary(rp: Ratio, rf: Ratio, sd: Ratio) -> (r: Ratio)
    requires
        rp.wf(),
        rf.wf(),
        sd.wf(),
        -MAX_ABS <= rp.num <= MAX_ABS,
        rp.den <= MAX_ABS,
        -MAX_ABS <= rf.num <= MAX_ABS,
        rf.den <= MAX_ABS,
        -MAX_ABS <= sd.num <= MAX_ABS,
        sd.den <= MAX_ABS,
    ensures
        r.num == sharpe_summary_spec(rp, rf, sd).0,
        r.den == sharpe_summary_spec(rp, rf, sd).1,
        r.wf(),
{
    proof {
        assert(-37778931862957161709568 <= (sd.num as int) * EPS_DEN <= 37778931862957161709568)
            by (nonlinear_arith)
            requires
                -MAX_ABS <= sd.num <= MAX_ABS,
        ;
    }
    if sd.num * EPS_DEN < sd.den {
        return Ratio { num: 0, den: 1 };
    }
    proof {
        assert(-70368744177664 <= (rp.num as int) * (rf.den as int) <= 70368744177664
            && -70368744177664 <= (rf.num as int) * (rp.den as int) <= 70368744177664)
            by (nonlinear_arith)
            requires
                -MAX_ABS <= rp.num <= MAX_ABS,
                1 <= rf.den <= MAX_ABS,
                -MAX_ABS <= rf.num <= MAX_ABS,
                1 <= rp.den <= MAX_ABS,
        ;
    }
    let a: i128 = rp.num * rf.den - rf.num * rp.den;
    proof {
        assert(-1180591620717411303424 <= (a as int) * (sd.den as int) <= 1180591620717411303424
            && 1 <= (rp.den as int) * (rf.den as int) <= 70368744177664) by (nonlinear_arith)
            requires
                -140737488355328 <= a <= 140737488355328,
                1 <= sd.den <= MAX_ABS,
                1 <= rp.den <= MAX_ABS,
                1 <= rf.den <= MAX_ABS,
        ;
        assert(1 <= ((rp.den as int) * (rf.den as int)) * (sd.num as int)
            <= 590295810358705651712) by (nonlinear_arith)
            requires
                1 <= (rp.den as int) * (rf.den as int) <= 70368744177664,
                1 <= sd.num <= MAX_ABS,
        ;
    }
    Ratio { num: a * sd.den, den: (rp.den * rf.den) * sd.num }
}

} // verus!
