//! Exact rational numbers and integer square roots.
//!
//! Every quantity in this library is an exact rational `num / den` with a
//! positive denominator. Working with exact rationals instead of machine
//! approximations lets every formula carry a contract that pins the result
//! down to the last digit.

use vstd::prelude::*;

verus! {

/// Largest magnitude admitted for a series value's numerator and for a
/// scale denominator (2^23). Together with `MAX_LEN` this keeps every
/// intermediate product of the statistics well inside `i128`.
pub const MAX_ABS: i128 = 8388608;

/// Largest number of data points a series may hold (2^10).
pub const MAX_LEN: usize = 1024;

/// Largest magnitude of a mean's numerator or denominator:
/// `MAX_LEN * MAX_ABS` (2^33).
pub const MEAN_BOUND: i128 = 8589934592;

/// Largest numerator or denominator `round_to` accepts (2^62): the
/// product of two such still fits `i128`.
pub const SQRT_IN_MAX: i128 = 4611686018427387904;

/// Denominator of every `standard_deviation` result: the square root of a
/// variance is computed to the fixed absolute precision `1 / SD_PRECISION`
/// (10^-6), whatever the input's own denominator, so the result depends
/// only on the input's value.
pub const SD_PRECISION: i128 = 1000000;

/// Largest variance numerator `standard_deviation` accepts (2^86):
/// `SD_PRECISION^2` times such a numerator still fits `i128`. The
/// denominator needs no bound.
pub const SD_NUM_MAX: i128 = 77371252455336267181195264;

/// Largest argument `isqrt` accepts (2^126 - 1).
pub const ISQRT_IN_MAX: i128 = 85070591730234615865843651857942052863;

/// Largest magnitude a [`Ratio`] held by a Beta may have (2^105): what
/// `Beta::new` produces stays well inside, and `Beta::is_one` stays free
/// of overflow under it.
pub const BETA_BOUND: i128 = 40564819207303340847894502572032;

/// Denominator of the near-zero threshold used by the Sharpe ratio:
/// a standard deviation below `1 / EPS_DEN` (2^-52) counts as zero.
pub const EPS_DEN: i128 = 4503599627370496;

/// Denominator of the tolerance used by `Beta::is_one`: the value counts
/// as one when it is within `1 / TOLERANCE_DEN` (10^-6) of one.
pub const TOLERANCE_DEN: i128 = 1000000;

/// An exact rational number: `num / den` with `den >= 1`.
#[derive(Clone, Copy, PartialEq, Eq, Structural, Debug)]
pub struct Ratio {
    pub num: i128,
    pub den: i128,
}

/// Magnitude of an integer.
pub open spec fn abs_i(x: int) -> int {
    if x < 0 { -x } else { x }
}

/// Two rationals `an / ad` and `bn / bd` (positive denominators) are equal
/// exactly when they cross-multiply to the same product.
pub open spec fn rat_eq(an: int, ad: int, bn: int, bd: int) -> bool {
    an * bd == bn * ad
}

/// Largest `r >= 0` with `r * r <= x` (0 for negative arguments).
pub open spec fn sqrt_floor(x: int) -> int
    decreases x,
{
    if x <= 0 {
        0
    } else {
        let r = sqrt_floor(x - 1);
        if (r + 1) * (r + 1) <= x {
            r + 1
        } else {
            r
        }
    }
}

/// `sqrt_floor(x)` is the floor of the square root: it squares to at most
/// `x`, and its successor squares past `x`.
pub proof fn lemma_sqrt_floor_brackets(x: int)
    requires
        0 <= x,
    ensures
        0 <= sqrt_floor(x),
        sqrt_floor(x) * sqrt_floor(x) <= x,
        x < (sqrt_floor(x) + 1) * (sqrt_floor(x) + 1),
    decreases x,
{
    if x == 0 {
        assert(sqrt_floor(0) == 0);
    } else {
        lemma_sqrt_floor_brackets(x - 1);
        let r = sqrt_floor(x - 1);
        if (r + 1) * (r + 1) <= x {
            assert(sqrt_floor(x) == r + 1);
            assert((r + 2) * (r + 2) > x) by (nonlinear_arith)
                requires
                    0 <= r,
                    x - 1 < (r + 1) * (r + 1),
                    (r + 1) * (r + 1) <= x,
            ;
        } else {
            assert(sqrt_floor(x) == r);
        }
    }
}

/// Floor of the square root, by binary search.
pub fn isqrt(x: i128) -> (r: i128)
    requires
        0 <= x <= ISQRT_IN_MAX,
    ensures
        r == sqrt_floor(x as int),
        0 <= r,
        r * r <= x,
        (x as int) < (r + 1) * (r + 1),
{
    if x == 0 {
        return 0;
    }
    let mut lo: i128 = 0;
    let mut hi: i128 = 9223372036854775808;
    assert((9223372036854775808 as int) * (9223372036854775808 as int) > x as int)
        by (nonlinear_arith)
        requires
            x <= ISQRT_IN_MAX,
    ;
    while hi - lo > 1
        invariant
            0 <= lo < hi <= 9223372036854775808,
            lo * lo <= x,
            (x as int) < (hi as int) * (hi as int),
            0 <= x <= ISQRT_IN_MAX,
        decreases hi - lo,
    {
        let mid: i128 = lo + (hi - lo) / 2;
        assert(0 <= (mid as int) * (mid as int) <= 85070591730234615865843651857942052864)
            by (nonlinear_arith)
            requires
                0 <= mid <= 9223372036854775808,
        ;
        if mid * mid <= x {
            lo = mid;
        } else {
            hi = mid;
        }
    }
    proof {
        lemma_sqrt_floor_brackets(x as int);
        let s = sqrt_floor(x as int);
        assert(lo == s) by (nonlinear_arith)
            requires
                0 <= s,
                s * s <= x as int,
                (x as int) < (s + 1) * (s + 1),
                0 <= lo,
                lo * lo <= x as int,
                (x as int) < (lo + 1) * (lo + 1),
        ;
    }
    lo
}

/// A common positive factor of numerator and denominator cancels out of
/// an integer division: `(k * a) / (k * b) == a / b`.
pub proof fn lemma_div_common_factor(k: int, a: int, b: int)
    requires
        1 <= k,
        0 <= a,
        1 <= b,
    ensures
        (k * a) / (k * b) == a / b,
{
    let q = a / b;
    let r = a % b;
    vstd::arithmetic::div_mod::lemma_fundamental_div_mod(a, b);
    assert(k * a == q * (k * b) + k * r) by (nonlinear_arith)
        requires
            a == b * q + r,
    ;
    assert(0 <= k * r < k * b) by (nonlinear_arith)
        requires
            1 <= k,
            0 <= r < b,
    ;
    vstd::arithmetic::div_mod::lemma_fundamental_div_mod_converse(k * a, k * b, q, k * r);
}

/// `10^d`.
pub open spec fn pow10_spec(d: nat) -> int
    decreases d,
{
    if d == 0 {
        1
    } else {
        10 * pow10_spec((d - 1) as nat)
    }
}

/// Powers of ten up to 10^12.
pub fn pow10(d: u32) -> (r: i128)
    requires
        d <= 12,
    ensures
        r == pow10_spec(d as nat),
        1 <= r <= 1000000000000,
{
    proof {
        reveal_with_fuel(pow10_spec, 14);
    }
    match d {
        0 => 1,
        1 => 10,
        2 => 100,
        3 => 1000,
        4 => 10000,
        5 => 100000,
        6 => 1000000,
        7 => 10000000,
        8 => 100000000,
        9 => 1000000000,
        10 => 10000000000,
        11 => 100000000000,
        _ => 1000000000000,
    }
}

/// `p / q` (with `q >= 1`) rounded to the nearest integer, ties away
/// from zero.
pub open spec fn round_half_away(p: int, q: int) -> int {
    if p >= 0 {
        (2 * p + q) / (2 * q)
    } else {
        -((2 * -p + q) / (2 * q))
    }
}

impl Ratio {
    /// A rational is well formed when its denominator is positive.
    pub open spec fn wf(self) -> bool {
        1 <= self.den
    }

    pub fn new(num: i128, den: i128) -> (r: Ratio)
        requires
            1 <= den,
        ensures
            r.num == num,
            r.den == den,
            r.wf(),
    {
        Ratio { num, den }
    }

    /// Rounds to `decimals` decimal places, halves away from zero: the
    /// result is `round_half_away(num * 10^decimals, den) / 10^decimals`.
    pub fn round_to(self, decimals: u32) -> (r: Ratio)
        requires
            self.wf(),
            decimals <= 12,
            -SQRT_IN_MAX <= self.num <= SQRT_IN_MAX,
            self.den <= SQRT_IN_MAX,
        ensures
            r.den == pow10_spec(decimals as nat),
            r.num == round_half_away(self.num * pow10_spec(decimals as nat), self.den as int),
            r.wf(),
    {
        let f: i128 = pow10(decimals);
        let neg: bool = self.num < 0;
        let a: i128 = if neg {
            -self.num
        } else {
            self.num
        };
        let au: u128 = a as u128;
        let fu: u128 = f as u128;
        let du: u128 = self.den as u128;
        assert(au * fu <= 4611686018427387904000000000000) by (nonlinear_arith)
            requires
                au <= 4611686018427387904,
                fu <= 1000000000000,
        ;
        let p: u128 = au * fu;
        let k: u128 = (2 * p + du) / (2 * du);
        proof {
            vstd::arithmetic::div_mod::lemma_div_nonincreasing(
                (2 * p + du) as int,
                (2 * du) as int,
            );
            vstd::arithmetic::div_mod::lemma_div_pos_is_pos((2 * p + du) as int, (2 * du) as int);
            let pi = p as int;
            let q = self.den as int;
            assert(k == (2 * pi + q) / (2 * q));
            if neg {
                assert(self.num * pow10_spec(decimals as nat) == -pi && 1 <= pi)
                    by (nonlinear_arith)
                    requires
                        self.num < 0,
                        1 <= au as int == -(self.num as int),
                        1 <= fu as int == pow10_spec(decimals as nat),
                        pi == (au as int) * (fu as int),
                ;
                assert(round_half_away(self.num * pow10_spec(decimals as nat), q) == -((2 * pi + q)
                    / (2 * q)));
            } else {
                assert(self.num * pow10_spec(decimals as nat) == pi && 0 <= pi)
                    by (nonlinear_arith)
                    requires
                        0 <= self.num,
                        au as int == self.num as int,
                        1 <= fu as int == pow10_spec(decimals as nat),
                        pi == (au as int) * (fu as int),
                ;
                assert(round_half_away(self.num * pow10_spec(decimals as nat), q) == (2 * pi + q)
                    / (2 * q));
            }
        }
        let kn: i128 = k as i128;
        let num: i128 = if neg {
            -kn
        } else {
            kn
        };
        Ratio { num, den: f }
    }

    /// Rounds to two decimal places.
    pub fn round_2(self) -> (r: Ratio)
        requires
            self.wf(),
            -SQRT_IN_MAX <= self.num <= SQRT_IN_MAX,
            self.den <= SQRT_IN_MAX,
        ensures
            r.den == 100,
            r.num == round_half_away(self.num * 100, self.den as int),
            r.wf(),
    {
        proof {
            reveal_with_fuel(pow10_spec, 3);
        }
        self.round_to(2)
    }

    /// Rounds to four decimal places.
    pub fn round_4(self) -> (r: Ratio)
        requires
            self.wf(),
            -SQRT_IN_MAX <= self.num <= SQRT_IN_MAX,
            self.den <= SQRT_IN_MAX,
        ensures
            r.den == 10000,
            r.num == round_half_away(self.num * 10000, self.den as int),
            r.wf(),
    {
        proof {
            reveal_with_fuel(pow10_spec, 5);
        }
        self.round_to(4)
    }
}

} // verus!
