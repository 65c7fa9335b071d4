use corp_fin::Beta;
use corp_fin::Ratio;
use corp_fin::Series;
use corp_fin::sharpe;
use corp_fin::sharpe_summary;

fn ratio_f64(r: &Ratio) -> f64 {
    r.num as f64 / r.den as f64
}

// Daily return series of a fund and its market benchmark, quantized to
// millionths (the exact-rational grid: numerators over scale 10^6).
const ITC: [i128; 19] = [
    -37928, -1000, -20732, -3504, -1026, -11000, 3708, -10934, 149, -16580, 12151, -20708, -4750,
    308, -4464, -14688, 7846, -7940, 11142,
];
const NIFTY_50: [i128; 19] = [
    6961, -2972, -2728, -1450, -10095, -7480, 4164, -2247, -2592, 1120, -4236, -13797, -2972,
    5263, -9539, 5060, 6647, 3005, -3865,
];

#[test]
fn beta_t() {
    let itc = Series::new(ITC.to_vec(), 1000000);
    let nifty = Series::new(NIFTY_50.to_vec(), 1000000);
    let beta = Beta::new(&itc, &nifty);
    let v = beta.value();
    assert_eq!(v.num, -29859772278000000);
    assert_eq!(v.den, 227995641210000000);
    assert!(beta.is_negative());
    // close to the double-precision figure for the unquantized series
    assert!((ratio_f64(&v) - -0.13098715705340794).abs() < 1e-4);
}

#[test]
fn sharpe_t() {
    let protfolio_return = Ratio::new(18, 100); // one year return = 18%

    let rf = Ratio::new(3, 100); // risk free return = 3%
    let annaulized_sd = Ratio::new(12, 100);

    let itc = Series::new(ITC.to_vec(), 1000000);
    let s1 = sharpe(&itc, rf);
    let s3 = sharpe(&itc, rf);
    let s2 = sharpe_summary(protfolio_return, rf, annaulized_sd);
    assert_eq!(ratio_f64(&s2), 1.25);
    assert_eq!(s1.num, -68995000000000);
    assert_eq!(s1.den, 22807600000000);
    assert_eq!(s3, s1);
    // close to the double-precision figure for the unquantized series
    assert!((ratio_f64(&s1) - -3.024907069875915).abs() < 1e-3);
    // the denominator is the series' own standard deviation of its variance
    let m = corp_fin::mean(&itc);
    let v = corp_fin::variance(&itc, Some(m));
    let sd = corp_fin::standard_deviation(v);
    assert_eq!(sd.num, 12004);
    assert_eq!(s1.den, (m.den * rf.den) * sd.num);
    assert_eq!(s1.num, (m.num * rf.den - rf.num * m.den) * 1000000);
}

#[test]
fn sharpe_series_matches_sd_of_variance() {
    // series mode divides by the library's own standard deviation of the
    // series' variance against its mean
    let series = Series::new(vec![1, 3], 1);
    let rf = Ratio::new(0, 1);
    let m = corp_fin::mean(&series);
    let v = corp_fin::variance(&series, Some(m));
    let sd = corp_fin::standard_deviation(v);
    let r = sharpe(&series, rf);
    assert_eq!(r.num, (m.num * rf.den - rf.num * m.den) * 1000000);
    assert_eq!(r.den, (m.den * rf.den) * sd.num);
}

#[test]
fn sharpe_summary_zero_sd_is_zero() {
    let r = sharpe_summary(Ratio::new(18, 100), Ratio::new(3, 100), Ratio::new(0, 1));
    assert_eq!(r.num, 0);
    assert_eq!(r.den, 1);
    assert_eq!(ratio_f64(&r), 0.0);
}

#[test]
fn sharpe_summary_negative_sd_is_zero() {
    let r = sharpe_summary(Ratio::new(18, 100), Ratio::new(3, 100), Ratio::new(-12, 100));
    assert_eq!(r.num, 0);
    assert_eq!(r.den, 1);
}

#[test]
fn sharpe_series_exact() {
    // mean 2, variance 1, standard deviation exactly 1: sharpe = 2 - 0
    let series = Series::new(vec![1, 3], 1);
    let r = sharpe(&series, Ratio::new(0, 1));
    assert_eq!(ratio_f64(&r), 2.0);
}

#[test]
fn sharpe_constant_series_is_zero() {
    let series = Series::new(vec![5, 5, 5], 1);
    let r = sharpe(&series, Ratio::new(3, 100));
    assert_eq!(r.num, 0);
    assert_eq!(r.den, 1);
}

#[test]
fn beta_of_itself_is_one() {
    let x = Series::new(vec![4, 34, 18, 12, 2, 26], 1);
    let b = Beta::new(&x, &x);
    let v = b.value();
    assert_eq!(v.num, v.den);
    assert!(b.is_one());
    assert!(b.is_positive());
    assert!(!b.is_negative());
}

#[test]
fn beta_of_empty_series_is_zero() {
    let x = Series::new(vec![], 1);
    let b = Beta::new(&x, &x);
    let v = b.value();
    assert_eq!(v.num, 0);
    assert_eq!(v.den, 1);
    assert_eq!(ratio_f64(&v), 0.0);
}

#[test]
fn beta_of_half_scaled_series() {
    // the series moves half as much as the market: beta is 0.5
    let series = Series::new(vec![1, 2, 3], 1);
    let market = Series::new(vec![2, 4, 6], 1);
    let b = Beta::new(&series, &market);
    let v = b.value();
    assert_eq!(ratio_f64(&v), 0.5);
    assert!(b.is_positive());
    assert!(!b.is_one());
}

#[test]
fn beta_against_opposed_market_is_negative() {
    let series = Series::new(vec![1, 2, 3], 1);
    let market = Series::new(vec![3, 2, 1], 1);
    let b = Beta::new(&series, &market);
    let v = b.value();
    assert_eq!(ratio_f64(&v), -1.0);
    assert!(b.is_negative());
    assert!(!b.is_positive());
}

#[test]
fn beta_from_raw_value_round_trips() {
    let b = Beta::from_value(Ratio::new(-1, 2));
    let v = b.value();
    assert_eq!(v.num, -1);
    assert_eq!(v.den, 2);
    assert!(b.is_negative());
    assert!(!b.is_positive());
    assert!(!b.is_one());
}

#[test]
fn is_one_tolerance_boundary() {
    // exactly at the tolerance: not one (the comparison is strict)
    let at = Beta::from_value(Ratio::new(1000001, 1000000));
    assert!(!at.is_one());
    // strictly inside the tolerance: one
    let inside = Beta::from_value(Ratio::new(2000001, 2000000));
    assert!(inside.is_one());
    let exact = Beta::from_value(Ratio::new(7, 7));
    assert!(exact.is_one());
}

#[test]
fn is_positive_holds_of_zero() {
    // zero counts as positive, never as negative
    let zero = Beta::from_value(Ratio::new(0, 1));
    assert!(zero.is_positive());
    assert!(!zero.is_negative());
}
