use corp_fin::Ratio;
use corp_fin::Series;
use corp_fin::covariance;
use corp_fin::mean;
use corp_fin::standard_deviation;
use corp_fin::variance;

fn to_f64(r: &Ratio) -> f64 {
    r.num as f64 / r.den as f64
}

#[test]
fn test_prelude() {
    let series = Series::new(vec![4, 34, 18, 12, 2, 26], 1);
    let mean = mean(&series);
    let variance = variance(&series, Some(mean));
    let sd = standard_deviation(variance);

    assert_eq!(to_f64(&mean), 16.0);
    assert_eq!(to_f64(&variance), 130.66666666666666); // 130.67
    assert_eq!(to_f64(&variance).sqrt(), 11.430952132988164); // 11.43
    // the library's fixed-precision square root brackets the same value
    assert_eq!(sd.num, 11430952);
    assert_eq!(sd.den, 1000000);
    assert!(sd.num * sd.num * variance.den <= 1000000000000 * variance.num);
    assert!(1000000000000 * variance.num < (sd.num + 1) * (sd.num + 1) * variance.den);
}

#[test]
fn covariance_t() {
    let hours = Series::new(vec![3, 5, 2, 7, 4], 1);
    let score = Series::new(vec![70, 80, 60, 90, 75], 1);

    let mean_x = mean(&hours);
    assert_eq!(to_f64(&mean_x), 4.2);

    let mean_y = mean(&score);
    assert_eq!(to_f64(&mean_y), 75.0);

    let cv = covariance(&hours, &score, Some((mean_x, mean_y)));
    assert_eq!(to_f64(&cv), 17.0);

    let m_01 = covariance(&hours, &score, None);
    let m_02 = covariance(&hours, &score, Some((mean_x, mean_y)));
    assert_eq!(m_01, cv);
    assert_eq!(m_02, cv);
}

#[test]
fn variance_internal_and_precomputed_mean_agree() {
    let series = Series::new(vec![4, 34, 18, 12, 2, 26], 1);
    let m = mean(&series);
    assert_eq!(variance(&series, None), variance(&series, Some(m)));
}

#[test]
fn variance_uses_precomputed_mean_verbatim() {
    // an intentionally different mean decouples the variance base
    let series = Series::new(vec![1, 3], 1);
    let around_zero = variance(&series, Some(Ratio::new(0, 1)));
    assert_eq!(to_f64(&around_zero), 5.0);
    let around_mean = variance(&series, None);
    assert_eq!(to_f64(&around_mean), 1.0);
}

#[test]
fn covariance_is_symmetric() {
    let x = Series::new(vec![3, 5, 2, 7, 4], 1);
    let y = Series::new(vec![70, 80, 60, 90, 75], 1);
    assert_eq!(covariance(&x, &y, None), covariance(&y, &x, None));
}

#[test]
fn standard_deviation_of_exact_square() {
    let sd = standard_deviation(Ratio::new(4, 1));
    assert_eq!(sd.num, 2000000);
    assert_eq!(sd.den, 1000000);
    assert_eq!(to_f64(&sd), 2.0);
}

#[test]
fn standard_deviation_depends_on_the_value_alone() {
    // 2/1 and 20/10 are the same variance: same root, digit for digit
    let a = standard_deviation(Ratio::new(2, 1));
    let b = standard_deviation(Ratio::new(20, 10));
    assert_eq!(a, b);
    assert_eq!(a.num, 1414213);
    assert_eq!(a.den, 1000000);
}

#[test]
fn standard_deviation_is_monotone() {
    // 1/4 <= 1/3, so the roots are ordered the same way
    let lo = standard_deviation(Ratio::new(1, 4));
    let hi = standard_deviation(Ratio::new(1, 3));
    assert_eq!(lo.num, 500000);
    assert_eq!(hi.num, 577350);
    assert!(lo.num <= hi.num);
}

#[test]
fn mean_of_scaled_values() {
    // 0.25 and 0.75 in hundredths: mean is exactly 0.5
    let series = Series::new(vec![25, 75], 100);
    assert_eq!(series.len(), 2);
    let m = mean(&series);
    assert_eq!(m.num, 100);
    assert_eq!(m.den, 200);
    assert_eq!(to_f64(&m), 0.5);
}

#[test]
fn rounding_half_away_from_zero() {
    let r = Ratio::new(12345, 1000).round_2();
    assert_eq!(r.num, 1235);
    assert_eq!(r.den, 100);

    let neg = Ratio::new(-12345, 1000).round_2();
    assert_eq!(neg.num, -1235);
    assert_eq!(neg.den, 100);

    let four = Ratio::new(12345, 1000).round_4();
    assert_eq!(four.num, 123450);
    assert_eq!(four.den, 10000);

    let half_up = Ratio::new(5, 10).round_to(0);
    assert_eq!(half_up.num, 1);
    assert_eq!(half_up.den, 1);

    let half_down = Ratio::new(-5, 10).round_to(0);
    assert_eq!(half_down.num, -1);
    assert_eq!(half_down.den, 1);
}
