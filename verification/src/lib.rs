//! A small library of descriptive statistics and financial risk formulas:
//! arithmetic mean, variance, covariance, standard deviation, the market
//! risk coefficient Beta, and the risk-adjusted-return ratio Sharpe.
//!
//! Every quantity is an exact rational (see [`Ratio`]): a series holds
//! integer values over one positive scale denominator, and each formula's
//! contract states the exact rational it returns.

pub mod numbers;
pub mod prelude;
pub mod ratios;

pub use numbers::Ratio;
pub use prelude::Series;
pub use prelude::covariance;
pub use prelude::mean;
pub use prelude::standard_deviation;
pub use prelude::variance;
pub use ratios::risk_metrics::Beta;
pub use ratios::risk_metrics::sharpe;
pub use ratios::risk_metrics::sharpe_summary;
