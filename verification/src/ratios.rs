//! The risk metrics layer: the market risk coefficient Beta and the
//! risk-adjusted-return ratio Sharpe, built on the statistics layer.

pub mod risk_metrics;
