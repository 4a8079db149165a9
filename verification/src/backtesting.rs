//! The vocabulary of the backtesting layer built on top of the broker: the
//! metrics a strategy can evaluate, the measures a backtest can report, and
//! the kinds of signal a strategy emits. The numeric evaluation itself works
//! on floating-point prices and lives with the embedding application.

use vstd::prelude::*;

verus! {

/// A metric a strategy evaluates over a bar series; the moving average
/// carries its period in bars.
#[derive(Clone, Debug, PartialEq, Eq, Hash)]
pub enum BacktestingMetric {
    SMA(usize),
    EMA,
    RSI,
    MACD,
    DpRatio,
    Volatility,
    Volume,
}

/// A measure a backtest reports.
#[derive(Debug, PartialEq, Eq, Hash)]
pub enum BacktestingMeasure {
    NetProfit,
    TotalReturn,
    RiskAdjustedReturn,
}

/// The kind of signal a strategy emits at one bar.
#[derive(Clone, Copy, Debug, PartialEq, Eq, Hash, Structural)]
pub enum SignalType {
    Buy,
    Sell,
    Hold,
}

} // verus!
