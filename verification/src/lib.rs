//! Detection of bubbles in price series by the log-periodic power law
//! singularity model, and backtests of strategies that trade on it.
//!
//! A run fetches the prices of its universes (`clickhouse_mod`), fits the model
//! over nested windows of each series (`nested_fits`, `argmin_mod`), turns the
//! fits into a confidence and a residual for each date (`indicators`,
//! `residuals`), trades on those (`signals`, `strategies`, `trades`,
//! `backtester`), and reports and scores the results (`reports`, `scores`).
//! `pipeline` and `paths` say what a run covers and where its files lie.
//!
//! Prices, costs and confidences are binary64 numbers, held by their bits
//! (`double`). The library compares, selects and clamps them; it never rounds.
//! What has to be computed of them in between is handed in by the caller.
use vstd::prelude::*;

pub mod argmin_mod;
pub mod backtester;
pub mod batches;
pub mod clickhouse_mod;
pub mod cmaes_mod;
pub mod dates;
pub mod double;
pub mod groups;
pub mod indicators;
pub mod joins;
pub mod nested_fits;
pub mod paths;
pub mod pipeline;
pub mod reports;
pub mod residuals;
pub mod scores;
pub mod signals;
pub mod sorting;
pub mod strategies;
pub mod text;
pub mod trades;

pub use crate::argmin_mod::fit_argmin;
pub use crate::dates::{ce_to_date, date_to_ce, ordinal_to_date};
pub use crate::indicators::compute_indicators;
pub use crate::nested_fits::{compute_nested_fits, FitResult};
pub use crate::pipeline::{
    backtest_helper, delete_all_files_in_folder, fits_helper, read_price_file,
};
pub use crate::residuals::{compute_residual_indicator, RESIDUAL_BURN_IN};
pub use crate::scores::score;
pub use crate::strategies::run_backtests;

verus! {

} // verus!
