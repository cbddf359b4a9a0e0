//! Descriptive statistics and regression over exact rational samples.
//!
//! The crate computes weighted medians and percentiles over clustered
//! samples, sample standard deviation, ordinary-least-squares polynomial
//! fits, the robust Theil-Sen linear estimator, log-linearized power and
//! exponential fits, and a heuristic best-fit selector.  All values are
//! exact rationals (`rational::Rational`); callers that live in floating
//! point convert at the boundary and supply the few transcendental values
//! (base-2 logarithms and powers of two) the log-linearized fits need.

use vstd::prelude::*;

pub mod cluster;
pub mod percentile;
pub mod rational;
pub mod regression;
pub mod render;
pub mod stats;

pub use cluster::{Cluster, ClusterList, OwnedClusterList};
pub use percentile::{median, percentile, percentile_rand, Fraction, MeanValue};
pub use rational::Rational;
pub use regression::best_fit_ols as regression_best_fit;
pub use stats::{
    mean_cluster, percentiles_cluster, standard_deviation_cluster, PercentilesOutput,
    StandardDeviationOutput,
};
