//! Win-probability estimation for competitors in a recurring multi-round
//! event, from their historical per-round scores.
//!
//! Each competitor's history induces an empirical score distribution
//! ([`player`]); the estimator draws random opponent subsets and averages
//! the exact single-draw win probabilities ([`estimator`]); an optional,
//! expensive pass computes the exact sampling variance and covariance of
//! the estimate and a normal-approximation confidence interval
//! ([`variance`]). All probabilities are exact rationals ([`rational`])
//! over arbitrary-precision naturals ([`bignat`]); [`parse`] reads score
//! tables and [`season`] names them.

pub mod bignat;
pub mod rational;
pub mod player;
pub mod estimator;
pub mod variance;
pub mod parse;
pub mod season;
