//! An engine that tests a predicate on generated cases: it searches a
//! stream of cases for one that the predicate fails on, and then reduces
//! that case to a simpler one that fails as well.
//!
//! [`verify`] runs a campaign: it pulls cases from a [`Strategy`], hands each
//! to a trial, and on the first failure calls [`shrink_case`], the search
//! for a simpler failing case. Generators of cases are in [`gen`], their
//! source of randomness in [`rng`]. How a type shrinks and scores itself is
//! said by [`Shrink`], how a predicate's result tells success from failure
//! by [`TestResult`].

pub mod campaign;
pub mod frontier;
pub mod gen;
pub mod harness;
pub mod rng;
pub mod search;
pub mod shrink;
pub mod strategy;
pub mod traits;

pub use campaign::Verdict;
pub use campaign::verify;
pub use campaign::verify_within;
pub use campaign::NUM_TESTS;
pub use frontier::Frontier;
pub use frontier::Scored;
pub use gen::Gen;
pub use harness::TrialOutcome;
pub use harness::classify;
pub use harness::run_case;
pub use rng::Rng;
pub use search::Reduction;
pub use search::Search;
pub use search::shrink_case;
pub use search::shrink_within;
pub use search::SHRINK_BUDGET;
pub use strategy::Listed;
pub use strategy::Strategy;
pub use strategy::listed;
pub use traits::Case;
pub use traits::Shrink;
pub use traits::TestResult;
