//! A toolkit for counting discrete symbolic events observed in text
//! processing and for deriving exact probability estimates from those
//! counts, together with the tokenizer and collection utilities that feed
//! such counts.
//!
//! The core of the crate is the [`probability`] module: a frequency
//! counter over arbitrary samples and a family of probability-distribution
//! abstractions that answer probability queries and support stochastic
//! generation from an externally supplied random draw.  Probabilities are
//! kept as exact rationals so that every numeric claim is provable.

pub mod collections;
pub mod internals;
pub mod probability;
pub mod tag;
pub mod text;
pub mod tokenize;
