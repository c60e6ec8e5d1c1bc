//! Tagger utilities.

pub mod util;
