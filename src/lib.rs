//! Biased coin flips, random walks built from them, and the frequency
//! distribution of where the walks end.

pub mod coin;
pub mod error;
pub mod walk;
pub mod histogram;
