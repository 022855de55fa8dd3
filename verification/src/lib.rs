//! Micro-benchmark library for timing linear search over randomly filled
//! integer arrays of increasing size, under three value-distribution shapes,
//! together with the text serialization of the measured sequences.

pub mod clock;
pub mod codec;
pub mod dist;
pub mod output;
pub mod rng;
pub mod search;
pub mod sweep;
