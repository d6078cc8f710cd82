//! A DRAM stress-and-validation engine: deterministic bit patterns are swept
//! over a word buffer chunk by chunk, read back, and every differing byte is
//! accounted for.

pub mod xorshift;
pub mod catalog;
pub mod config;
pub mod hardware;
pub mod pattern;
pub mod sweep;
pub mod kernel;
pub mod run;
