//! A small sample-stream synthesis engine: periodic tone tables, lazy
//! bidirectional sequence combinators (repeat, chain, crossfade), and a
//! real-time-safe buffer-fill routine for an audio output driver.
//!
//! Samples are fixed-point: an `i32` counts units of 2^-31 of full scale,
//! so full scale (1.0) is near `i32::MAX`.

pub mod engine;
pub mod repeater;
pub mod signal;
pub mod smoother;
pub mod tables;
pub mod ticker;
pub mod timer;
pub mod wave;
