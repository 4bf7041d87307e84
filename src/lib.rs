//! Per-buffer processing for a capture stream that forwards 32-bit float
//! samples to a serial peripheral bus and drives a text level meter.
//!
//! Samples are handled through their IEEE-754 bit patterns: the magnitude of
//! a finite float grows with the integer value of its non-sign bits, so peaks
//! and meter positions are computed and proved with integer arithmetic alone.
pub mod sample;
pub mod meter;
pub mod stream;
pub mod format;
pub mod session;
