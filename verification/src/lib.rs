//! Reduction of a decoded audio sample stream into a compact waveform
//! preview: a fixed number of quantized peak-amplitude buckets, encoded
//! as text for transport across the host boundary.

pub mod encode;
pub mod error;
pub mod formats;
pub mod laws;
pub mod plan;
pub mod reduce;
