//! Integer core of the WORLD speech analysis/synthesis toolkit: sizes,
//! voiced-section bookkeeping, pseudo-random generator state, rate reduction
//! and index planning for the polyphase resampler, and input validation.
//! Every function here is verified; the signal processing itself, which is
//! floating point throughout, is built on top of these pieces.

pub mod common;
pub mod dio;
pub mod fft;
pub mod harvest;
pub mod matlab;
pub mod resample;
pub mod stonemask;
pub mod synthesis;

