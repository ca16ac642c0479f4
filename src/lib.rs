//! Core of a real-time audio processing engine: the processing-unit contract,
//! deterministic structural hashing of unit graphs and block-size adapters.

pub mod hash;
pub mod unit;
pub mod adapter;
pub mod scope;
