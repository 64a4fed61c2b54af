//! Lazy, pull-based sequences: a one-operation protocol (`advance`), producers
//! that implement it, adapters that transform sequences while keeping the
//! protocol, and reducers that drive a sequence to a final value.

pub mod protocol;
pub mod producers;
pub mod adapters;
pub mod transforms;
pub mod reducers;
pub mod extrema;
pub mod laws;
