//! Conversion strategies for encoding values into, and decoding them from,
//! wire representations that differ from their natural in-memory shape.
//!
//! The library models the host engine's primitive operations as a tree of
//! wire tokens ([`wire::Wire`]), natural values as a tree of plain values
//! ([`adapt::Value`]), and a conversion strategy as an explicit policy value
//! ([`adapt::Strategy`]) that propagates through optional values, sequences,
//! mappings and fixed-arity shapes. The two concrete scalar strategies are a
//! timestamp decoder that accepts integer, float-shaped and numeric-string
//! tokens ([`timestamp`]) and a duration-as-whole-seconds encoder family
//! ([`duration`]).

pub mod text;
pub mod wire;
pub mod timestamp;
pub mod duration;
pub mod adapt;
pub mod laws;
