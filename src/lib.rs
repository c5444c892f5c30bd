//! Parses signed decimal literals such as `-99084.566` into a packed
//! binary-coded-decimal record: a sign tag, a count of fractional digits,
//! and the digits packed two per byte, least-significant pair first.

pub mod model;
pub mod decimal;
pub mod laws;

pub use decimal::{Decimal, Signature};
