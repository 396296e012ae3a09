//! Verified decision core of a 2-D centroid clustering tool.
//!
//! Every number that crosses this crate's boundary is an IEEE 754 binary64
//! value given by its 64-bit pattern (what `to_bits` returns). The crate
//! classifies, orders and selects such values, and drives the convergence
//! loop; it never does arithmetic on them.

pub mod bounds;
pub mod convergence;
pub mod csv;
pub mod error;
pub mod ieee;
pub mod membership;
pub mod select;
pub mod vector;
