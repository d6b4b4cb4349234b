//! Somewhat homomorphic encryption over a pairing-friendly group triple.
//!
//! Group arithmetic is consumed through the traits of [`engine`]; every group
//! element is modelled by its discrete logarithm to the group's base, an
//! integer below the common prime order.
pub mod types;
pub mod engine;
pub mod dlog;
pub mod exponent;
pub mod keys;
pub mod plain;
pub mod cipher_g1;
pub mod cipher_g2;
pub mod cipher_gt;
pub mod laws;
