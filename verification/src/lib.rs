#![allow(unused_imports)]
//! Arbitrary-precision integers of a fixed bit width, with two's-complement
//! semantics, stored as little-endian 64-bit limbs.
pub mod detail;
pub mod integral;
