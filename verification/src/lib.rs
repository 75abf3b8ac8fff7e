//! Verified demonstration routines for a web page: a 2D particle
//! simulation, image filters, hashes and toy ciphers.
//!
//! All arithmetic on real numbers is IEEE 754 single-precision arithmetic,
//! carried out on bit patterns: [`single`] holds the numbers and their
//! order, [`rounding`] the rounding to nearest, [`arith`], [`root`] and
//! [`convert`] the operations. [`particle`] and [`system`] are the
//! simulation, [`laws`] what holds of its steps.

pub mod arith;
pub mod cipher;
pub mod convert;
pub mod digest;
pub mod hashing;
pub mod image;
pub mod laws;
pub mod numeric;
pub mod particle;
pub mod root;
pub mod rounding;
pub mod single;
pub mod system;
pub mod text;
