//! Solving Learning Parity with Noise over GF(2): samples and their oracle;
//! the BKW partition reduction and its majority solver; small binary codes
//! with syndrome decoding, alone or side by side, for covering-code
//! reduction; sparse-secret reduction; and Gaussian elimination with the
//! pooled solver built on it.
pub mod bits;
pub mod vector;
pub mod oracle;
pub mod code;
pub mod guava;
pub mod concat;
pub mod covering;
pub mod bkw;
pub mod gauss;
pub mod sparse;
