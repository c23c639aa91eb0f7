//! Finds files with identical content: a bounded scan-hash-aggregate pipeline
//! whose decisions are verified, driven by an asynchronous runner outside.

pub mod gate;
pub mod aggregate;
pub mod fingerprint;
pub mod driver;
pub mod report;
pub mod discover;
