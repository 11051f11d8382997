//! Locate the first occurrence of a byte pattern (a "signature" with
//! wildcard positions) inside a byte buffer.
//!
//! A signature is parsed from whitespace-separated tokens, each either a
//! two-hex-digit byte or the wildcard token `??`, and then slid across a
//! buffer to find the first offset at which every exact-byte constraint
//! holds.

pub mod scan;
pub mod signature;

pub use crate::scan::sig_scan_data;
pub use crate::signature::Signature;
