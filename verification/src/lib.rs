//! Seed-keyed image steganography on a pseudo-random substitution matrix.
//!
//! A payload byte string is turned into a stream of base-9 digits with a
//! fixed-width length prefix, and each digit is hidden in the red channels of
//! a pair of pixels: the pair's original red values are perturbed to nearby
//! coordinates of a 256-column substitution matrix whose cell holds the
//! digit. The matrix is derived deterministically from a 64-bit seed, so the
//! same seed recovers the payload.

pub mod pixel;
pub mod random_matrix;
pub mod rng;
pub mod steganography;

use vstd::prelude::*;

verus! {

/// Why an embed or extract operation was refused.
#[derive(Debug, PartialEq, Eq, Structural, Clone, Copy)]
pub enum StegError {
    /// The payload's digit stream does not fit in the carrier.
    CapacityExceeded,
    /// The extracted bytes are not valid UTF-8 text.
    MalformedPayload,
}

} // verus!
