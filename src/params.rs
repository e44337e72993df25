//! The fixed parameter set of the scheme.
use vstd::prelude::*;

verus! {

/// Degree of the ring: polynomials have this many coefficients.
pub const N: usize = 1024;

/// The prime modulus.
pub const Q: usize = 12289;

/// Bytes of a serialized polynomial: 14 bits for each coefficient.
pub const POLY_BYTES: usize = 1792;

/// Bytes of the seed from which the public polynomial is expanded.
pub const SEEDBYTES: usize = 32;

/// Bytes of a serialized reconciliation helper: 2 bits for each coefficient.
pub const RECBYTES: usize = 256;

/// Bytes of the initiator's message: public polynomial, then seed.
pub const SENDABYTES: usize = 1824;

/// Bytes of the responder's message: public polynomial, then helper.
pub const SENDBBYTES: usize = 2048;

} // verus!
