//! Data model of a KZG10-style pairing-based polynomial commitment scheme:
//! the trusted-setup parameters, the commitment, randomness and proof value
//! types, their homomorphic combination operators, and a canonical byte
//! encoding with a verified round trip.
//!
//! The finite-field and curve arithmetic itself is out of scope: every
//! structure is generic over an engine trait that supplies the group and
//! scalar operations together with the algebraic laws the contracts here
//! rest on.

pub mod bytes;
pub mod data_structures;
pub mod engine;
pub mod errors;
pub mod poly;
pub mod toy;
