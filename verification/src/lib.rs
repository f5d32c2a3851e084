//! Brute-force search for a secp256k1 key pair whose checksum-encoded address
//! begins with an operator-chosen vanity prefix.
//!
//! The library is organised around four components:
//! - [`encoding`]: the Bech32 address format — five-bit regrouping, the
//!   32-symbol alphabet, the polymod checksum, and a verified
//!   encode/decode round trip.
//! - [`keys`]: key generation and identifier derivation (the outside
//!   cryptography stands behind narrow trusted wrappers), plus the
//!   66-byte extended-key record.
//! - [`state`]: the process-wide search state shared by all workers, with a
//!   sequential model of its operations and the proofs that the found flag
//!   is claimed at most once and the attempt counter never decreases.
//! - [`search`]: target validation, the per-worker search loop, and the
//!   thread-count and search-size calculations.

pub mod encoding;
pub mod keys;
pub mod search;
pub mod state;
