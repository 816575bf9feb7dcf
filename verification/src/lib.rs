//! Identity primitives: a bit-exact chaos amplifier, a multi-hash smear,
//! the `spaghettify` one-way mixer, a constant-size keyring commitment and
//! the handle proof-of-work.

pub mod chaos_amp;
pub mod handle;
pub mod hashes;
pub mod keyring;
pub mod smear;
pub mod spaghettify;
pub mod wide;

pub use chaos_amp::{_round_consts_for_test, chaos_amp};
pub use handle::{handle_proof, handle_to_filename, handle_to_hash, handle_to_proof, proof_to_filename};
pub use smear::{smear_hash, smear_hash_parts};
pub use spaghettify::spaghettify;
