//! A variable-round Feistel network over byte strings of any length.
//!
//! The construction has three layers. The round function is a keyed,
//! length-adapting pseudorandom function built on SHA3-256. The key schedule
//! derives one subkey per round from the master key. The engine splits the
//! input into two halves, runs the rounds and recombines the halves; running
//! it with the schedule reversed undoes it, which `inverse` proves.
//!
//! Everything here is verified except the call into the `sha3` crate in
//! `round_function`: the digest is taken on trust as a function of the hashed
//! bytes, 32 bytes long.
//!
//! This is an illustration of the Feistel structure, not a vetted cipher.

pub mod bits;
pub mod engine;
pub mod inverse;
pub mod key_schedule;
pub mod le_bytes;
pub mod round_function;

pub use engine::feistel_decrypt;
pub use engine::feistel_encrypt;
