//! Verified building blocks for classic cryptanalytic attacks.
//!
//! * [`attack`] is a padding-oracle attack on CBC mode.  Its [`engine`]
//!   recovers the raw block-cipher output of one ciphertext block by asking a
//!   [`oracle::PaddingOracle`]; [`correctness`] proves that against a
//!   truthful oracle the attack returns exactly the encrypted message.
//! * [`primality`] is the Miller-Rabin test with a search for random primes.
//! * [`discrete_log`] is Shanks' baby-step giant-step algorithm.
//! * [`birthday`] searches collisions among truncated hashes and random
//!   values.
//! * [`timing`] models a device whose square-and-multiply leaks its exponent
//!   through its running time.
//! * [`key_recovery`] extracts an Ed25519 secret scalar from two signatures
//!   that share a nonce.
//!
//! Outside crates do the cryptography and the big-number arithmetic.  Every
//! call into them stands in a small function marked
//! `#[verifier::external_body]`, whose contract is taken on trust; all other
//! code is verified against those contracts.
pub mod block;
pub mod error;
pub mod oracle;
pub mod engine;
pub mod attack;
pub mod correctness;
pub mod aes_oracle;
pub mod natural;
pub mod primality;
pub mod discrete_log;
pub mod birthday;
pub mod timing;
pub mod key_recovery;
