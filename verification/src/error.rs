//! Failures of the attack.
use vstd::prelude::*;

verus! {

/// Why an attack stopped without a plaintext.
#[derive(Clone, Copy, Debug, PartialEq, Eq, Structural)]
pub enum AttackError {
    /// In some round none of the 256 candidate bytes was accepted: the oracle
    /// does not behave like a padding oracle.
    OracleExhausted,
    /// The ciphertext is empty or not a whole number of blocks.
    InvalidCiphertextLength,
    /// The last recovered byte names more padding bytes than were recovered.
    InvalidPadding,
}

} // verus!
