//! The padding oracle of a victim that decrypts with AES-128 in CBC mode and
//! PKCS#7 padding, as the `aes` and `cbc` crates implement them.
use aes::cipher::block_padding::Pkcs7;
use aes::cipher::{BlockDecryptMut, KeyIvInit};
use vstd::prelude::*;
use crate::block::{valid_padding, xor_bytes, Block, BLOCK_SIZE};
use crate::correctness::faithful;
use crate::oracle::PaddingOracle;

verus! {

/// The AES-128 decryption of one block under `key`: the raw output of the
/// block cipher, before any chaining.
pub uninterp spec fn aes128_decrypt_block(key: Seq<u8>, block: Seq<u8>) -> Seq<u8>;

/// Decrypts the single block `block` with `cbc::Decryptor<aes::Aes128>` under
/// `key` and `iv` through `decrypt_padded_mut::<Pkcs7>` and reports whether
/// that call succeeded.
///
/// Trusted: CBC decryption of one block is the AES decryption of the block
/// XORed with the IV, and the PKCS#7 unpadding of a whole block succeeds
/// exactly when its last byte `k` lies in `1..=BLOCK_SIZE` and the last `k`
/// bytes all hold `k`.
#[verifier::external_body]
fn cbc_padding_accepted(key: &Block, iv: &Block, block: &Block) -> (ok: bool)
    ensures
        ok == valid_padding(xor_bytes(iv@, aes128_decrypt_block(key@, block@))),
{
    let mut buffer = *block;
    cbc::Decryptor::<aes::Aes128>::new(key.into(), iv.into())
        .decrypt_padded_mut::<Pkcs7>(&mut buffer)
        .is_ok()
}

/// A victim that holds an AES-128 key and leaks the validity of the padding.
pub struct Aes128CbcOracle {
    pub key: Block,
}

impl Aes128CbcOracle {
    /// An oracle for the victim that holds `key`.
    pub fn new(key: Block) -> (oracle: Self)
        ensures
            oracle.key == key,
    {
        Aes128CbcOracle { key }
    }

    /// The block decryption this oracle is faithful to: the first
    /// `BLOCK_SIZE` bytes of the AES-128 decryption under its key.
    pub open spec fn decryption(&self) -> spec_fn(Seq<u8>) -> Seq<u8> {
        |block: Seq<u8>|
            Seq::new(BLOCK_SIZE as nat, |i: int| aes128_decrypt_block(self.key@, block)[i])
    }

    /// The oracle answers truthfully for `decryption`, so everything that
    /// holds of the attack against a faithful oracle holds against this one.
    pub proof fn lemma_faithful(&self)
        ensures
            faithful(self.answers(), self.decryption()),
    {
        let answers = self.answers();
        let decrypt = self.decryption();
        assert forall|reference: Seq<u8>, target: Seq<u8>|
            reference.len() == BLOCK_SIZE && target.len() == BLOCK_SIZE implies #[trigger] answers(
            reference,
            target,
        ) == valid_padding(xor_bytes(reference, decrypt(target))) by {
            assert(xor_bytes(reference, decrypt(target)) =~= xor_bytes(
                reference,
                aes128_decrypt_block(self.key@, target),
            ));
        }
    }
}

impl PaddingOracle for Aes128CbcOracle {
    open spec fn answers(&self) -> spec_fn(Seq<u8>, Seq<u8>) -> bool {
        |reference: Seq<u8>, target: Seq<u8>|
            valid_padding(xor_bytes(reference, aes128_decrypt_block(self.key@, target)))
    }

    fn check(&mut self, reference: &Block, target: &Block) -> (ok: bool) {
        cbc_padding_accepted(&self.key, reference, target)
    }
}

} // verus!
