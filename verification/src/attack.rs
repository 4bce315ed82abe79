//! The chain driver: runs the engine over every ciphertext block in CBC
//! order, XORs each intermediate value with its chaining block and strips the
//! padding of the recovered plaintext.
use vstd::prelude::*;
use crate::block::{xor_blocks, xor_bytes, Block, BLOCK_SIZE};
use crate::engine::{decrypt_block, intermediate_value};
use crate::error::AttackError;
use crate::oracle::PaddingOracle;

verus! {

/// A ciphertext the attack works on: a positive whole number of blocks.
pub open spec fn well_sized(ciphertext: Seq<u8>) -> bool {
    ciphertext.len() > 0 && ciphertext.len() % (BLOCK_SIZE as nat) == 0
}

/// Block `index` of the ciphertext.
pub open spec fn ciphertext_block(ciphertext: Seq<u8>, index: int) -> Seq<u8> {
    ciphertext.subrange(index * BLOCK_SIZE, (index + 1) * BLOCK_SIZE)
}

/// The block that CBC XORs into the decryption of block `index`: the IV for
/// the first block, the preceding ciphertext block for the others.
pub open spec fn chaining_block(iv: Seq<u8>, ciphertext: Seq<u8>, index: int) -> Seq<u8> {
    if index == 0 {
        iv
    } else {
        ciphertext_block(ciphertext, index - 1)
    }
}

/// The plaintext of block `index` as the engine recovers it.
pub open spec fn recovered_block(
    answers: spec_fn(Seq<u8>, Seq<u8>) -> bool,
    iv: Seq<u8>,
    ciphertext: Seq<u8>,
    index: int,
) -> Option<Seq<u8>> {
    let reference = chaining_block(iv, ciphertext, index);
    match intermediate_value(answers, reference, ciphertext_block(ciphertext, index)) {
        Some(value) => Some(xor_bytes(value, reference)),
        None => None,
    }
}

/// The recovered plaintext of the first `blocks` blocks, padding included, or
/// `None` when the engine fails on one of them.
pub open spec fn recovered_prefix(
    answers: spec_fn(Seq<u8>, Seq<u8>) -> bool,
    iv: Seq<u8>,
    ciphertext: Seq<u8>,
    blocks: nat,
) -> Option<Seq<u8>>
    decreases blocks,
{
    if blocks == 0 {
        Some(Seq::empty())
    } else {
        match recovered_prefix(answers, iv, ciphertext, (blocks - 1) as nat) {
            Some(prefix) => match recovered_block(answers, iv, ciphertext, blocks - 1) {
                Some(block) => Some(prefix + block),
                None => None,
            },
            None => None,
        }
    }
}

/// `padded` without its last `k` bytes, where `k` is its last byte; `None`
/// when `padded` is empty or shorter than `k`.
pub open spec fn stripped(padded: Seq<u8>) -> Option<Seq<u8>> {
    if padded.len() > 0 && padded.last() <= padded.len() {
        Some(padded.take(padded.len() - padded.last()))
    } else {
        None
    }
}

/// What the attack returns for an oracle with the given answers.
pub open spec fn attack_outcome(
    answers: spec_fn(Seq<u8>, Seq<u8>) -> bool,
    iv: Seq<u8>,
    ciphertext: Seq<u8>,
) -> Result<Seq<u8>, AttackError> {
    if !well_sized(ciphertext) {
        Err(AttackError::InvalidCiphertextLength)
    } else {
        match recovered_prefix(answers, iv, ciphertext, ciphertext.len() / (BLOCK_SIZE as nat)) {
            Some(padded) => match stripped(padded) {
                Some(plaintext) => Ok(plaintext),
                None => Err(AttackError::InvalidPadding),
            },
            None => Err(AttackError::OracleExhausted),
        }
    }
}

/// Copies block `index` out of the ciphertext.
pub fn block_at(ciphertext: &[u8], index: usize) -> (block: Block)
    requires
        (index + 1) * BLOCK_SIZE <= ciphertext@.len(),
    ensures
        block@ == ciphertext_block(ciphertext@, index as int),
{
    let len = ciphertext.len();
    assert((index + 1) * BLOCK_SIZE == index * BLOCK_SIZE + BLOCK_SIZE) by (nonlinear_arith);
    let start = index * BLOCK_SIZE;
    let mut block: Block = [0u8; BLOCK_SIZE];
    let mut j: usize = 0;
    while j < BLOCK_SIZE
        invariant
            j <= BLOCK_SIZE,
            start == index * BLOCK_SIZE,
            start + BLOCK_SIZE <= ciphertext@.len(),
            forall|k: int| 0 <= k < j ==> #[trigger] block@[k] == ciphertext@[start + k],
        decreases BLOCK_SIZE - j,
    {
        block[j] = ciphertext[start + j];
        j += 1;
    }
    assert(block@ =~= ciphertext_block(ciphertext@, index as int));
    block
}

/// Removes the padding that the last byte announces.
pub fn strip_padding(padded: Vec<u8>) -> (outcome: Result<Vec<u8>, AttackError>)
    ensures
        match stripped(padded@) {
            Some(plaintext) => outcome matches Ok(bytes) && bytes@ == plaintext,
            None => outcome == Err::<Vec<u8>, AttackError>(AttackError::InvalidPadding),
        },
{
    let mut plaintext = padded;
    let len = plaintext.len();
    if len == 0 {
        return Err(AttackError::InvalidPadding);
    }
    let count = plaintext[len - 1] as usize;
    if count > len {
        return Err(AttackError::InvalidPadding);
    }
    plaintext.truncate(len - count);
    assert(plaintext@ =~= padded@.take(len - count));
    Ok(plaintext)
}

/// The padding-oracle attack on CBC mode.
///
/// Given only the IV, the ciphertext and a padding oracle, recovers the
/// plaintext block by block and strips its padding.  A ciphertext that is
/// empty or not a whole number of blocks is turned down before the oracle is
/// touched.
pub fn attack<O: PaddingOracle>(oracle: &mut O, iv: &Block, ciphertext: &[u8]) -> (outcome: Result<
    Vec<u8>,
    AttackError,
>)
    ensures
        final(oracle).answers() == old(oracle).answers(),
        !well_sized(ciphertext@) ==> *final(oracle) == *old(oracle),
        match attack_outcome(old(oracle).answers(), iv@, ciphertext@) {
            Ok(plaintext) => outcome matches Ok(bytes) && bytes@ == plaintext,
            Err(error) => outcome == Err::<Vec<u8>, AttackError>(error),
        },
{
    let len = ciphertext.len();
    if len == 0 || len % BLOCK_SIZE != 0 {
        return Err(AttackError::InvalidCiphertextLength);
    }
    let blocks = len / BLOCK_SIZE;
    let ghost answers = oracle.answers();
    let mut padded: Vec<u8> = Vec::new();
    let mut reference: Block = *iv;
    let mut index: usize = 0;
    while index < blocks
        invariant
            index <= blocks,
            blocks == ciphertext@.len() / (BLOCK_SIZE as nat),
            blocks * BLOCK_SIZE == ciphertext@.len(),
            oracle.answers() == answers,
            answers == old(oracle).answers(),
            reference@ == chaining_block(iv@, ciphertext@, index as int),
            recovered_prefix(answers, iv@, ciphertext@, index as nat) == Some(padded@),
        decreases blocks - index,
    {
        assert((index + 1) * BLOCK_SIZE <= blocks * BLOCK_SIZE) by (nonlinear_arith)
            requires
                index < blocks,
        ;
        let target = block_at(ciphertext, index);
        let value = match decrypt_block(oracle, &reference, &target) {
            Ok(value) => value,
            Err(error) => {
                proof {
                    lemma_prefix_failure_is_final(
                        answers,
                        iv@,
                        ciphertext@,
                        (index + 1) as nat,
                        blocks as nat,
                    );
                }
                return Err(error);
            },
        };
        let plain = xor_blocks(&value, &reference);
        let ghost before = padded@;
        let mut j: usize = 0;
        while j < BLOCK_SIZE
            invariant
                j <= BLOCK_SIZE,
                padded@ == before + plain@.take(j as int),
            decreases BLOCK_SIZE - j,
        {
            padded.push(plain[j]);
            assert(padded@ =~= before + plain@.take(j + 1));
            j += 1;
        }
        assert(plain@.take(BLOCK_SIZE as int) =~= plain@);
        reference = target;
        index += 1;
    }
    strip_padding(padded)
}

/// Once the engine has failed on a block, no longer prefix is recovered.
pub proof fn lemma_prefix_failure_is_final(
    answers: spec_fn(Seq<u8>, Seq<u8>) -> bool,
    iv: Seq<u8>,
    ciphertext: Seq<u8>,
    failed: nat,
    blocks: nat,
)
    requires
        recovered_prefix(answers, iv, ciphertext, failed) is None,
        failed <= blocks,
    ensures
        recovered_prefix(answers, iv, ciphertext, blocks) is None,
    decreases blocks,
{
    if blocks > failed {
        lemma_prefix_failure_is_final(answers, iv, ciphertext, failed, (blocks - 1) as nat);
    }
}

} // verus!
