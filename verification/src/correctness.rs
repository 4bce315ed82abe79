//! Why the attack works: against an oracle that answers truthfully for some
//! block cipher, the engine recovers exactly the cipher's raw output, and the
//! attack returns exactly the message that was encrypted.
use vstd::prelude::*;
use crate::attack::{
    attack_outcome,
    chaining_block,
    ciphertext_block,
    recovered_block,
    recovered_prefix,
    stripped,
    well_sized,
};
use crate::block::{valid_padding, xor_bytes, BLOCK_SIZE};
use crate::engine::{
    accepted,
    after_round,
    after_rounds,
    first_accepted,
    flip_neighbour,
    intermediate_value,
    is_first_accepted,
    probe,
    retarget,
};

verus! {

/// `answers` is the padding oracle of a victim whose block cipher decrypts
/// with `decrypt`: it validates a pair of blocks exactly when the reference
/// XORed with the decryption of the target is validly padded.
pub open spec fn faithful(
    answers: spec_fn(Seq<u8>, Seq<u8>) -> bool,
    decrypt: spec_fn(Seq<u8>) -> Seq<u8>,
) -> bool {
    &&& forall|target: Seq<u8>|
        target.len() == BLOCK_SIZE ==> (#[trigger] decrypt(target)).len() == BLOCK_SIZE
    &&& forall|reference: Seq<u8>, target: Seq<u8>|
        reference.len() == BLOCK_SIZE && target.len() == BLOCK_SIZE ==> #[trigger] answers(
            reference,
            target,
        ) == valid_padding(xor_bytes(reference, decrypt(target)))
}

proof fn lemma_xor_cancel(a: u8, b: u8)
    by (bit_vector)
    ensures
        (a ^ b) ^ b == a,
        (a ^ b) ^ a == b,
{
}

proof fn lemma_xor_solve(c: u8, d: u8, p: u8)
    by (bit_vector)
    ensures
        (c ^ d == p) <==> (c == d ^ p),
{
}

proof fn lemma_xor_flip(a: u8, b: u8)
    by (bit_vector)
    ensures
        (a ^ 1u8) ^ b != a ^ b,
{
}

/// Against a faithful oracle, with the crafted tail forcing the plaintext
/// bytes behind the working position to `pad`, a round accepts exactly one
/// candidate: the intermediate byte XOR `pad`.
pub proof fn lemma_accepted_candidate(
    answers: spec_fn(Seq<u8>, Seq<u8>) -> bool,
    decrypt: spec_fn(Seq<u8>) -> Seq<u8>,
    crafted: Seq<u8>,
    target: Seq<u8>,
    pad: int,
    candidate: u8,
)
    requires
        faithful(answers, decrypt),
        crafted.len() == BLOCK_SIZE,
        target.len() == BLOCK_SIZE,
        1 <= pad <= BLOCK_SIZE,
        forall|j: int|
            BLOCK_SIZE - pad < j < BLOCK_SIZE ==> crafted[j] == decrypt(target)[j] ^ (pad as u8),
    ensures
        accepted(answers, crafted, target, pad, candidate) <==> candidate == decrypt(
            target,
        )[BLOCK_SIZE - pad] ^ (pad as u8),
{
    let value = decrypt(target);
    let position = BLOCK_SIZE - pad;
    let probed = probe(crafted, pad, candidate);
    let plain = xor_bytes(probed, value);
    assert(answers(probed, target) == valid_padding(plain));
    assert forall|j: int| position < j < BLOCK_SIZE implies plain[j] == pad as u8 by {
        lemma_xor_cancel(value[j], pad as u8);
    }
    assert(plain[position] == candidate ^ value[position]);
    lemma_xor_solve(candidate, value[position], pad as u8);
    if pad >= 2 {
        assert(plain.last() == plain[BLOCK_SIZE - 1]);
        if plain[position] == pad as u8 {
            assert(valid_padding(plain));
        }
        if valid_padding(plain) {
            assert(plain[position] == plain.last());
        }
    } else {
        let flipped = flip_neighbour(probed);
        let other = xor_bytes(flipped, value);
        assert(answers(flipped, target) == valid_padding(other));
        assert(other.last() == plain.last());
        assert(plain.last() == plain[position]);
        lemma_xor_flip(probed[BLOCK_SIZE - 2], value[BLOCK_SIZE - 2]);
        assert(other[BLOCK_SIZE - 2] != plain[BLOCK_SIZE - 2]);
        if plain[position] == 1u8 {
            assert(valid_padding(plain));
            assert(valid_padding(other));
        }
        if valid_padding(plain) && valid_padding(other) {
            if plain.last() != 1u8 {
                assert(plain[BLOCK_SIZE - 2] == plain.last());
                assert(other[BLOCK_SIZE - 2] == other.last());
            }
        }
    }
}

/// Under the conditions of `lemma_accepted_candidate` the round finds the
/// intermediate byte XOR `pad`.
pub proof fn lemma_round_finds_byte(
    answers: spec_fn(Seq<u8>, Seq<u8>) -> bool,
    decrypt: spec_fn(Seq<u8>) -> Seq<u8>,
    crafted: Seq<u8>,
    target: Seq<u8>,
    pad: int,
)
    requires
        faithful(answers, decrypt),
        crafted.len() == BLOCK_SIZE,
        target.len() == BLOCK_SIZE,
        1 <= pad <= BLOCK_SIZE,
        forall|j: int|
            BLOCK_SIZE - pad < j < BLOCK_SIZE ==> crafted[j] == decrypt(target)[j] ^ (pad as u8),
    ensures
        first_accepted(answers, crafted, target, pad) == Some(
            decrypt(target)[BLOCK_SIZE - pad] ^ (pad as u8),
        ),
{
    let byte = decrypt(target)[BLOCK_SIZE - pad] ^ (pad as u8);
    assert forall|c: u8| accepted(answers, crafted, target, pad, c) <==> c == byte by {
        lemma_accepted_candidate(answers, decrypt, crafted, target, pad, c);
    }
    assert(is_first_accepted(answers, crafted, target, pad, byte));
    let chosen = choose|c: u8| is_first_accepted(answers, crafted, target, pad, c);
    assert(accepted(answers, crafted, target, pad, chosen));
}

/// The rounds `1..=rounds` against a faithful oracle all succeed; afterwards
/// the bytes from position `BLOCK_SIZE - rounds` on are recovered and the
/// crafted block forces the plaintext there to `rounds + 1`.
pub proof fn lemma_rounds_recover(
    answers: spec_fn(Seq<u8>, Seq<u8>) -> bool,
    decrypt: spec_fn(Seq<u8>) -> Seq<u8>,
    reference: Seq<u8>,
    target: Seq<u8>,
    rounds: nat,
)
    requires
        faithful(answers, decrypt),
        reference.len() == BLOCK_SIZE,
        target.len() == BLOCK_SIZE,
        rounds <= BLOCK_SIZE,
    ensures
        after_rounds(answers, reference, target, rounds) matches Some((crafted, intermediate))
            && crafted.len() == BLOCK_SIZE && intermediate.len() == BLOCK_SIZE && forall|j: int|
            BLOCK_SIZE - rounds <= j < BLOCK_SIZE ==> intermediate[j] == decrypt(target)[j]
                && crafted[j] == decrypt(target)[j] ^ ((rounds + 1) as u8),
    decreases rounds,
{
    if rounds > 0 {
        lemma_rounds_recover(answers, decrypt, reference, target, (rounds - 1) as nat);
        let (crafted, intermediate) = after_rounds(
            answers,
            reference,
            target,
            (rounds - 1) as nat,
        )->0;
        let pad = rounds as int;
        let value = decrypt(target);
        lemma_round_finds_byte(answers, decrypt, crafted, target, pad);
        let byte = value[BLOCK_SIZE - pad] ^ (pad as u8);
        lemma_xor_cancel(value[BLOCK_SIZE - pad], pad as u8);
        let known = intermediate.update(BLOCK_SIZE - pad, byte ^ (pad as u8));
        assert(after_round(answers, crafted, intermediate, target, pad) == Some(
            (retarget(crafted, known, pad), known),
        ));
    }
}

/// Against a faithful oracle the engine recovers the raw decryption of the
/// target block, whatever the reference block is.
pub proof fn lemma_engine_recovers_decryption(
    answers: spec_fn(Seq<u8>, Seq<u8>) -> bool,
    decrypt: spec_fn(Seq<u8>) -> Seq<u8>,
    reference: Seq<u8>,
    target: Seq<u8>,
)
    requires
        faithful(answers, decrypt),
        reference.len() == BLOCK_SIZE,
        target.len() == BLOCK_SIZE,
    ensures
        intermediate_value(answers, reference, target) == Some(decrypt(target)),
{
    lemma_rounds_recover(answers, decrypt, reference, target, BLOCK_SIZE as nat);
    let (_, intermediate) = after_rounds(answers, reference, target, BLOCK_SIZE as nat)->0;
    assert(intermediate =~= decrypt(target));
}

/// After any successful round `pad`, every crafted byte from position
/// `BLOCK_SIZE - pad` on equals the intermediate byte recovered there XOR
/// `pad + 1`.  This holds for every oracle.
pub proof fn lemma_crafted_tail(
    answers: spec_fn(Seq<u8>, Seq<u8>) -> bool,
    reference: Seq<u8>,
    target: Seq<u8>,
    pad: nat,
)
    requires
        reference.len() == BLOCK_SIZE,
        1 <= pad <= BLOCK_SIZE,
        after_rounds(answers, reference, target, pad) is Some,
    ensures
        ({
            let (crafted, intermediate) = after_rounds(answers, reference, target, pad)->0;
            forall|j: int|
                BLOCK_SIZE - pad <= j < BLOCK_SIZE ==> crafted[j] == intermediate[j] ^ ((pad
                    + 1) as u8)
        }),
{
    lemma_rounds_keep_length(answers, reference, target, (pad - 1) as nat);
}

/// The crafted block keeps the length of the reference block.
pub proof fn lemma_rounds_keep_length(
    answers: spec_fn(Seq<u8>, Seq<u8>) -> bool,
    reference: Seq<u8>,
    target: Seq<u8>,
    rounds: nat,
)
    requires
        rounds <= BLOCK_SIZE,
    ensures
        after_rounds(answers, reference, target, rounds) matches Some((crafted, intermediate))
            ==> crafted.len() == reference.len() && intermediate.len() == BLOCK_SIZE,
    decreases rounds,
{
    if rounds > 0 {
        lemma_rounds_keep_length(answers, reference, target, (rounds - 1) as nat);
    }
}

/// CBC decryption of the first `blocks` blocks with the block decryption
/// `decrypt`: each block is decrypted and XORed with its chaining block.
pub open spec fn cbc_decrypt(
    decrypt: spec_fn(Seq<u8>) -> Seq<u8>,
    iv: Seq<u8>,
    ciphertext: Seq<u8>,
    blocks: nat,
) -> Seq<u8>
    decreases blocks,
{
    if blocks == 0 {
        Seq::empty()
    } else {
        cbc_decrypt(decrypt, iv, ciphertext, (blocks - 1) as nat) + xor_bytes(
            decrypt(ciphertext_block(ciphertext, blocks - 1)),
            chaining_block(iv, ciphertext, blocks - 1),
        )
    }
}

/// Against a faithful oracle the recovered blocks are the CBC decryption.
pub proof fn lemma_prefix_is_cbc_decryption(
    answers: spec_fn(Seq<u8>, Seq<u8>) -> bool,
    decrypt: spec_fn(Seq<u8>) -> Seq<u8>,
    iv: Seq<u8>,
    ciphertext: Seq<u8>,
    blocks: nat,
)
    requires
        faithful(answers, decrypt),
        iv.len() == BLOCK_SIZE,
        blocks * BLOCK_SIZE <= ciphertext.len(),
    ensures
        recovered_prefix(answers, iv, ciphertext, blocks) == Some(
            cbc_decrypt(decrypt, iv, ciphertext, blocks),
        ),
    decreases blocks,
{
    if blocks > 0 {
        lemma_prefix_is_cbc_decryption(answers, decrypt, iv, ciphertext, (blocks - 1) as nat);
        let index = blocks - 1;
        assert(index * BLOCK_SIZE + BLOCK_SIZE == blocks * BLOCK_SIZE) by (nonlinear_arith)
            requires
                index == blocks - 1,
        ;
        assert(index > 0 ==> (index - 1) * BLOCK_SIZE + BLOCK_SIZE == index * BLOCK_SIZE)
            by (nonlinear_arith);
        assert(0 <= index * BLOCK_SIZE) by (nonlinear_arith)
            requires
                index >= 0,
        ;
        let target = ciphertext_block(ciphertext, index);
        let reference = chaining_block(iv, ciphertext, index);
        assert(target.len() == BLOCK_SIZE);
        assert(reference.len() == BLOCK_SIZE);
        lemma_engine_recovers_decryption(answers, decrypt, reference, target);
        assert(recovered_block(answers, iv, ciphertext, index) == Some(
            xor_bytes(decrypt(target), reference),
        ));
    }
}

/// Against a faithful oracle the attack returns the CBC decryption of the
/// ciphertext with its padding stripped.
pub proof fn lemma_attack_decrypts(
    answers: spec_fn(Seq<u8>, Seq<u8>) -> bool,
    decrypt: spec_fn(Seq<u8>) -> Seq<u8>,
    iv: Seq<u8>,
    ciphertext: Seq<u8>,
)
    requires
        faithful(answers, decrypt),
        iv.len() == BLOCK_SIZE,
        well_sized(ciphertext),
    ensures
        attack_outcome(answers, iv, ciphertext) == match stripped(
            cbc_decrypt(decrypt, iv, ciphertext, ciphertext.len() / (BLOCK_SIZE as nat)),
        ) {
            Some(plaintext) => Ok::<Seq<u8>, crate::error::AttackError>(plaintext),
            None => Err(crate::error::AttackError::InvalidPadding),
        },
{
    lemma_prefix_is_cbc_decryption(
        answers,
        decrypt,
        iv,
        ciphertext,
        ciphertext.len() / (BLOCK_SIZE as nat),
    );
}

/// `encrypt` and `decrypt` are the two directions of one block cipher under
/// one key: blocks go to blocks, and decrypting undoes encrypting.
pub open spec fn block_cipher(
    encrypt: spec_fn(Seq<u8>) -> Seq<u8>,
    decrypt: spec_fn(Seq<u8>) -> Seq<u8>,
) -> bool {
    forall|block: Seq<u8>|
        block.len() == BLOCK_SIZE ==> (#[trigger] encrypt(block)).len() == BLOCK_SIZE && decrypt(
            encrypt(block),
        ) == block
}

/// PKCS#7 padding: `k` bytes of value `k` bring the message to a whole number
/// of blocks, with `1 <= k <= BLOCK_SIZE`.
pub open spec fn pkcs7_pad(message: Seq<u8>) -> Seq<u8> {
    let count = BLOCK_SIZE - message.len() % (BLOCK_SIZE as nat);
    message + Seq::new(count as nat, |i: int| count as u8)
}

/// CBC encryption of the first `blocks` blocks of `padded`: each block is
/// XORed with the preceding ciphertext block (the IV for the first) and
/// encrypted.
pub open spec fn cbc_encrypt(
    encrypt: spec_fn(Seq<u8>) -> Seq<u8>,
    iv: Seq<u8>,
    padded: Seq<u8>,
    blocks: nat,
) -> Seq<u8>
    decreases blocks,
{
    if blocks == 0 {
        Seq::empty()
    } else {
        let before = cbc_encrypt(encrypt, iv, padded, (blocks - 1) as nat);
        before + encrypt(
            xor_bytes(ciphertext_block(padded, blocks - 1), chaining_block(iv, before, blocks - 1)),
        )
    }
}

/// The ciphertext of `message`: padded, then encrypted in CBC mode.
pub open spec fn encrypted(
    encrypt: spec_fn(Seq<u8>) -> Seq<u8>,
    iv: Seq<u8>,
    message: Seq<u8>,
) -> Seq<u8> {
    let padded = pkcs7_pad(message);
    cbc_encrypt(encrypt, iv, padded, padded.len() / (BLOCK_SIZE as nat))
}

proof fn lemma_block_bounds(index: int)
    requires
        index >= 0,
    ensures
        0 <= index * BLOCK_SIZE,
        (index + 1) * BLOCK_SIZE == index * BLOCK_SIZE + BLOCK_SIZE,
{
    assert(0 <= index * BLOCK_SIZE) by (nonlinear_arith)
        requires
            index >= 0,
    ;
    assert((index + 1) * BLOCK_SIZE == index * BLOCK_SIZE + BLOCK_SIZE) by (nonlinear_arith);
}

/// A CBC ciphertext of `blocks` blocks is `blocks` blocks long.
proof fn lemma_cbc_encrypt_len(
    encrypt: spec_fn(Seq<u8>) -> Seq<u8>,
    decrypt: spec_fn(Seq<u8>) -> Seq<u8>,
    iv: Seq<u8>,
    padded: Seq<u8>,
    blocks: nat,
)
    requires
        block_cipher(encrypt, decrypt),
        iv.len() == BLOCK_SIZE,
        blocks * BLOCK_SIZE <= padded.len(),
    ensures
        cbc_encrypt(encrypt, iv, padded, blocks).len() == blocks * BLOCK_SIZE,
    decreases blocks,
{
    if blocks > 0 {
        let last = blocks - 1;
        lemma_block_bounds(last);
        lemma_cbc_encrypt_len(encrypt, decrypt, iv, padded, last as nat);
        let before = cbc_encrypt(encrypt, iv, padded, last as nat);
        if last > 0 {
            lemma_block_bounds(last - 1);
        }
        let chain = chaining_block(iv, before, last);
        assert(chain.len() == BLOCK_SIZE);
        let input = xor_bytes(ciphertext_block(padded, last), chain);
        assert(input.len() == BLOCK_SIZE);
        assert(encrypt(input).len() == BLOCK_SIZE);
    }
}

/// Encrypting more blocks only appends: the ciphertext of the first `fewer`
/// blocks is a prefix of the ciphertext of the first `blocks` blocks.
proof fn lemma_cbc_encrypt_extends(
    encrypt: spec_fn(Seq<u8>) -> Seq<u8>,
    decrypt: spec_fn(Seq<u8>) -> Seq<u8>,
    iv: Seq<u8>,
    padded: Seq<u8>,
    fewer: nat,
    blocks: nat,
)
    requires
        block_cipher(encrypt, decrypt),
        iv.len() == BLOCK_SIZE,
        blocks * BLOCK_SIZE <= padded.len(),
        fewer <= blocks,
    ensures
        cbc_encrypt(encrypt, iv, padded, fewer) == cbc_encrypt(encrypt, iv, padded, blocks).take(
            fewer * BLOCK_SIZE,
        ),
    decreases blocks,
{
    assert(fewer * BLOCK_SIZE <= blocks * BLOCK_SIZE) by (nonlinear_arith)
        requires
            fewer <= blocks,
    ;
    lemma_cbc_encrypt_len(encrypt, decrypt, iv, padded, blocks);
    let whole = cbc_encrypt(encrypt, iv, padded, blocks);
    if fewer == blocks {
        assert(whole.take(fewer * BLOCK_SIZE) =~= whole);
    } else {
        let last = (blocks - 1) as nat;
        lemma_block_bounds(last as int);
        assert(fewer * BLOCK_SIZE <= last * BLOCK_SIZE) by (nonlinear_arith)
            requires
                fewer <= last,
        ;
        lemma_cbc_encrypt_len(encrypt, decrypt, iv, padded, last);
        lemma_cbc_encrypt_extends(encrypt, decrypt, iv, padded, fewer, last);
        let before = cbc_encrypt(encrypt, iv, padded, last);
        assert(before.take(fewer * BLOCK_SIZE) =~= whole.take(fewer * BLOCK_SIZE));
    }
}

/// Every block of a CBC ciphertext is the encryption of its plaintext block
/// XORed with its chaining block.
proof fn lemma_cbc_encrypt_block(
    encrypt: spec_fn(Seq<u8>) -> Seq<u8>,
    decrypt: spec_fn(Seq<u8>) -> Seq<u8>,
    iv: Seq<u8>,
    padded: Seq<u8>,
    blocks: nat,
    index: int,
)
    requires
        block_cipher(encrypt, decrypt),
        iv.len() == BLOCK_SIZE,
        blocks * BLOCK_SIZE <= padded.len(),
        0 <= index < blocks,
    ensures
        ciphertext_block(cbc_encrypt(encrypt, iv, padded, blocks), index) == encrypt(
            xor_bytes(
                ciphertext_block(padded, index),
                chaining_block(iv, cbc_encrypt(encrypt, iv, padded, blocks), index),
            ),
        ),
{
    let whole = cbc_encrypt(encrypt, iv, padded, blocks);
    let upto = cbc_encrypt(encrypt, iv, padded, (index + 1) as nat);
    let before = cbc_encrypt(encrypt, iv, padded, index as nat);
    lemma_block_bounds(index);
    assert((index + 1) * BLOCK_SIZE <= blocks * BLOCK_SIZE) by (nonlinear_arith)
        requires
            index + 1 <= blocks,
    ;
    lemma_cbc_encrypt_len(encrypt, decrypt, iv, padded, blocks);
    lemma_cbc_encrypt_len(encrypt, decrypt, iv, padded, index as nat);
    lemma_cbc_encrypt_extends(encrypt, decrypt, iv, padded, (index + 1) as nat, blocks);
    lemma_cbc_encrypt_extends(encrypt, decrypt, iv, padded, index as nat, blocks);
    if index > 0 {
        lemma_block_bounds(index - 1);
        assert(ciphertext_block(whole, index - 1) =~= ciphertext_block(before, index - 1));
    }
    assert(chaining_block(iv, whole, index) == chaining_block(iv, before, index));
    let input = xor_bytes(ciphertext_block(padded, index), chaining_block(iv, before, index));
    assert(upto == before + encrypt(input));
    assert(ciphertext_block(whole, index) =~= ciphertext_block(upto, index));
    assert(ciphertext_block(upto, index) =~= encrypt(input));
}

/// CBC decryption undoes CBC encryption.
proof fn lemma_cbc_inverse(
    encrypt: spec_fn(Seq<u8>) -> Seq<u8>,
    decrypt: spec_fn(Seq<u8>) -> Seq<u8>,
    iv: Seq<u8>,
    padded: Seq<u8>,
    total: nat,
    blocks: nat,
)
    requires
        block_cipher(encrypt, decrypt),
        iv.len() == BLOCK_SIZE,
        total * BLOCK_SIZE <= padded.len(),
        blocks <= total,
    ensures
        cbc_decrypt(decrypt, iv, cbc_encrypt(encrypt, iv, padded, total), blocks) == padded.take(
            blocks * BLOCK_SIZE,
        ),
    decreases blocks,
{
    let ciphertext = cbc_encrypt(encrypt, iv, padded, total);
    lemma_block_bounds(0);
    if blocks == 0 {
        assert(padded.take(0) =~= Seq::<u8>::empty());
    } else {
        let index = blocks - 1;
        lemma_block_bounds(index);
        assert(blocks * BLOCK_SIZE <= total * BLOCK_SIZE) by (nonlinear_arith)
            requires
                blocks <= total,
        ;
        lemma_cbc_inverse(encrypt, decrypt, iv, padded, total, index as nat);
        lemma_cbc_encrypt_len(encrypt, decrypt, iv, padded, total);
        lemma_cbc_encrypt_block(encrypt, decrypt, iv, padded, total, index);
        let chain = chaining_block(iv, ciphertext, index);
        if index > 0 {
            lemma_block_bounds(index - 1);
        }
        assert(chain.len() == BLOCK_SIZE);
        let plain = ciphertext_block(padded, index);
        let input = xor_bytes(plain, chain);
        assert(ciphertext_block(ciphertext, index) == encrypt(input));
        assert(decrypt(encrypt(input)) == input);
        assert(xor_bytes(input, chain) =~= plain) by {
            assert forall|j: int| 0 <= j < BLOCK_SIZE implies (plain[j] ^ chain[j]) ^ chain[j]
                == plain[j] by {
                lemma_xor_cancel(plain[j], chain[j]);
            }
        }
        assert(padded.take(index * BLOCK_SIZE) + plain =~= padded.take(blocks * BLOCK_SIZE));
    }
}

/// Stripping undoes padding.
pub proof fn lemma_strip_undoes_pad(message: Seq<u8>)
    ensures
        well_sized(pkcs7_pad(message)),
        stripped(pkcs7_pad(message)) == Some(message),
{
    let padded = pkcs7_pad(message);
    let count = BLOCK_SIZE - message.len() % (BLOCK_SIZE as nat);
    assert(padded.len() == message.len() + count);
    assert(padded.last() == count as u8);
    assert(padded.take(padded.len() - count) =~= message);
}

/// Round trip: whatever message is padded and encrypted in CBC mode under
/// some block cipher, the attack, given only the IV, the ciphertext and the
/// faithful padding oracle of that cipher, returns exactly that message.
pub proof fn lemma_attack_round_trip(
    answers: spec_fn(Seq<u8>, Seq<u8>) -> bool,
    encrypt: spec_fn(Seq<u8>) -> Seq<u8>,
    decrypt: spec_fn(Seq<u8>) -> Seq<u8>,
    iv: Seq<u8>,
    message: Seq<u8>,
)
    requires
        faithful(answers, decrypt),
        block_cipher(encrypt, decrypt),
        iv.len() == BLOCK_SIZE,
    ensures
        attack_outcome(answers, iv, encrypted(encrypt, iv, message)) == Ok::<
            Seq<u8>,
            crate::error::AttackError,
        >(message),
{
    let padded = pkcs7_pad(message);
    let blocks = padded.len() / (BLOCK_SIZE as nat);
    let ciphertext = encrypted(encrypt, iv, message);
    lemma_strip_undoes_pad(message);
    assert(blocks * BLOCK_SIZE == padded.len());
    lemma_cbc_encrypt_len(encrypt, decrypt, iv, padded, blocks);
    lemma_cbc_inverse(encrypt, decrypt, iv, padded, blocks, blocks);
    assert(padded.take(blocks * BLOCK_SIZE) =~= padded);
    assert(ciphertext.len() / (BLOCK_SIZE as nat) == blocks);
    lemma_attack_decrypts(answers, decrypt, iv, ciphertext);
}

} // verus!
