use aes::cipher::block_padding::Pkcs7;
use aes::cipher::{BlockEncryptMut, KeyIvInit};
use cryptanalysis::aes_oracle::Aes128CbcOracle;
use cryptanalysis::attack::{attack, block_at, strip_padding};
use cryptanalysis::block::{has_valid_padding, xor_blocks, Block, BLOCK_SIZE};
use cryptanalysis::engine::{decrypt_block, find_candidate, run_round};
use cryptanalysis::error::AttackError;
use cryptanalysis::oracle::{Constant, Counting, FixedIntermediate, PaddingOracle};

const KEY: Block = [0x42; 16];
const IV: Block = [0x24; 16];

fn encrypt(key: &Block, iv: &Block, plaintext: &[u8]) -> Vec<u8> {
    let mut buffer = vec![0u8; plaintext.len() + BLOCK_SIZE];
    buffer[..plaintext.len()].copy_from_slice(plaintext);
    cbc::Encryptor::<aes::Aes128>::new(key.into(), iv.into())
        .encrypt_padded_mut::<Pkcs7>(&mut buffer, plaintext.len())
        .unwrap()
        .to_vec()
}

#[test]
fn recovers_the_demo_plaintext() {
    let plaintext = b"hello world! this is my plaintext!!!";
    let ciphertext = encrypt(&KEY, &IV, plaintext);
    assert_eq!(ciphertext.len(), 48);
    let mut oracle = Counting::new(Aes128CbcOracle::new(KEY));
    let recovered = attack(&mut oracle, &IV, &ciphertext);
    assert_eq!(recovered, Ok(plaintext.to_vec()));
    assert!(oracle.queries > 0);
    assert!(oracle.queries <= 3 * 16 * 256);
}

#[test]
fn round_trip_for_every_short_length() {
    let message: Vec<u8> = (0..40u8).map(|i| i.wrapping_mul(37).wrapping_add(11)).collect();
    for len in 0..=message.len() {
        let ciphertext = encrypt(&KEY, &IV, &message[..len]);
        let mut oracle = Aes128CbcOracle::new(KEY);
        assert_eq!(attack(&mut oracle, &IV, &ciphertext), Ok(message[..len].to_vec()));
    }
}

#[test]
fn round_trip_with_another_key_and_iv() {
    let key: Block = [7, 1, 8, 2, 8, 1, 8, 2, 8, 4, 5, 9, 0, 4, 5, 2];
    let iv: Block = [3, 1, 4, 1, 5, 9, 2, 6, 5, 3, 5, 8, 9, 7, 9, 3];
    let message = b"0123456789abcdef";
    let ciphertext = encrypt(&key, &iv, message);
    assert_eq!(ciphertext.len(), 32);
    let mut oracle = Aes128CbcOracle::new(key);
    assert_eq!(attack(&mut oracle, &iv, &ciphertext), Ok(message.to_vec()));
}

#[test]
fn message_ending_in_padding_like_bytes() {
    let message = [9u8, 9, 9, 9, 9, 9, 9, 9, 9, 9, 9, 9, 9, 2, 2];
    let ciphertext = encrypt(&KEY, &IV, &message);
    let mut oracle = Aes128CbcOracle::new(KEY);
    assert_eq!(attack(&mut oracle, &IV, &ciphertext), Ok(message.to_vec()));
}

#[test]
fn aes_oracle_tells_valid_from_invalid_padding() {
    let ciphertext = encrypt(&KEY, &IV, b"abc");
    let block = block_at(&ciphertext, 0);
    let mut oracle = Aes128CbcOracle::new(KEY);
    assert!(oracle.check(&IV, &block));
    let mut tampered = IV;
    tampered[15] ^= 0x55;
    assert!(!oracle.check(&tampered, &block));
    let mut other = Aes128CbcOracle::new([0x43; 16]);
    assert!(!other.check(&IV, &block) || other.check(&tampered, &block) != other.check(&IV, &block));
}

#[test]
fn engine_recovers_the_intermediate_value() {
    let intermediate: Block = [
        0x10, 0x32, 0x54, 0x76, 0x98, 0xba, 0xdc, 0xfe, 0x01, 0x23, 0x45, 0x67, 0x89, 0xab, 0xcd,
        0xef,
    ];
    let mut oracle = FixedIntermediate { intermediate };
    let reference: Block = [0; 16];
    let target: Block = [0xaa; 16];
    assert_eq!(decrypt_block(&mut oracle, &reference, &target), Ok(intermediate));
    assert_eq!(reference, [0; 16]);
}

#[test]
fn spurious_two_two_tail_is_rejected() {
    // Victim plaintext = reference XOR intermediate.  With the reference
    // below, byte 14 of the plaintext is 2, so candidate 1 at byte 15 gives
    // the tail [2, 2] (validates, but is not the pad-1 pattern) and
    // candidate 2 gives the genuine tail [.., 1].
    let mut intermediate: Block = [0x5a; 16];
    intermediate[14] = 0x70;
    intermediate[15] = 0x03;
    let mut reference: Block = [0; 16];
    reference[14] = 0x72;
    let target: Block = [0; 16];

    let mut oracle = Counting::new(FixedIntermediate { intermediate });
    let mut spurious = reference;
    spurious[15] = 1;
    assert!(oracle.check(&spurious, &target));
    let mut genuine = reference;
    genuine[15] = 2;
    assert!(oracle.check(&genuine, &target));

    let mut oracle = Counting::new(FixedIntermediate { intermediate });
    let mut crafted = reference;
    assert_eq!(find_candidate(&mut oracle, &mut crafted, &target, 1), Some(2));
    assert_eq!(crafted[15], 2);
    // candidates 0, 1, 2, plus one re-query each for 1 and 2
    assert_eq!(oracle.queries, 5);

    let mut oracle = FixedIntermediate { intermediate };
    assert_eq!(decrypt_block(&mut oracle, &reference, &target), Ok(intermediate));
}

#[test]
fn silent_oracle_exhausts_the_first_round() {
    let mut oracle = Counting::new(Constant { answer: false });
    let reference: Block = [1; 16];
    let target: Block = [2; 16];
    assert_eq!(
        decrypt_block(&mut oracle, &reference, &target),
        Err(AttackError::OracleExhausted)
    );
    assert_eq!(oracle.queries, 256);

    let mut crafted = reference;
    assert_eq!(find_candidate(&mut oracle, &mut crafted, &target, 1), None);
    assert_eq!(crafted[15], 255);

    let mut oracle = Constant { answer: false };
    assert_eq!(attack(&mut oracle, &IV, &[0u8; 32]), Err(AttackError::OracleExhausted));
}

#[test]
fn round_without_an_accepted_candidate_fails() {
    // A later round that finds nothing fails too and leaves what was
    // recovered so far as it is.
    let mut oracle = Constant { answer: false };
    let mut crafted: Block = [0; 16];
    let mut intermediate: Block = [7; 16];
    let target: Block = [0; 16];
    assert_eq!(
        run_round(&mut oracle, &mut crafted, &mut intermediate, &target, 2),
        Err(AttackError::OracleExhausted)
    );
    assert_eq!(intermediate, [7; 16]);
}

#[test]
fn ciphertext_length_is_checked_before_any_query() {
    for len in [0usize, 1, 15, 17, 31, 33] {
        let mut oracle = Counting::new(Constant { answer: true });
        let ciphertext = vec![0u8; len];
        assert_eq!(
            attack(&mut oracle, &IV, &ciphertext),
            Err(AttackError::InvalidCiphertextLength)
        );
        assert_eq!(oracle.queries, 0);
    }
}

#[test]
fn impossible_padding_count_is_reported() {
    // An oracle that accepts everything makes the engine take candidate 0 in
    // every round, so the intermediate value is 16, 15, .., 1 and the last
    // plaintext byte is 1 XOR iv[15].
    let mut iv: Block = [0; 16];
    iv[15] = 0xfe;
    let mut oracle = Constant { answer: true };
    assert_eq!(attack(&mut oracle, &iv, &[0u8; 16]), Err(AttackError::InvalidPadding));

    let mut oracle = Constant { answer: true };
    let zero_iv: Block = [0; 16];
    let expected: Vec<u8> = (0..15u8).map(|i| 16 - i).collect();
    assert_eq!(attack(&mut oracle, &zero_iv, &[0u8; 16]), Ok(expected));
}

#[test]
fn crafted_tail_after_each_round() {
    let intermediate: Block = [
        0xde, 0xad, 0xbe, 0xef, 0x00, 0x11, 0x22, 0x33, 0x44, 0x55, 0x66, 0x77, 0x88, 0x99, 0xaa,
        0xbb,
    ];
    let mut oracle = FixedIntermediate { intermediate };
    let reference: Block = [0x0f; 16];
    let target: Block = [0; 16];
    let mut crafted = reference;
    let mut known: Block = [0; 16];
    for pad in 1..=BLOCK_SIZE {
        assert_eq!(run_round(&mut oracle, &mut crafted, &mut known, &target, pad), Ok(()));
        for j in 0..BLOCK_SIZE {
            if j >= BLOCK_SIZE - pad {
                assert_eq!(known[j], intermediate[j]);
                assert_eq!(crafted[j], known[j] ^ (pad as u8 + 1));
            } else {
                assert_eq!(crafted[j], reference[j]);
                assert_eq!(known[j], 0);
            }
        }
    }
}

#[test]
fn strip_padding_cases() {
    assert_eq!(strip_padding(vec![1, 2, 3, 1]), Ok(vec![1, 2, 3]));
    assert_eq!(strip_padding(vec![7, 7, 3, 3, 3]), Ok(vec![7, 7]));
    assert_eq!(strip_padding(vec![4, 4, 4, 4]), Ok(vec![]));
    assert_eq!(strip_padding(vec![5, 0]), Ok(vec![5, 0]));
    assert_eq!(strip_padding(vec![1, 2, 9]), Err(AttackError::InvalidPadding));
    assert_eq!(strip_padding(vec![]), Err(AttackError::InvalidPadding));
}

#[test]
fn padding_validity() {
    assert!(has_valid_padding(&[9, 9, 1]));
    assert!(has_valid_padding(&[9, 2, 2]));
    assert!(has_valid_padding(&[3, 3, 3]));
    assert!(!has_valid_padding(&[3, 3, 0]));
    assert!(!has_valid_padding(&[9, 1, 2]));
    assert!(!has_valid_padding(&[4, 4, 4]));
    assert!(!has_valid_padding(&[]));
    assert!(has_valid_padding(&[16; 16]));
    assert!(!has_valid_padding(&[17; 16]));
}

#[test]
fn xor_and_block_extraction() {
    let a: Block = [0xff; 16];
    let mut b: Block = [0; 16];
    for (i, byte) in b.iter_mut().enumerate() {
        *byte = i as u8;
    }
    let x = xor_blocks(&a, &b);
    for i in 0..16 {
        assert_eq!(x[i], 0xff ^ i as u8);
    }
    let data: Vec<u8> = (0..48u8).collect();
    assert_eq!(block_at(&data, 0), b);
    let third = block_at(&data, 2);
    assert_eq!(third[0], 32);
    assert_eq!(third[15], 47);
}
