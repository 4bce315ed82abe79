use cryptanalysis::key_recovery::{
    keypair_bytes, recover_secret, signature_data, signature_scalars, SignatureData,
};
use curve25519_dalek::Scalar;
use ed25519_dalek::{ExpandedSecretKey, Keypair, PublicKey, SecretKey, Signer, Verifier};
use sha2::{Digest, Sha512};

fn keys(seed: u8) -> ([u8; 32], [u8; 32]) {
    let mut bytes = [0u8; 32];
    for (i, byte) in bytes.iter_mut().enumerate() {
        *byte = seed.wrapping_mul(31).wrapping_add(i as u8);
    }
    let secret = SecretKey::from_bytes(&bytes).unwrap();
    let public = PublicKey::from(&secret);
    (bytes, public.to_bytes())
}

#[test]
fn two_signatures_reveal_the_secret_scalar() {
    let message = b"HelloWorld";
    let (secret, public) = keys(1);
    let (_, other_public) = keys(2);
    let first = signature_data(&secret, &public, message).unwrap();
    let second = signature_data(&secret, &other_public, message).unwrap();
    assert_ne!(first.h, second.h);
    assert_ne!(first.s, second.s);

    let recovered = recover_secret(&first, &second);

    let expanded = ExpandedSecretKey::from(&SecretKey::from_bytes(&secret).unwrap()).to_bytes();
    let mut key = [0u8; 32];
    key.copy_from_slice(&expanded[..32]);
    assert_eq!(recovered, Scalar::from_bytes_mod_order(key).to_bytes());

    // the recovered scalar signs for the victim
    let mut forged = [0u8; 64];
    forged[..32].copy_from_slice(&recovered);
    let signer = ExpandedSecretKey::from_bytes(&forged).unwrap();
    let victim = PublicKey::from_bytes(&public).unwrap();
    let signature = signer.sign(message, &victim);
    assert!(victim.verify(message, &signature).is_ok());
}

#[test]
fn signature_scalars_match_the_library() {
    let message = b"another message";
    let (secret, public) = keys(7);
    let data = signature_data(&secret, &public, message).unwrap();
    let mut pair = [0u8; 64];
    pair[..32].copy_from_slice(&secret);
    pair[32..].copy_from_slice(&public);
    let signature = Keypair::from_bytes(&pair).unwrap().sign(message).to_bytes();
    assert_eq!(data.s[..], signature[32..]);
    let mut hasher = Sha512::new();
    hasher.update(&signature[..32]);
    hasher.update(public);
    hasher.update(message);
    assert_eq!(data.h, Scalar::from_hash(hasher).to_bytes());
}

#[test]
fn invalid_public_key_gives_no_signature() {
    let (secret, _) = keys(3);
    let mut tried = 0;
    for first in 0..=255u8 {
        let mut candidate = [first; 32];
        candidate[31] &= 0x7f;
        if PublicKey::from_bytes(&candidate).is_err() {
            assert!(signature_data(&secret, &candidate, b"m").is_none());
            tried += 1;
        } else {
            assert!(signature_data(&secret, &candidate, b"m").is_some());
        }
    }
    assert!(tried > 0);
}

#[test]
fn equal_challenges_give_zero() {
    let (secret, public) = keys(4);
    let data = signature_data(&secret, &public, b"same").unwrap();
    assert_eq!(recover_secret(&data, &data), [0u8; 32]);
}

#[test]
fn recovery_on_hand_made_scalars() {
    // s1 = 10*a + r, s2 = 4*a + r with a = 7, r = 5
    let scalar = |value: u8| {
        let mut bytes = [0u8; 32];
        bytes[0] = value;
        bytes
    };
    let first = SignatureData { s: scalar(75), h: scalar(10) };
    let second = SignatureData { s: scalar(33), h: scalar(4) };
    assert_eq!(recover_secret(&first, &second), scalar(7));
    assert_eq!(recover_secret(&second, &first), scalar(7));
}

#[test]
fn taking_a_signature_apart() {
    let secret = [1u8; 32];
    let public = [2u8; 32];
    let pair = keypair_bytes(&secret, &public);
    assert_eq!(pair[..32], secret);
    assert_eq!(pair[32..], public);

    let mut signature = [0u8; 64];
    signature[..32].copy_from_slice(&[9u8; 32]);
    signature[32] = 5;
    let data = signature_scalars(&signature, &public, b"msg").unwrap();
    let mut five = [0u8; 32];
    five[0] = 5;
    assert_eq!(data.s, five);
    let mut hasher = Sha512::new();
    hasher.update([9u8; 32]);
    hasher.update(public);
    hasher.update(b"msg");
    assert_eq!(data.h, Scalar::from_hash(hasher).to_bytes());

    // the group order itself is the smallest number that is not reduced
    let order: [u8; 32] = [
        0xed, 0xd3, 0xf5, 0x5c, 0x1a, 0x63, 0x12, 0x58, 0xd6, 0x9c, 0xf7, 0xa2, 0xde, 0xf9, 0xde,
        0x14, 0, 0, 0, 0, 0, 0, 0, 0, 0, 0, 0, 0, 0, 0, 0, 0x10,
    ];
    signature[32..].copy_from_slice(&order);
    assert!(signature_scalars(&signature, &public, b"msg").is_none());
    signature[32] = 0xec;
    assert!(signature_scalars(&signature, &public, b"msg").is_some());
}
