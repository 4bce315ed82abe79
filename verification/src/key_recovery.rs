//! Recovery of an Ed25519 signing key from two signatures made over one
//! message with two different public keys.
//!
//! Such signatures share the nonce `r` and differ only in `s = r + h * a`,
//! where the challenge `h` depends on the public key and `a` is the secret
//! scalar.  Two of them give `a = (s1 - s2) / (h1 - h2)` in the scalar field.
use curve25519_dalek::Scalar;
use ed25519_dalek::{Keypair, Signer};
use sha2::{Digest, Sha512};
use vstd::arithmetic::div_mod::{
    lemma_mod_add_multiples_vanish,
    lemma_mul_mod_noop_left,
    lemma_mul_mod_noop_right,
    lemma_small_mod,
    lemma_sub_mod_noop,
};
use vstd::prelude::*;
use crate::natural::le_value;

verus! {

/// The order of the Ed25519 group, `2^252 + 27742317777372353535851937790883648493`.
pub open spec fn group_order() -> nat {
    7237005577332262213973186563042994240857116359379907606001950938285454250989nat
}

/// The number that 32 little-endian bytes encode is a reduced scalar.
pub open spec fn canonical(bytes: Seq<u8>) -> bool {
    le_value(bytes) < group_order()
}

/// The Ed25519 signature of `message` under the 64 keypair bytes `keypair`
/// (secret key, then public key), as `ed25519_dalek` computes it; `None` for
/// keypair bytes that it turns down.
pub uninterp spec fn ed25519_signature(keypair: Seq<u8>, message: Seq<u8>) -> Option<Seq<u8>>;

/// The scalar that SHA-512 maps `data` to: the 64 digest bytes read as a
/// little-endian number and reduced modulo the group order.
pub uninterp spec fn sha512_scalar(data: Seq<u8>) -> nat;

/// `Keypair::from_bytes` and `Signer::sign` of `ed25519_dalek`.  `None` when
/// the keypair bytes are turned down (the public half is no curve point).
/// Trusted: signing is deterministic, so whether there is a signature and
/// what it is are a function of the keypair bytes and the message.
#[verifier::external_body]
fn sign_with_keypair(keypair: &[u8; 64], message: &[u8]) -> (signature: Option<[u8; 64]>)
    ensures
        match signature {
            Some(bytes) => ed25519_signature(keypair@, message@) == Some(bytes@),
            None => ed25519_signature(keypair@, message@) is None,
        },
{
    match Keypair::from_bytes(keypair) {
        Ok(pair) => Some(pair.sign(message).to_bytes()),
        Err(_) => None,
    }
}

/// `Scalar::from_hash` of `curve25519_dalek` on a `Sha512` fed with `r`,
/// the public key and the message, in this order.  Trusted: the bytes
/// returned encode the reduced scalar of that digest.
#[verifier::external_body]
fn challenge_scalar(r: &[u8; 32], public: &[u8; 32], message: &[u8]) -> (h: [u8; 32])
    ensures
        le_value(h@) == sha512_scalar(r@ + public@ + message@),
        canonical(h@),
{
    let mut hasher = Sha512::new();
    hasher.update(r);
    hasher.update(public);
    hasher.update(message);
    Scalar::from_hash(hasher).to_bytes()
}

/// `Scalar::from_canonical_bytes`, asked only whether it accepts.  Trusted:
/// it accepts exactly the encodings of numbers below the group order.
#[verifier::external_body]
fn scalar_is_canonical(bytes: &[u8; 32]) -> (accepted: bool)
    ensures
        accepted == canonical(bytes@),
{
    bool::from(Scalar::from_canonical_bytes(*bytes).is_some())
}

/// `a - b` on `Scalar`.  Trusted: the difference modulo the group order.
#[verifier::external_body]
fn scalar_sub(a: &[u8; 32], b: &[u8; 32]) -> (out: [u8; 32])
    requires
        canonical(a@),
        canonical(b@),
    ensures
        le_value(out@) == (le_value(a@) + group_order() - le_value(b@)) % (group_order() as int),
{
    (Scalar::from_canonical_bytes(*a).unwrap() - Scalar::from_canonical_bytes(*b).unwrap())
        .to_bytes()
}

/// `a * b` on `Scalar`.  Trusted: the product modulo the group order.
#[verifier::external_body]
fn scalar_mul(a: &[u8; 32], b: &[u8; 32]) -> (out: [u8; 32])
    requires
        canonical(a@),
        canonical(b@),
    ensures
        le_value(out@) == (le_value(a@) * le_value(b@)) % group_order(),
{
    (Scalar::from_canonical_bytes(*a).unwrap() * Scalar::from_canonical_bytes(*b).unwrap())
        .to_bytes()
}

/// `Scalar::invert`.  Trusted: the result is reduced, and for a scalar other
/// than zero its product with the argument is 1 modulo the group order.
#[verifier::external_body]
fn scalar_invert(a: &[u8; 32]) -> (out: [u8; 32])
    requires
        canonical(a@),
    ensures
        canonical(out@),
        le_value(a@) != 0 ==> (le_value(a@) * le_value(out@)) % group_order() == 1,
{
    Scalar::from_canonical_bytes(*a).unwrap().invert().to_bytes()
}

/// The two scalars of a signature that the recovery needs: `s`, the second
/// half of the signature, and `h`, the challenge.
#[derive(Clone, Copy, Debug)]
pub struct SignatureData {
    pub s: [u8; 32],
    pub h: [u8; 32],
}

impl SignatureData {
    /// Both scalars are reduced.
    pub open spec fn well_formed(&self) -> bool {
        canonical(self.s@) && canonical(self.h@)
    }
}

/// The 64 keypair bytes: the secret key, then the public key.
pub fn keypair_bytes(secret: &[u8; 32], public: &[u8; 32]) -> (keypair: [u8; 64])
    ensures
        keypair@ == secret@ + public@,
{
    let mut keypair = [0u8; 64];
    let mut i: usize = 0;
    while i < 32
        invariant
            i <= 32,
            forall|j: int| 0 <= j < i ==> keypair@[j] == secret@[j],
            forall|j: int| 0 <= j < i ==> keypair@[32 + j] == public@[j],
        decreases 32 - i,
    {
        keypair[i] = secret[i];
        keypair[32 + i] = public[i];
        i += 1;
    }
    assert(keypair@ =~= secret@ + public@);
    keypair
}

/// `data` is what taking `signature` apart gives: `s` is its second half,
/// and the challenge `h` is the scalar that SHA-512 gives for its first
/// half, the public key and the message; nothing when `s` is not a reduced
/// scalar.
pub open spec fn scalars_of(
    signature: Seq<u8>,
    public: Seq<u8>,
    message: Seq<u8>,
    data: Option<SignatureData>,
) -> bool {
    match data {
        Some(d) => {
            &&& d.well_formed()
            &&& d.s@ == signature.subrange(32, 64)
            &&& le_value(d.h@) == sha512_scalar(signature.subrange(0, 32) + public + message)
        },
        None => !canonical(signature.subrange(32, 64)),
    }
}

/// Takes a signature apart into the scalars `s` and `h`.  `None` exactly
/// when `s` is not a reduced scalar.
pub fn signature_scalars(signature: &[u8; 64], public: &[u8; 32], message: &[u8]) -> (data: Option<
    SignatureData,
>)
    ensures
        scalars_of(signature@, public@, message@, data),
{
    let mut r = [0u8; 32];
    let mut s = [0u8; 32];
    let mut i: usize = 0;
    while i < 32
        invariant
            i <= 32,
            forall|j: int| 0 <= j < i ==> r@[j] == signature@[j],
            forall|j: int| 0 <= j < i ==> s@[j] == signature@[32 + j],
        decreases 32 - i,
    {
        r[i] = signature[i];
        s[i] = signature[32 + i];
        i += 1;
    }
    assert(r@ =~= signature@.subrange(0, 32));
    assert(s@ =~= signature@.subrange(32, 64));
    let h = challenge_scalar(&r, public, message);
    if !scalar_is_canonical(&s) {
        return None;
    }
    Some(SignatureData { s, h })
}

/// Signs `message` with the secret key `secret` paired with the public key
/// `public`, whether or not the two belong together, and returns the
/// scalars `s` and `h` of the signature.
///
/// There is a result exactly when the signer accepts the keypair and the
/// `s` of its signature is a reduced scalar.
pub fn signature_data(secret: &[u8; 32], public: &[u8; 32], message: &[u8]) -> (data: Option<
    SignatureData,
>)
    ensures
        match ed25519_signature(secret@ + public@, message@) {
            Some(signature) => scalars_of(signature, public@, message@, data),
            None => data is None,
        },
{
    let keypair = keypair_bytes(secret, public);
    match sign_with_keypair(&keypair, message) {
        Some(signature) => signature_scalars(&signature, public, message),
        None => None,
    }
}

/// `a - b` modulo the group order.
pub open spec fn difference(a: nat, b: nat) -> nat {
    ((a + group_order() - b) % (group_order() as int)) as nat
}

/// The secret scalar behind two signatures with one nonce:
/// `(s1 - s2) / (h1 - h2)` in the scalar field.
///
/// When the challenges differ, the result is the one scalar `a` with
/// `a * (h1 - h2) = s1 - s2`.
pub fn recover_secret(first: &SignatureData, second: &SignatureData) -> (secret: [u8; 32])
    requires
        first.well_formed(),
        second.well_formed(),
    ensures
        canonical(secret@),
        le_value(first.h@) != le_value(second.h@) ==> {
            let dh = difference(le_value(first.h@), le_value(second.h@));
            let ds = difference(le_value(first.s@), le_value(second.s@));
            &&& (le_value(secret@) * dh) % group_order() == ds
            &&& forall|a: nat|
                a < group_order() && #[trigger] ((a * dh) % group_order()) == ds ==> a == le_value(
                    secret@,
                )
        },
{
    let ds = scalar_sub(&first.s, &second.s);
    let dh = scalar_sub(&first.h, &second.h);
    let inverse = scalar_invert(&dh);
    let secret = scalar_mul(&ds, &inverse);
    proof {
        let order = group_order() as int;
        let h1 = le_value(first.h@);
        let h2 = le_value(second.h@);
        if h1 != h2 {
            lemma_difference_of_distinct(h1, h2);
            lemma_quotient_is_unique(le_value(ds@), le_value(dh@), le_value(inverse@));
        }
    }
    secret
}

/// The difference of two distinct reduced scalars is not zero.
proof fn lemma_difference_of_distinct(a: nat, b: nat)
    requires
        a < group_order(),
        b < group_order(),
        a != b,
    ensures
        difference(a, b) != 0,
        difference(a, b) < group_order(),
{
    let order = group_order() as int;
    if a > b {
        lemma_mod_add_multiples_vanish(a - b, order);
        lemma_small_mod((a - b) as nat, order as nat);
    } else {
        lemma_small_mod((a + order - b) as nat, order as nat);
    }
}

/// With `inverse` the inverse of `dh`, `ds * inverse` is the only solution
/// `a` of `a * dh = ds` modulo the group order.
proof fn lemma_quotient_is_unique(ds: nat, dh: nat, inverse: nat)
    requires
        ds < group_order(),
        (dh * inverse) % group_order() == 1,
    ensures
        (((ds * inverse) % group_order()) * dh) % group_order() == ds,
        forall|a: nat|
            a < group_order() && #[trigger] ((a * dh) % group_order()) == ds ==> a == (ds
                * inverse) % group_order(),
{
    let order = group_order() as int;
    let quotient = (ds * inverse) % group_order();
    let unit = (dh * inverse) as int;
    assert((quotient * dh) % group_order() == ds) by {
        lemma_mul_mod_noop_left((ds * inverse) as int, dh as int, order);
        assert(ds * inverse * dh == ds * unit) by (nonlinear_arith)
            requires
                unit == dh * inverse,
        ;
        lemma_mul_mod_noop_right(ds as int, unit, order);
        lemma_small_mod(ds, group_order());
    }
    assert forall|a: nat| a < group_order() && #[trigger] ((a * dh) % group_order()) == ds implies a
        == quotient by {
        lemma_mul_mod_noop_left((a * dh) as int, inverse as int, order);
        assert(a * dh * inverse == a * unit) by (nonlinear_arith)
            requires
                unit == dh * inverse,
        ;
        lemma_mul_mod_noop_right(a as int, unit, order);
        lemma_small_mod(a, group_order());
    }
}

/// Why the recovery works.  Two signatures made with one nonce `r` and one
/// secret scalar `a` under the challenges `h1 != h2` have
/// `s1 = h1 * a + r` and `s2 = h2 * a + r`, so `a` solves
/// `a * (h1 - h2) = s1 - s2`, and `recover_secret` returns the only solution.
pub proof fn lemma_shared_nonce_reveals_key(nonce: nat, key: nat, h1: nat, h2: nat)
    requires
        key < group_order(),
        h1 < group_order(),
        h2 < group_order(),
        h1 != h2,
    ensures
        ({
            let s1 = ((h1 * key + nonce) % group_order()) as nat;
            let s2 = ((h2 * key + nonce) % group_order()) as nat;
            (key * difference(h1, h2)) % group_order() == difference(s1, s2)
        }),
        difference(h1, h2) != 0,
{
    let order = group_order() as int;
    let first = (h1 * key + nonce) as int;
    let second = (h2 * key + nonce) as int;
    let s1 = first % order;
    let s2 = second % order;
    lemma_difference_of_distinct(h1, h2);
    vstd::arithmetic::div_mod::lemma_mod_bound(first, order);
    vstd::arithmetic::div_mod::lemma_mod_bound(second, order);
    assert(difference(s1 as nat, s2 as nat) == (first - second) % order) by {
        lemma_mod_add_multiples_vanish(s1 - s2, order);
        lemma_sub_mod_noop(first, second, order);
    }
    assert(difference(h1, h2) == (h1 - h2) % order) by {
        lemma_mod_add_multiples_vanish(h1 - h2, order);
    }
    assert(((key * difference(h1, h2)) as int) % order == (key * (h1 - h2)) % order) by {
        lemma_mul_mod_noop_right(key as int, h1 - h2, order);
    }
    assert(key * (h1 - h2) == first - second) by (nonlinear_arith)
        requires
            first == h1 * key + nonce,
            second == h2 * key + nonce,
    ;
}

} // verus!
