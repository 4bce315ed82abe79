//! Natural numbers of any size.
//!
//! A [`Natural`] holds its value as little-endian bytes.  The arithmetic is
//! done by `num_bigint::BigUint`; each operation below converts its
//! arguments, makes one call into that crate, and converts the result back.
//! What each call returns is taken on trust and stated over the values.
use num_bigint::{BigUint, RandBigInt};
use num_integer::Integer;
use num_traits::ToPrimitive;
use rand::rngs::OsRng;
use rand::SeedableRng;
use rand_chacha::ChaCha20Rng;
use vstd::arithmetic::power::pow;
use vstd::arithmetic::power2::pow2;
use vstd::prelude::*;

verus! {

/// The number that `bytes` spell, least significant byte first.
pub open spec fn le_value(bytes: Seq<u8>) -> nat
    decreases bytes.len(),
{
    if bytes.len() == 0 {
        0
    } else {
        bytes[0] as nat + 256 * le_value(bytes.skip(1))
    }
}

/// A natural number, stored as little-endian bytes.  Leading zero bytes are
/// allowed and do not change the value.
#[derive(Clone, Debug, PartialEq, Eq)]
pub struct Natural {
    pub bytes: Vec<u8>,
}

impl View for Natural {
    type V = nat;

    open spec fn view(&self) -> nat {
        le_value(self.bytes@)
    }
}

impl Natural {
    /// A copy of this number.
    pub fn duplicate(&self) -> (copy: Natural)
        ensures
            copy@ == self@,
            copy.bytes@ == self.bytes@,
    {
        let bytes = self.bytes.clone();
        assert(bytes@ =~= self.bytes@);
        Natural { bytes }
    }
}

/// `BigUint::from(value)` for a `u128`.  Trusted: the result has the value of
/// its argument.
#[verifier::external_body]
pub(crate) fn natural_from_u128(value: u128) -> (out: Natural)
    ensures
        out@ == value,
{
    Natural { bytes: BigUint::from(value).to_bytes_le() }
}

/// `ToPrimitive::to_u128` of a `BigUint`.  Trusted: `Some` of the value when
/// it fits in a `u128`, `None` otherwise.
#[verifier::external_body]
pub(crate) fn natural_to_u128(a: &Natural) -> (out: Option<u128>)
    ensures
        match out {
            Some(value) => value == a@,
            None => a@ > u128::MAX,
        },
{
    BigUint::from_bytes_le(&a.bytes).to_u128()
}

/// `ToPrimitive::to_usize` of a `BigUint`.  Trusted: `Some` of the value when
/// it fits in a `usize`, `None` otherwise.
#[verifier::external_body]
pub(crate) fn natural_to_usize(a: &Natural) -> (out: Option<usize>)
    ensures
        match out {
            Some(value) => value == a@,
            None => a@ > usize::MAX,
        },
{
    BigUint::from_bytes_le(&a.bytes).to_usize()
}

/// `&a + &b` on `BigUint`.  Trusted: the sum.
#[verifier::external_body]
pub(crate) fn natural_add(a: &Natural, b: &Natural) -> (out: Natural)
    ensures
        out@ == a@ + b@,
{
    Natural { bytes: (BigUint::from_bytes_le(&a.bytes) + BigUint::from_bytes_le(&b.bytes)).to_bytes_le() }
}

/// `&a - &b` on `BigUint`, which panics when `b` is larger than `a`.
/// Trusted: the difference.
#[verifier::external_body]
pub(crate) fn natural_sub(a: &Natural, b: &Natural) -> (out: Natural)
    requires
        b@ <= a@,
    ensures
        out@ == a@ - b@,
{
    Natural { bytes: (BigUint::from_bytes_le(&a.bytes) - BigUint::from_bytes_le(&b.bytes)).to_bytes_le() }
}

/// `&a * &b` on `BigUint`.  Trusted: the product.
#[verifier::external_body]
pub(crate) fn natural_mul(a: &Natural, b: &Natural) -> (out: Natural)
    ensures
        out@ == a@ * b@,
{
    Natural { bytes: (BigUint::from_bytes_le(&a.bytes) * BigUint::from_bytes_le(&b.bytes)).to_bytes_le() }
}

/// `&a % &m` on `BigUint`, which panics when `m` is zero.  Trusted: the
/// remainder.
#[verifier::external_body]
pub(crate) fn natural_rem(a: &Natural, m: &Natural) -> (out: Natural)
    requires
        m@ > 0,
    ensures
        out@ == a@ % m@,
{
    Natural { bytes: (BigUint::from_bytes_le(&a.bytes) % BigUint::from_bytes_le(&m.bytes)).to_bytes_le() }
}

/// `a >> 1` on `BigUint`.  Trusted: the value halved, rounded down.
#[verifier::external_body]
pub(crate) fn natural_halve(a: &Natural) -> (out: Natural)
    ensures
        out@ == a@ / 2,
{
    Natural { bytes: (BigUint::from_bytes_le(&a.bytes) >> 1u32).to_bytes_le() }
}

/// `Integer::is_even` of a `BigUint`.  Trusted: whether 2 divides the value.
#[verifier::external_body]
pub(crate) fn natural_is_even(a: &Natural) -> (even: bool)
    ensures
        even == (a@ % 2 == 0),
{
    BigUint::from_bytes_le(&a.bytes).is_even()
}

/// `==` on `BigUint`.  Trusted: equality of the values.
#[verifier::external_body]
pub(crate) fn natural_eq(a: &Natural, b: &Natural) -> (same: bool)
    ensures
        same == (a@ == b@),
{
    BigUint::from_bytes_le(&a.bytes) == BigUint::from_bytes_le(&b.bytes)
}

/// `<` on `BigUint`.  Trusted: the order of the values.
#[verifier::external_body]
pub(crate) fn natural_lt(a: &Natural, b: &Natural) -> (less: bool)
    ensures
        less == (a@ < b@),
{
    BigUint::from_bytes_le(&a.bytes) < BigUint::from_bytes_le(&b.bytes)
}

/// `BigUint::modpow`, which panics when the modulus is zero.  Trusted: the
/// power reduced modulo `modulus`.
#[verifier::external_body]
pub(crate) fn natural_modpow(base: &Natural, exponent: &Natural, modulus: &Natural) -> (out:
    Natural)
    requires
        modulus@ > 0,
    ensures
        out@ == pow(base@ as int, exponent@) % (modulus@ as int),
{
    let power = BigUint::from_bytes_le(&base.bytes).modpow(
        &BigUint::from_bytes_le(&exponent.bytes),
        &BigUint::from_bytes_le(&modulus.bytes),
    );
    Natural { bytes: power.to_bytes_le() }
}

/// `BigUint::sqrt`.  Trusted: the square root rounded down.
#[verifier::external_body]
pub(crate) fn natural_sqrt(a: &Natural) -> (out: Natural)
    ensures
        out@ * out@ <= a@ < (out@ + 1) * (out@ + 1),
{
    Natural { bytes: BigUint::from_bytes_le(&a.bytes).sqrt().to_bytes_le() }
}

/// `RandBigInt::gen_biguint` on the operating system's generator.  Trusted:
/// every outcome has at most `bits` bits.
#[verifier::external_body]
pub(crate) fn random_natural(bits: u64) -> (out: Natural)
    ensures
        out@ < pow2(bits as nat),
{
    Natural { bytes: OsRng.gen_biguint(bits).to_bytes_le() }
}

/// `RandBigInt::gen_biguint_range` on the operating system's generator,
/// which panics unless `low < high`.  Trusted: every outcome lies in
/// `low..high`.
#[verifier::external_body]
pub(crate) fn random_natural_between(low: &Natural, high: &Natural) -> (out: Natural)
    requires
        low@ < high@,
    ensures
        low@ <= out@ < high@,
{
    let drawn = OsRng.gen_biguint_range(
        &BigUint::from_bytes_le(&low.bytes),
        &BigUint::from_bytes_le(&high.bytes),
    );
    Natural { bytes: drawn.to_bytes_le() }
}

/// `BigUint::pow(2)`.  Trusted: the square.
#[verifier::external_body]
pub(crate) fn natural_square(a: &Natural) -> (out: Natural)
    ensures
        out@ == a@ * a@,
{
    Natural { bytes: BigUint::from_bytes_le(&a.bytes).pow(2).to_bytes_le() }
}

/// `BigUint::bits`.  Trusted: the fewest bits that express the value, 0 for
/// zero.
#[verifier::external_body]
pub(crate) fn natural_bits(a: &Natural) -> (bits: u64)
    ensures
        a@ == 0 ==> bits == 0,
        a@ > 0 ==> bits > 0 && pow2((bits - 1) as nat) <= a@ < pow2(bits as nat),
{
    BigUint::from_bytes_le(&a.bytes).bits()
}

/// `BigUint::bit`.  Trusted: whether the bit at position `bit` is set.
#[verifier::external_body]
pub(crate) fn natural_bit(a: &Natural, bit: u64) -> (set: bool)
    ensures
        set == ((a@ / pow2(bit as nat)) % 2 == 1),
{
    BigUint::from_bytes_le(&a.bytes).bit(bit)
}

/// `BigUint::set_bit(bit, true)` on a copy.  Trusted: the value with that
/// bit set.
#[verifier::external_body]
pub(crate) fn natural_with_bit(a: &Natural, bit: u64) -> (out: Natural)
    ensures
        out@ == if (a@ / pow2(bit as nat)) % 2 == 1 {
            a@
        } else {
            a@ + pow2(bit as nat)
        },
{
    let mut value = BigUint::from_bytes_le(&a.bytes);
    value.set_bit(bit, true);
    Natural { bytes: value.to_bytes_le() }
}

/// `BigUint::iter_u64_digits().next()`.  Trusted: the lowest 64 bits of a
/// value that is not zero, and `None` for zero, which has no digits.
#[verifier::external_body]
pub(crate) fn natural_low_digit(a: &Natural) -> (digit: Option<u64>)
    ensures
        match digit {
            Some(low) => a@ > 0 && low == a@ % 0x1_0000_0000_0000_0000,
            None => a@ == 0,
        },
{
    BigUint::from_bytes_le(&a.bytes).iter_u64_digits().next()
}

/// The number of `bits` bits that `RandBigInt::gen_biguint` draws from a
/// `ChaCha20Rng` seeded with `seed` through `seed_from_u64`.
pub uninterp spec fn chacha20_natural(seed: u64, bits: u64) -> nat;

/// `ChaCha20Rng::seed_from_u64(seed).gen_biguint(bits)`.  Trusted: the
/// generator is reproducible, so the outcome is a function of the seed and
/// the size; it has at most `bits` bits.
#[verifier::external_body]
pub(crate) fn seeded_natural(seed: u64, bits: u64) -> (out: Natural)
    ensures
        out@ == chacha20_natural(seed, bits),
        out@ < pow2(bits as nat),
{
    Natural { bytes: ChaCha20Rng::seed_from_u64(seed).gen_biguint(bits).to_bytes_le() }
}

} // verus!
