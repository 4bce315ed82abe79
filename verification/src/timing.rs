//! A device whose modular exponentiation leaks through its running time.
//!
//! The device computes `m^d mod p` by square and multiply.  How long one
//! run takes depends on the random delays of its steps, and those are drawn
//! from generators seeded by the numbers the run goes through.  This module
//! computes those seeds; the delays themselves are computed outside.
use vstd::arithmetic::power::pow;
use vstd::arithmetic::power2::pow2;
use vstd::prelude::*;
use crate::natural::{
    chacha20_natural,
    natural_add,
    natural_bit,
    natural_bits,
    natural_from_u128,
    natural_low_digit,
    natural_mul,
    natural_rem,
    natural_square,
    natural_with_bit,
    seeded_natural,
    Natural,
};

verus! {

/// The key lengths, in bits, for which a modulus is on file.
pub open spec fn supported_keylen(keylen: u64) -> bool {
    keylen == 8 || keylen == 16 || keylen == 32 || keylen == 64 || keylen == 128 || keylen == 256
}

/// The prime modulus on file for a key length.
pub open spec fn modulus_for(keylen: u64) -> nat {
    if keylen == 8 {
        61
    } else if keylen == 16 {
        53759
    } else if keylen == 32 {
        2675797811
    } else if keylen == 64 {
        8642890157798231327
    } else if keylen == 128 {
        249018405283997733407297959207515566297
    } else {
        44836394558820158783687605622545866580915032641323282158738215690847176590297nat
    }
}

/// The modulus for a supported key length.
pub fn get_modulus(keylen: u64) -> (modulus: Natural)
    requires
        supported_keylen(keylen),
    ensures
        modulus@ == modulus_for(keylen),
{
    if keylen == 8 {
        natural_from_u128(61)
    } else if keylen == 16 {
        natural_from_u128(53759)
    } else if keylen == 32 {
        natural_from_u128(2675797811)
    } else if keylen == 64 {
        natural_from_u128(8642890157798231327)
    } else if keylen == 128 {
        natural_from_u128(249018405283997733407297959207515566297)
    } else {
        let radix = natural_from_u128(0x1_0000_0000_0000_0000);
        let shift = natural_mul(&radix, &radix);
        let high = natural_from_u128(131762321287830616161007248520888276503);
        let low = natural_from_u128(214071560296962232937623767748476371929);
        let shifted = natural_mul(&high, &shift);
        assert(shift@ == 0x1_0000_0000_0000_0000_0000_0000_0000_0000nat) by (nonlinear_arith)
            requires
                shift@ == radix@ * radix@,
                radix@ == 0x1_0000_0000_0000_0000,
        ;
        assert(shifted@ == 131762321287830616161007248520888276503 * 0x1_0000_0000_0000_0000_0000_0000_0000_0000nat);
        natural_add(&shifted, &low)
    }
}

/// The device under attack: it holds a secret exponent.
pub struct VictimDevice {
    pub modulus: Natural,
    pub secret: Natural,
}

impl VictimDevice {
    /// A device for keys of `keylen` bits.  Its secret is drawn from a
    /// generator seeded with `seed`; the top bit is then set, so that the
    /// secret has exactly `keylen` bits.
    pub fn new(seed: u64, keylen: u64) -> (device: Self)
        requires
            supported_keylen(keylen),
        ensures
            device.modulus@ == modulus_for(keylen),
            device.secret@ == if bit_set(chacha20_natural(seed, keylen), (keylen - 1) as nat) {
                chacha20_natural(seed, keylen)
            } else {
                chacha20_natural(seed, keylen) + pow2((keylen - 1) as nat)
            },
            pow2((keylen - 1) as nat) <= device.secret@ < pow2(keylen as nat),
    {
        let drawn = seeded_natural(seed, keylen);
        let secret = natural_with_bit(&drawn, keylen - 1);
        proof {
            lemma_top_bit(drawn@, (keylen - 1) as nat);
        }
        VictimDevice { modulus: get_modulus(keylen), secret }
    }
}

/// The attacker's copy of the device: the same modulus, no secret.
pub struct AttackerDevice {
    pub modulus: Natural,
}

impl AttackerDevice {
    /// A device for keys of `keylen` bits.
    pub fn new(keylen: u64) -> (device: Self)
        requires
            supported_keylen(keylen),
        ensures
            device.modulus@ == modulus_for(keylen),
    {
        AttackerDevice { modulus: get_modulus(keylen) }
    }
}

/// Whether the bit of `d` at `position` is set.
pub open spec fn bit_set(d: nat, position: nat) -> bool {
    (d / pow2(position)) % 2 == 1
}

/// A number below `2^(top + 1)` with bit `top` set lies in
/// `2^top .. 2^(top + 1)`, and setting that bit adds `2^top` if it was clear.
proof fn lemma_top_bit(value: nat, top: nat)
    requires
        value < pow2(top + 1),
    ensures
        bit_set(value, top) ==> pow2(top) <= value,
        !bit_set(value, top) ==> value < pow2(top),
        pow2(top + 1) == 2 * pow2(top),
{
    vstd::arithmetic::power2::lemma_pow2_unfold(top + 1);
    vstd::arithmetic::power2::lemma_pow2_pos(top);
    let unit = pow2(top) as int;
    vstd::arithmetic::div_mod::lemma_fundamental_div_mod(value as int, unit);
    vstd::arithmetic::div_mod::lemma_div_pos_is_pos(value as int, unit);
    let quotient = value as int / unit;
    if quotient >= 2 {
        assert(unit * quotient >= unit * 2) by (nonlinear_arith)
            requires
                quotient >= 2,
                unit > 0,
        ;
    }
    if quotient == 0 {
        assert(unit * quotient == 0) by (nonlinear_arith)
            requires
                quotient == 0,
        ;
        vstd::arithmetic::div_mod::lemma_mod_bound(value as int, unit);
    }
    if quotient == 1 {
        assert(unit * quotient == unit) by (nonlinear_arith)
            requires
                quotient == 1,
        ;
        vstd::arithmetic::div_mod::lemma_mod_bound(value as int, unit);
    }
}

/// `width` is the number of steps of the ladder for the exponent `d`: its
/// bit length, or 1 when `d` is zero.
pub open spec fn ladder_width(d: nat, width: nat) -> bool {
    &&& width >= 1
    &&& d < pow2(width)
    &&& d > 0 ==> pow2((width - 1) as nat) <= d
    &&& d == 0 ==> width == 1
}

/// The exponent reached after `steps` steps: the top `steps` of the `width`
/// bits of `d`.
pub open spec fn leading_bits(d: nat, width: nat, steps: nat) -> nat {
    d / pow2((width - steps) as nat)
}

/// The number the ladder holds after `steps` steps: `m` to the exponent
/// reached, modulo `p`.
pub open spec fn ladder_value(m: nat, d: nat, p: nat, width: nat, steps: nat) -> nat {
    (pow(m as int, leading_bits(d, width, steps)) % (p as int)) as nat
}

/// The seed that step `step` (counted from 1) leaves behind: the low 64
/// bits of the ladder's number where the step multiplies, nothing where it
/// only squares.
pub open spec fn step_seed(m: nat, d: nat, p: nat, width: nat, step: nat) -> Option<u64> {
    if bit_set(d, (width - step) as nat) {
        Some((ladder_value(m, d, p, width, step) % 0x1_0000_0000_0000_0000) as u64)
    } else {
        None
    }
}

/// Step `step` multiplies and leaves zero behind, a number that seeds no
/// generator.
pub open spec fn step_hits_zero(m: nat, d: nat, p: nat, width: nat, step: nat) -> bool {
    &&& 1 <= step <= width
    &&& bit_set(d, (width - step) as nat)
    &&& ladder_value(m, d, p, width, step) == 0
}

/// What one run of square and multiply leaves behind for the clock.
pub struct LadderTrace {
    /// Seed of the generator that times every squaring: the low 64 bits of
    /// the message.
    pub message_seed: u64,
    /// For every step, from the top bit of the exponent down: the seed of
    /// the generator that times its multiplication, if it multiplies.
    pub multiply_seeds: Vec<Option<u64>>,
}

/// Runs `m^d mod p` by square and multiply, from the top bit of `d` down,
/// and records the seeds that determine how long the run takes.
///
/// There is no trace when a seed would have to be taken from zero: when `m`
/// is zero, or when a multiplication gives zero.
pub fn square_and_multiply(m: &Natural, d: &Natural, p: &Natural) -> (trace: Option<LadderTrace>)
    requires
        p@ > 0,
    ensures
        match trace {
            Some(t) => {
                &&& m@ > 0
                &&& t.message_seed == m@ % 0x1_0000_0000_0000_0000
                &&& ladder_width(d@, t.multiply_seeds@.len())
                &&& forall|k: int|
                    0 <= k < t.multiply_seeds@.len() ==> #[trigger] t.multiply_seeds@[k]
                        == step_seed(m@, d@, p@, t.multiply_seeds@.len(), (k + 1) as nat)
                &&& forall|step: nat| !step_hits_zero(m@, d@, p@, t.multiply_seeds@.len(), step)
            },
            None => m@ == 0 || exists|width: nat, step: nat|
                ladder_width(d@, width) && #[trigger] step_hits_zero(m@, d@, p@, width, step),
        },
{
    let message_seed = match natural_low_digit(m) {
        Some(low) => low,
        None => {
            return None;
        },
    };
    let mut width = natural_bits(d);
    if width == 0 {
        width = 1;
        proof {
            vstd::arithmetic::power2::lemma2_to64();
        }
    }
    let mut value = natural_from_u128(1);
    let mut multiply_seeds: Vec<Option<u64>> = Vec::new();
    let mut step: u64 = 0;
    while step < width
        invariant
            step <= width,
            p@ > 0,
            ladder_width(d@, width as nat),
            multiply_seeds@.len() == step,
            step == 0 ==> value@ == 1,
            step > 0 ==> value@ == ladder_value(m@, d@, p@, width as nat, step as nat),
            forall|k: int|
                0 <= k < step ==> #[trigger] multiply_seeds@[k] == step_seed(
                    m@,
                    d@,
                    p@,
                    width as nat,
                    (k + 1) as nat,
                ),
            forall|earlier: nat|
                earlier <= step ==> !step_hits_zero(m@, d@, p@, width as nat, earlier),
        decreases width - step,
    {
        let squared = natural_square(&value);
        let reduced = natural_rem(&squared, p);
        let position = width - step - 1;
        proof {
            lemma_ladder_square(m@, d@, p@, width as nat, step as nat, value@);
        }
        if natural_bit(d, position) {
            let product = natural_mul(&reduced, m);
            value = natural_rem(&product, p);
            proof {
                lemma_ladder_multiply(m@, d@, p@, width as nat, step as nat, reduced@);
            }
            match natural_low_digit(&value) {
                Some(low) => {
                    multiply_seeds.push(Some(low));
                },
                None => {
                    assert(step_hits_zero(m@, d@, p@, width as nat, (step + 1) as nat));
                    return None;
                },
            }
        } else {
            value = reduced;
            multiply_seeds.push(None);
        }
        step += 1;
    }
    Some(LadderTrace { message_seed, multiply_seeds })
}

/// Halving the divisor's exponent doubles the quotient, up to the bit that
/// falls out: `d / 2^e == 2 * (d / 2^(e+1)) + bit e of d`.
proof fn lemma_next_leading_bits(d: nat, e: nat)
    ensures
        d / pow2(e) == 2 * (d / pow2(e + 1)) + (d / pow2(e)) % 2,
{
    vstd::arithmetic::power2::lemma_pow2_unfold(e + 1);
    vstd::arithmetic::power2::lemma_pow2_pos(e);
    vstd::arithmetic::div_mod::lemma_div_denominator(d as int, pow2(e) as int, 2);
    assert(pow2(e) * 2 == pow2(e + 1));
}

/// Squaring in step `step + 1` doubles the exponent reached so far.
proof fn lemma_ladder_square(m: nat, d: nat, p: nat, width: nat, step: nat, value: nat)
    requires
        p > 0,
        step < width,
        ladder_width(d, width),
        step == 0 ==> value == 1,
        step > 0 ==> value == ladder_value(m, d, p, width, step),
    ensures
        (value * value) % p == pow(m as int, 2 * leading_bits(d, width, step)) % (p as int),
        leading_bits(d, width, step + 1) == 2 * leading_bits(d, width, step) + (d / pow2(
            (width - step - 1) as nat,
        )) % 2,
{
    let reached = leading_bits(d, width, step);
    lemma_next_leading_bits(d, (width - step - 1) as nat);
    vstd::arithmetic::power::lemma_pow_adds(m as int, reached, reached);
    if step == 0 {
        vstd::arithmetic::power2::lemma_pow2_pos(width);
        vstd::arithmetic::div_mod::lemma_basic_div(d as int, pow2(width) as int);
        vstd::arithmetic::power::lemma_pow0(m as int);
    } else {
        let power = pow(m as int, reached);
        vstd::arithmetic::div_mod::lemma_mul_mod_noop(power, power, p as int);
    }
}

/// Multiplying in step `step + 1` adds one to the doubled exponent.
proof fn lemma_ladder_multiply(m: nat, d: nat, p: nat, width: nat, step: nat, reduced: nat)
    requires
        p > 0,
        step < width,
        reduced == pow(m as int, 2 * leading_bits(d, width, step)) % (p as int),
        leading_bits(d, width, step + 1) == 2 * leading_bits(d, width, step) + 1,
    ensures
        (reduced * m) % p == ladder_value(m, d, p, width, step + 1),
{
    let doubled = 2 * leading_bits(d, width, step);
    let power = pow(m as int, doubled);
    vstd::arithmetic::div_mod::lemma_mul_mod_noop_left(power, m as int, p as int);
    vstd::arithmetic::power::lemma_pow_adds(m as int, doubled, 1);
    vstd::arithmetic::power::lemma_pow1(m as int);
    vstd::arithmetic::div_mod::lemma_mod_bound(power * m, p as int);
}

} // verus!
