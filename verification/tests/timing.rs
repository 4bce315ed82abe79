use cryptanalysis::natural::Natural;
use cryptanalysis::timing::{get_modulus, square_and_multiply, AttackerDevice, VictimDevice};
use num_bigint::{BigUint, RandBigInt};
use rand::SeedableRng;
use rand_chacha::ChaCha20Rng;
use std::str::FromStr;

fn natural(value: &BigUint) -> Natural {
    Natural { bytes: value.to_bytes_le() }
}

fn big(value: &Natural) -> BigUint {
    BigUint::from_bytes_le(&value.bytes)
}

#[test]
fn moduli_on_file() {
    assert_eq!(big(&get_modulus(8)), BigUint::from(61_u8));
    assert_eq!(big(&get_modulus(16)), BigUint::from(53759_u16));
    assert_eq!(big(&get_modulus(32)), BigUint::from(2675797811_u32));
    assert_eq!(big(&get_modulus(64)), BigUint::from(8642890157798231327_u64));
    assert_eq!(
        big(&get_modulus(128)),
        BigUint::from(249018405283997733407297959207515566297_u128)
    );
    assert_eq!(
        big(&get_modulus(256)),
        BigUint::from_str(
            "44836394558820158783687605622545866580915032641323282158738215690847176590297"
        )
        .unwrap()
    );
}

#[test]
fn victim_secret_has_the_top_bit_set() {
    for keylen in [8u64, 16, 32, 64, 128, 256] {
        for seed in [0u64, 1, 42, u64::MAX] {
            let device = VictimDevice::new(seed, keylen);
            let mut expected = ChaCha20Rng::seed_from_u64(seed).gen_biguint(keylen);
            expected.set_bit(keylen - 1, true);
            assert_eq!(big(&device.secret), expected);
            assert_eq!(big(&device.secret).bits(), keylen);
            assert_eq!(big(&device.modulus), big(&get_modulus(keylen)));
            assert_eq!(big(&AttackerDevice::new(keylen).modulus), big(&device.modulus));
        }
    }
}

#[test]
fn trace_of_a_small_run() {
    // 3^5 mod 61 with 5 = 101b: 1 -> 1*3 = 3 | 9 | 81 mod 61 = 20 -> 60
    let m = natural(&BigUint::from(3u32));
    let d = natural(&BigUint::from(5u32));
    let p = natural(&BigUint::from(61u32));
    let trace = square_and_multiply(&m, &d, &p).unwrap();
    assert_eq!(trace.message_seed, 3);
    assert_eq!(trace.multiply_seeds, vec![Some(3), None, Some(60)]);
}

#[test]
fn trace_for_exponent_zero_has_one_idle_step() {
    let m = natural(&BigUint::from(7u32));
    let d = natural(&BigUint::from(0u32));
    let p = natural(&BigUint::from(61u32));
    let trace = square_and_multiply(&m, &d, &p).unwrap();
    assert_eq!(trace.message_seed, 7);
    assert_eq!(trace.multiply_seeds, vec![None]);
}

#[test]
fn no_trace_where_a_seed_would_come_from_zero() {
    let zero = natural(&BigUint::from(0u32));
    let p = natural(&BigUint::from(61u32));
    let d = natural(&BigUint::from(5u32));
    assert!(square_and_multiply(&zero, &d, &p).is_none());
    // 61^1 mod 61 = 0
    let m = natural(&BigUint::from(61u32));
    assert!(square_and_multiply(&m, &natural(&BigUint::from(1u32)), &p).is_none());
    // modulus 1 makes every product zero
    let one = natural(&BigUint::from(1u32));
    assert!(square_and_multiply(&natural(&BigUint::from(5u32)), &d, &one).is_none());
    // an exponent without set bits never multiplies
    assert!(square_and_multiply(&m, &zero, &p).is_some());
}

#[test]
fn last_seed_is_the_power() {
    let p = big(&get_modulus(128));
    let m = BigUint::from_str("123456789012345678901234567890").unwrap();
    let d = BigUint::from_str("98765432109876543210987654321").unwrap();
    assert!(d.bit(0));
    let trace = square_and_multiply(&natural(&m), &natural(&d), &natural(&p)).unwrap();
    assert_eq!(trace.multiply_seeds.len() as u64, d.bits());
    let set = trace.multiply_seeds.iter().filter(|s| s.is_some()).count() as u64;
    assert_eq!(set, d.count_ones());
    let power = m.modpow(&d, &p);
    assert_eq!(*trace.multiply_seeds.last().unwrap(), power.iter_u64_digits().next());
    assert_eq!(Some(trace.message_seed), m.iter_u64_digits().next());
    for (k, seed) in trace.multiply_seeds.iter().enumerate() {
        let position = d.bits() - 1 - k as u64;
        assert_eq!(seed.is_some(), d.bit(position));
        if let Some(low) = seed {
            let reached = m.modpow(&(&d >> position as usize), &p);
            assert_eq!(Some(*low), reached.iter_u64_digits().next());
        }
    }
}
