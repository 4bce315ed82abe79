use cryptanalysis::discrete_log::shanks;
use cryptanalysis::natural::Natural;
use num_bigint::BigUint;

fn natural(value: u64) -> Natural {
    Natural { bytes: BigUint::from(value).to_bytes_le() }
}

fn big(value: Option<Natural>) -> Option<BigUint> {
    value.map(|n| BigUint::from_bytes_le(&n.bytes))
}

#[test]
fn smoke_test() {
    let n = natural(433);
    let g = natural(5);
    let h = natural(71);

    assert_eq!(big(shanks(n, g, h)), Some(BigUint::from(103_u32)));
}

#[test]
fn every_power_is_found() {
    // 5 generates the units modulo 433: each h = 5^x is traced back to an
    // exponent that gives h again.
    let n = 433u64;
    let mut h = 1u64;
    for _ in 0..432 {
        let x = big(shanks(natural(n), natural(5), natural(h))).unwrap();
        assert_eq!(BigUint::from(5u32).modpow(&x, &BigUint::from(n)), BigUint::from(h));
        h = h * 5 % n;
    }
}

#[test]
fn unreachable_target_gives_none() {
    // the powers of 2 modulo 7 are 1, 2, 4
    assert_eq!(big(shanks(natural(7), natural(2), natural(3))), None);
    assert_eq!(big(shanks(natural(7), natural(2), natural(4))), Some(BigUint::from(2u32)));
    // a target that is not reduced is missed by the first giant step, which
    // looks it up as it is, and met by a later one: 3^7 = 3 = 10 (mod 7)
    assert_eq!(big(shanks(natural(7), natural(3), natural(7 + 3))), Some(BigUint::from(7u32)));
    assert_eq!(big(shanks(natural(7), natural(3), natural(3))), Some(BigUint::from(1u32)));
}

#[test]
fn smallest_modulus_and_large_values() {
    assert_eq!(big(shanks(natural(3), natural(2), natural(2))), Some(BigUint::from(1u32)));
    assert_eq!(big(shanks(natural(3), natural(2), natural(1))), Some(BigUint::from(0u32)));
    let n = 1_000_003u64;
    let x = big(shanks(natural(n), natural(2), natural(65536))).unwrap();
    assert_eq!(BigUint::from(2u32).modpow(&x, &BigUint::from(n)), BigUint::from(65536u32));
}
