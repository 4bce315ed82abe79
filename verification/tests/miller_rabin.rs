use cryptanalysis::natural::Natural;
use cryptanalysis::primality::{
    attempt_with, is_prime, is_strong_probable_prime, make_odd, miller_rabin_test,
    prime_attempt, prime_num, prime_num_serial, split_power_of_two, trial_division,
    SMALL_PRIMES,
};
use num_bigint::BigUint;

fn natural(value: &BigUint) -> Natural {
    Natural { bytes: value.to_bytes_le() }
}

fn big(value: &Natural) -> BigUint {
    BigUint::from_bytes_le(&value.bytes)
}

#[test]
fn small_primes_test_works() {
    let n = BigUint::from(0_u32);
    assert!(!is_prime(&natural(&n)));

    let n = BigUint::from(1_u32);
    assert!(is_prime(&natural(&n)));

    let n = BigUint::from(2_u32);
    assert!(is_prime(&natural(&n)));

    let n = BigUint::from(17791_u32);
    assert!(is_prime(&natural(&n)));

    let n = BigUint::from(17791 * 17839 * 17851_u64);
    assert!(!is_prime(&natural(&n)));
}

#[test]
fn miller_rabin_test_works() {
    let p = BigUint::parse_bytes(
        b"1269137899329015734198852969175332151915502982003874425987364731216285546438096536038703243719054337",
        10,
    ).unwrap();
    assert!(is_prime(&natural(&p)));

    let q = BigUint::parse_bytes(
        b"6504286590288767118032686861713724448149119312357868347142148568446447367009371975895368151336893777",
        10,
    ).unwrap();
    assert!(is_prime(&natural(&q)));

    let pq = p * q;
    assert!(!is_prime(&natural(&pq)));
}

#[test]
fn trial_division_verdicts() {
    assert_eq!(trial_division(&natural(&BigUint::from(0u32))), Some(false));
    assert_eq!(trial_division(&natural(&BigUint::from(1u32))), Some(true));
    for p in SMALL_PRIMES.iter() {
        assert_eq!(trial_division(&natural(&BigUint::from(*p))), Some(true));
    }
    assert_eq!(trial_division(&natural(&BigUint::from(4u32))), Some(false));
    assert_eq!(trial_division(&natural(&BigUint::from(1039u32 * 1039))), Some(false));
    // 1049 and 1051 are the first primes above the table
    assert_eq!(trial_division(&natural(&BigUint::from(1049u32))), None);
    assert_eq!(trial_division(&natural(&BigUint::from(1049u32 * 1051))), None);
    assert!(is_prime(&natural(&BigUint::from(1049u32))));
    assert!(!is_prime(&natural(&BigUint::from(1049u32 * 1051))));
}

#[test]
fn leading_zero_bytes_do_not_matter() {
    let padded = Natural { bytes: vec![0x7f, 0x45, 0, 0, 0] };
    assert!(is_prime(&padded));
    let empty = Natural { bytes: vec![] };
    assert!(!is_prime(&empty));
    assert_eq!(big(&padded.duplicate()), BigUint::from(17791u32));
}

#[test]
fn splitting_off_the_power_of_two() {
    let (s, d) = split_power_of_two(&natural(&BigUint::from(96u32)));
    assert_eq!(big(&s), BigUint::from(5u32));
    assert_eq!(big(&d), BigUint::from(3u32));
    let (s, d) = split_power_of_two(&natural(&BigUint::from(7u32)));
    assert_eq!(big(&s), BigUint::from(0u32));
    assert_eq!(big(&d), BigUint::from(7u32));
    let (s, d) = split_power_of_two(&natural(&(BigUint::from(1u32) << 200)));
    assert_eq!(big(&s), BigUint::from(200u32));
    assert_eq!(big(&d), BigUint::from(1u32));
}

#[test]
fn strong_pseudoprime_2047() {
    // 2047 = 23 * 89 is the smallest strong pseudoprime to base 2.
    let n = natural(&BigUint::from(2047u32));
    assert!(is_strong_probable_prime(&n, &natural(&BigUint::from(2u32))));
    assert!(!is_strong_probable_prime(&n, &natural(&BigUint::from(3u32))));
    // 13: 12 = 3 * 2^2; 5^3 = 125 = 8 mod 13, 8^2 = 64 = 12 mod 13
    let n = natural(&BigUint::from(13u32));
    assert!(is_strong_probable_prime(&n, &natural(&BigUint::from(5u32))));
    // 15: 14 = 7 * 2; 2^7 = 128 = 8 mod 15
    let n = natural(&BigUint::from(15u32));
    assert!(!is_strong_probable_prime(&n, &natural(&BigUint::from(2u32))));
    // base 14 = -1 mod 15 passes: (-1)^7 = -1
    assert!(is_strong_probable_prime(&n, &natural(&BigUint::from(14u32))));
}

#[test]
fn miller_rabin_on_carmichael_number() {
    // 561 = 3 * 11 * 17 fools the Fermat test but not this one.
    let n = natural(&BigUint::from(561u32));
    assert!(!miller_rabin_test(&n, 40));
    assert!(miller_rabin_test(&n, 0));
    let n = natural(&BigUint::from(104729u32));
    assert!(miller_rabin_test(&n, 8));
}

#[test]
fn candidates_are_made_odd() {
    assert_eq!(big(&make_odd(natural(&BigUint::from(10u32)))), BigUint::from(11u32));
    assert_eq!(big(&make_odd(natural(&BigUint::from(11u32)))), BigUint::from(11u32));
    assert_eq!(big(&make_odd(natural(&BigUint::from(0u32)))), BigUint::from(1u32));
}

#[test]
fn prime_search_results() {
    for _ in 0..20 {
        if let Some(n) = prime_attempt(64) {
            let value = big(&n);
            assert!(value.bit(0));
            assert!(value.bits() <= 64);
            assert!(is_prime(&n));
        }
    }
    let (n, tried) = prime_num_serial(128, None).unwrap();
    assert!(tried < 5000);
    assert!(big(&n).bit(0));
    assert!(big(&n).bits() <= 128);
    assert!(is_prime(&n));

    assert!(prime_num(64, Some(0)).is_none());
    assert!(prime_num_serial(64, Some(0)).is_none());
    let n = prime_num(256, Some(4000)).unwrap();
    assert!(big(&n).bits() <= 256);
    assert!(is_prime(&n));
    // with no bits to draw, the only candidate is 1, which counts as prime
    let (n, tried) = prime_num_serial(0, Some(1)).unwrap();
    assert_eq!(big(&n), BigUint::from(1u32));
    assert_eq!(tried, 0);
}

#[test]
fn attempts_on_given_numbers() {
    let attempt = |value: u32| attempt_with(natural(&BigUint::from(value))).map(|n| big(&n));
    assert_eq!(attempt(10), Some(BigUint::from(11u32)));
    assert_eq!(attempt(13), Some(BigUint::from(13u32)));
    assert_eq!(attempt(14), None);
    assert_eq!(attempt(0), Some(BigUint::from(1u32)));
    assert_eq!(attempt(1), Some(BigUint::from(1u32)));
    // 1049 * 1051 has no small factor; the witnesses find it composite
    assert_eq!(attempt(1049 * 1051 - 1), None);
    assert_eq!(attempt(104728), Some(BigUint::from(104729u32)));
}

#[test]
fn at_most_one_bit_always_gives_one() {
    for bits in [0usize, 1] {
        assert_eq!(prime_attempt(bits).map(|n| big(&n)), Some(BigUint::from(1u32)));
        assert_eq!(prime_num(bits, Some(3)).map(|n| big(&n)), Some(BigUint::from(1u32)));
        assert_eq!(prime_num(bits, None).map(|n| big(&n)), Some(BigUint::from(1u32)));
        let (n, tried) = prime_num_serial(bits, Some(2)).unwrap();
        assert_eq!(big(&n), BigUint::from(1u32));
        assert_eq!(tried, 0);
    }
}

#[test]
fn two_bits_give_one_or_three() {
    // candidates below 4 are 1 and 3, and both are accepted
    for _ in 0..20 {
        let n = big(&prime_attempt(2).unwrap());
        assert!(n == BigUint::from(1u32) || n == BigUint::from(3u32));
    }
    let (n, tried) = prime_num_serial(2, Some(1)).unwrap();
    assert!(big(&n) == BigUint::from(1u32) || big(&n) == BigUint::from(3u32));
    assert_eq!(tried, 0);
}
