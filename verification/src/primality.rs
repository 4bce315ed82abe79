//! The Miller-Rabin primality test and a search for random primes.
use rayon::iter::{IntoParallelIterator, ParallelIterator};
use vstd::arithmetic::power::pow;
use vstd::arithmetic::power2::pow2;
use vstd::prelude::*;
use crate::natural::{
    natural_add,
    natural_eq,
    natural_from_u128,
    natural_halve,
    natural_is_even,
    natural_lt,
    natural_modpow,
    natural_rem,
    natural_sub,
    random_natural,
    random_natural_between,
    Natural,
};

verus! {

/// Rounds of Miller-Rabin that `is_prime` runs.
pub const MILLER_RABIN_MAX_ITER: usize = 8;

/// Candidates that the prime search tries when no count is given.
pub const PRIME_GEN_MAX_ATTEMPTS: usize = 5000;

/// Number of entries of `SMALL_PRIMES`.
pub const SMALL_PRIME_COUNT: usize = 175;

/// The primes below 1040, in ascending order, for trial division.
pub const SMALL_PRIMES: [u16; 175] = [
    2, 3, 5, 7, 11, 13, 17, 19, 23, 29, 31, 37, 41, 43, 47, 53, 59, 61, 67, 71, 73, 79, 83, 89,
    97, 101, 103, 107, 109, 113, 127, 131, 137, 139, 149, 151, 157, 163, 167, 173, 179, 181,
    191, 193, 197, 199, 211, 223, 227, 229, 233, 239, 241, 251, 257, 263, 269, 271, 277, 281,
    283, 293, 307, 311, 313, 317, 331, 337, 347, 349, 353, 359, 367, 373, 379, 383, 389, 397,
    401, 409, 419, 421, 431, 433, 439, 443, 449, 457, 461, 463, 467, 479, 487, 491, 499, 503,
    509, 521, 523, 541, 547, 557, 563, 569, 571, 577, 587, 593, 599, 601, 607, 613, 617, 619,
    631, 641, 643, 647, 653, 659, 661, 673, 677, 683, 691, 701, 709, 719, 727, 733, 739, 743,
    751, 757, 761, 769, 773, 787, 797, 809, 811, 821, 823, 827, 829, 839, 853, 857, 859, 863,
    877, 881, 883, 887, 907, 911, 919, 929, 937, 941, 947, 953, 967, 971, 977, 983, 991, 997,
    1009, 1013, 1019, 1021, 1031, 1033, 1039,
];

/// How often 2 divides `m` (0 for `m == 0`).
pub open spec fn two_adicity(m: nat) -> nat
    decreases m,
{
    if m == 0 || m % 2 == 1 {
        0
    } else {
        1 + two_adicity(m / 2)
    }
}

/// `m` with all its factors 2 divided out (0 for `m == 0`).
pub open spec fn odd_part(m: nat) -> nat
    decreases m,
{
    if m == 0 || m % 2 == 1 {
        m
    } else {
        odd_part(m / 2)
    }
}

/// `n` is a strong probable prime to base `x`: with `n - 1 = d * 2^s`, `d`
/// odd, either `x^d` is 1 or `n - 1` modulo `n`, or `x^(d * 2^r)` is `n - 1`
/// modulo `n` for some `r` with `1 <= r < s`.
pub open spec fn strong_probable_prime(n: nat, x: nat) -> bool {
    let s = two_adicity((n - 1) as nat);
    let d = odd_part((n - 1) as nat);
    let first = pow(x as int, d) % (n as int);
    ||| first == 1
    ||| first == n - 1
    ||| exists|r: nat| 1 <= r < s && #[trigger] pow(x as int, d * pow2(r)) % (n as int) == n - 1
}

/// Entry `i` of `SMALL_PRIMES` divides `n`, and no earlier entry does.
pub open spec fn first_small_factor_at(n: nat, i: int) -> bool {
    &&& 0 <= i < SMALL_PRIME_COUNT
    &&& n % (SMALL_PRIMES[i] as nat) == 0
    &&& forall|j: int| 0 <= j < i ==> n % (#[trigger] SMALL_PRIMES[j] as nat) != 0
}

/// No entry of `SMALL_PRIMES` divides `n`.
pub open spec fn no_small_factor(n: nat) -> bool {
    forall|j: int| 0 <= j < SMALL_PRIME_COUNT ==> n % (#[trigger] SMALL_PRIMES[j] as nat) != 0
}

/// The verdict of trial division where it decides: 0 is not prime, 1 counts
/// as prime, and a number with a small prime factor is prime exactly when it
/// is that factor.  `None` when no small prime divides `n`.
pub open spec fn trial_verdict(n: nat) -> Option<bool> {
    if n == 0 {
        Some(false)
    } else if n == 1 {
        Some(true)
    } else if exists|i: int| first_small_factor_at(n, i) {
        Some(n == SMALL_PRIMES[choose|i: int| first_small_factor_at(n, i)])
    } else {
        None
    }
}

/// What a `true` of `is_prime` means for `n`: trial division says so, or
/// trial division is undecided and `n` is a strong probable prime to some
/// base in `2..n-1`.
pub open spec fn probably_prime(n: nat) -> bool {
    match trial_verdict(n) {
        Some(verdict) => verdict,
        None => exists|x: nat| 2 <= x < n - 1 && #[trigger] strong_probable_prime(n, x),
    }
}

/// What a `false` of `is_prime` means for `n`: trial division says so, or
/// trial division is undecided and some base in `2..n-1` is a witness that
/// `n` is composite.
pub open spec fn found_composite(n: nat) -> bool {
    match trial_verdict(n) {
        Some(verdict) => !verdict,
        None => exists|x: nat| 2 <= x < n - 1 && !#[trigger] strong_probable_prime(n, x),
    }
}

/// Splits `m > 0` into its power of two and its odd part: returns `(s, d)`
/// with `m = d * 2^s` and `d` odd.
pub fn split_power_of_two(m: &Natural) -> (parts: (Natural, Natural))
    requires
        m@ > 0,
    ensures
        parts.0@ == two_adicity(m@),
        parts.1@ == odd_part(m@),
{
    let one = natural_from_u128(1);
    let mut s = natural_from_u128(0);
    let mut d = m.duplicate();
    while natural_is_even(&d)
        invariant
            d@ > 0,
            one@ == 1,
            two_adicity(m@) == s@ + two_adicity(d@),
            odd_part(m@) == odd_part(d@),
        decreases d@,
    {
        s = natural_add(&s, &one);
        d = natural_halve(&d);
    }
    (s, d)
}

/// One round of Miller-Rabin with the witness `x`, given `n - 1` and its
/// split into `2^s * d`.
pub fn round_passes(n: &Natural, n_minus_one: &Natural, s: &Natural, d: &Natural, x: &Natural) -> (pass:
    bool)
    requires
        n@ >= 2,
        n_minus_one@ == n@ - 1,
        s@ == two_adicity(n_minus_one@),
        d@ == odd_part(n_minus_one@),
    ensures
        pass == strong_probable_prime(n@, x@),
{
    let one = natural_from_u128(1);
    let two = natural_from_u128(2);
    let mut power = natural_modpow(x, d, n);
    if natural_eq(&power, &one) || natural_eq(&power, n_minus_one) {
        return true;
    }
    let mut count = natural_from_u128(1);
    proof {
        lemma_pow2_unfold(0);
        assert(d@ * 1 == d@);
    }
    while natural_lt(&count, s)
        invariant
            n@ >= 2,
            n_minus_one@ == n@ - 1,
            s@ == two_adicity(n_minus_one@),
            d@ == odd_part(n_minus_one@),
            one@ == 1,
            two@ == 2,
            count@ >= 1,
            power@ == pow(x@ as int, d@ * pow2((count@ - 1) as nat)) % (n@ as int),
            forall|r: nat|
                1 <= r < count@ ==> #[trigger] pow(x@ as int, d@ * pow2(r)) % (n@ as int) != n@ - 1,
        decreases s@ - count@,
    {
        let ghost exponent = d@ * pow2((count@ - 1) as nat);
        let squared = natural_modpow(&power, &two, n);
        proof {
            lemma_square_mod(x@ as int, exponent, n@ as int);
            lemma_pow2_unfold((count@ - 1) as nat);
            assert(exponent * 2 == d@ * pow2(count@)) by (nonlinear_arith)
                requires
                    exponent == d@ * pow2((count@ - 1) as nat),
                    pow2(count@) == 2 * pow2((count@ - 1) as nat),
            ;
        }
        power = squared;
        assert(power@ == pow(x@ as int, d@ * pow2(count@)) % (n@ as int));
        if natural_eq(&power, n_minus_one) {
            return true;
        }
        count = natural_add(&count, &one);
    }
    false
}

/// `pow2(k + 1)` is twice `pow2(k)`, and `pow2(0)` is 1.
proof fn lemma_pow2_unfold(k: nat)
    ensures
        pow2(k + 1) == 2 * pow2(k),
        pow2(0) == 1,
{
    vstd::arithmetic::power2::lemma_pow2_unfold(k + 1);
    vstd::arithmetic::power2::lemma2_to64();
}

/// Squaring a reduced power doubles the exponent:
/// `(x^e mod n)^2 mod n == x^(2e) mod n`.
proof fn lemma_square_mod(x: int, e: nat, n: int)
    requires
        n > 0,
    ensures
        pow(pow(x, e) % n, 2) % n == pow(x, e * 2) % n,
{
    vstd::arithmetic::power::lemma_pow_mod_noop(pow(x, e), 2, n);
    vstd::arithmetic::power::lemma_pow_multiplies(x, e, 2);
}

/// Whether `n` is a strong probable prime to base `x`.
pub fn is_strong_probable_prime(n: &Natural, x: &Natural) -> (pass: bool)
    requires
        n@ >= 2,
    ensures
        pass == strong_probable_prime(n@, x@),
{
    let one = natural_from_u128(1);
    let n_minus_one = natural_sub(n, &one);
    let (s, d) = split_power_of_two(&n_minus_one);
    round_passes(n, &n_minus_one, &s, &d, x)
}

/// Every entry of `SMALL_PRIMES` is at least 2, and the first two are 2 and 3.
pub proof fn lemma_small_primes_bounds()
    ensures
        forall|i: int| 0 <= i < SMALL_PRIME_COUNT ==> 2 <= #[trigger] SMALL_PRIMES[i] <= 1039,
        SMALL_PRIMES[0] == 2,
        SMALL_PRIMES[1] == 3,
{
}

/// Trial division by the small primes: the verdict where it decides.
pub fn trial_division(n: &Natural) -> (verdict: Option<bool>)
    ensures
        verdict == trial_verdict(n@),
        verdict is None ==> n@ >= 2 && no_small_factor(n@),
{
    let zero = natural_from_u128(0);
    let one = natural_from_u128(1);
    if natural_eq(n, &zero) {
        return Some(false);
    }
    if natural_eq(n, &one) {
        return Some(true);
    }
    let mut i: usize = 0;
    while i < SMALL_PRIME_COUNT
        invariant
            i <= SMALL_PRIME_COUNT,
            zero@ == 0,
            n@ >= 2,
            forall|j: int| 0 <= j < i ==> n@ % (#[trigger] SMALL_PRIMES[j] as nat) != 0,
        decreases SMALL_PRIME_COUNT - i,
    {
        proof {
            lemma_small_primes_bounds();
        }
        let prime = natural_from_u128(SMALL_PRIMES[i] as u128);
        let rest = natural_rem(n, &prime);
        if natural_eq(&rest, &zero) {
            proof {
                assert(first_small_factor_at(n@, i as int));
                let chosen = choose|k: int| first_small_factor_at(n@, k);
                assert(chosen == i);
            }
            return Some(natural_eq(n, &prime));
        }
        i += 1;
    }
    proof {
        assert forall|k: int| !first_small_factor_at(n@, k) by {}
    }
    None
}

/// One round of Miller-Rabin with a witness drawn at random from `2..n-1`.
/// Whatever is drawn, the answer is the one that witness deserves.
pub fn random_round(n: &Natural, n_minus_one: &Natural, s: &Natural, d: &Natural) -> (pass: bool)
    requires
        n@ >= 4,
        n_minus_one@ == n@ - 1,
        s@ == two_adicity(n_minus_one@),
        d@ == odd_part(n_minus_one@),
    ensures
        exists|x: nat| 2 <= x < n@ - 1 && pass == #[trigger] strong_probable_prime(n@, x),
{
    let two = natural_from_u128(2);
    let x = random_natural_between(&two, n_minus_one);
    let pass = round_passes(n, n_minus_one, s, d, &x);
    assert(2 <= x@ < n@ - 1 && pass == strong_probable_prime(n@, x@));
    pass
}

/// Runs `limit` rounds of `random_round` on rayon's thread pool through
/// `ParallelIterator::all`.
///
/// Trusted: `all` returns `false` only if the closure returned `false` for
/// some round, and `true` only if it returned `true` for every round it was
/// given; so a `true` after at least one round has a passing witness behind
/// it and a `false` has a failing one.
#[verifier::external_body]
fn all_rounds_pass(n: &Natural, n_minus_one: &Natural, s: &Natural, d: &Natural, limit: usize) -> (pass:
    bool)
    requires
        n@ >= 4,
        n_minus_one@ == n@ - 1,
        s@ == two_adicity(n_minus_one@),
        d@ == odd_part(n_minus_one@),
    ensures
        pass && limit > 0 ==> exists|x: nat|
            2 <= x < n@ - 1 && #[trigger] strong_probable_prime(n@, x),
        !pass ==> limit > 0 && exists|x: nat|
            2 <= x < n@ - 1 && !#[trigger] strong_probable_prime(n@, x),
{
    (0..limit).into_par_iter().all(|_| random_round(n, n_minus_one, s, d))
}

/// The Miller-Rabin test with `limit` random witnesses.  `true` means that
/// every witness drawn passed, `false` that one of them proves `n`
/// composite.
pub fn miller_rabin_test(n: &Natural, limit: usize) -> (pass: bool)
    requires
        n@ >= 4,
    ensures
        limit == 0 ==> pass,
        pass && limit > 0 ==> exists|x: nat|
            2 <= x < n@ - 1 && #[trigger] strong_probable_prime(n@, x),
        !pass ==> exists|x: nat| 2 <= x < n@ - 1 && !#[trigger] strong_probable_prime(n@, x),
{
    let one = natural_from_u128(1);
    let n_minus_one = natural_sub(n, &one);
    let (s, d) = split_power_of_two(&n_minus_one);
    all_rounds_pass(n, &n_minus_one, &s, &d, limit)
}

/// Returns `true` if `n` is probably prime, `false` if it is certainly not
/// (or is 0).  Note that 1 is reported as prime.
pub fn is_prime(n: &Natural) -> (prime: bool)
    ensures
        prime ==> probably_prime(n@),
        !prime ==> found_composite(n@),
        trial_verdict(n@) matches Some(verdict) ==> prime == verdict,
{
    match trial_division(n) {
        Some(verdict) => verdict,
        None => {
            proof {
                lemma_small_primes_bounds();
                assert(n@ % (SMALL_PRIMES[0] as nat) != 0);
                assert(n@ % (SMALL_PRIMES[1] as nat) != 0);
                assert(n@ >= 4);
            }
            miller_rabin_test(n, MILLER_RABIN_MAX_ITER)
        },
    }
}

/// What holds of every number the prime search returns for `bits` bits: it
/// is odd, below `2^bits` (or 1), and `is_prime` accepted it.
pub open spec fn search_result(n: nat, bits: nat) -> bool {
    &&& n % 2 == 1
    &&& n < pow2(bits) || n == 1
    &&& probably_prime(n)
}

/// The candidate made from a drawn number: the number itself if it is odd,
/// the next number if it is even.
pub open spec fn odd_candidate(raw: nat) -> nat {
    if raw % 2 == 0 {
        raw + 1
    } else {
        raw
    }
}

/// How an attempt on the drawn number `raw` ends: with the candidate made
/// from `raw` if `is_prime` accepts it, with nothing if `is_prime` finds it
/// composite.
pub open spec fn attempt_outcome(raw: nat, found: Option<Natural>) -> bool {
    match found {
        Some(n) => n@ == odd_candidate(raw) && probably_prime(n@),
        None => found_composite(odd_candidate(raw)),
    }
}

/// `found` is how an attempt on some number below `2^bits` ends.
pub open spec fn some_draw(bits: nat, found: Option<Natural>) -> bool {
    exists|raw: nat| raw < pow2(bits) && #[trigger] attempt_outcome(raw, found)
}

/// The number of candidates to try: the count given, or
/// `PRIME_GEN_MAX_ATTEMPTS`.
pub open spec fn attempt_limit(attempts: Option<usize>) -> usize {
    match attempts {
        Some(count) => count,
        None => PRIME_GEN_MAX_ATTEMPTS,
    }
}

/// Turns a random number into a candidate: even numbers are bumped to the
/// next odd one.
pub fn make_odd(n: Natural) -> (odd: Natural)
    ensures
        odd@ == odd_candidate(n@),
{
    if natural_is_even(&n) {
        let one = natural_from_u128(1);
        natural_add(&n, &one)
    } else {
        n
    }
}

/// An attempt on the number `drawn`: makes it odd and keeps the candidate
/// if `is_prime` accepts it.
pub fn attempt_with(drawn: Natural) -> (found: Option<Natural>)
    ensures
        attempt_outcome(drawn@, found),
{
    let candidate = make_odd(drawn);
    if is_prime(&candidate) {
        Some(candidate)
    } else {
        None
    }
}

/// One attempt of the prime search: draws a number of `bits` bits and makes
/// an attempt on it.  With at most one bit to draw the candidate is always
/// 1, which counts as prime.
pub fn prime_attempt(bits: usize) -> (found: Option<Natural>)
    ensures
        some_draw(bits as nat, found),
        found matches Some(n) ==> search_result(n@, bits as nat),
        bits <= 1 ==> (found matches Some(n) && n@ == 1),
{
    let drawn = random_natural(bits as u64);
    let ghost raw = drawn@;
    let found = attempt_with(drawn);
    proof {
        assert(raw < pow2(bits as nat) && attempt_outcome(raw, found));
        lemma_draw_is_search_result(bits as nat, found);
    }
    found
}

/// What an attempt on a number below `2^bits` keeps is odd and below
/// `2^bits` (or 1); with at most one bit it keeps 1.
pub proof fn lemma_draw_is_search_result(bits: nat, found: Option<Natural>)
    requires
        some_draw(bits, found),
    ensures
        found matches Some(n) ==> search_result(n@, bits),
        bits <= 1 ==> (found matches Some(n) && n@ == 1),
{
    let raw = choose|raw: nat| raw < pow2(bits) && #[trigger] attempt_outcome(raw, found);
    lemma_pow2_unfold(0);
    if bits > 0 {
        lemma_pow2_unfold((bits - 1) as nat);
    }
    if bits <= 1 {
        assert(odd_candidate(raw) == 1);
        assert(trial_verdict(1) == Some(true));
    }
}

/// Runs `attempts` times `prime_attempt` on rayon's thread pool through
/// `ParallelIterator::find_map_any` and returns one of the numbers found.
///
/// Trusted: `find_map_any` returns what the closure returned for one of the
/// attempts if any of them returned a number, and `None` if none did; with
/// no attempts it returns `None`.
#[verifier::external_body]
fn any_attempt(bits: usize, attempts: usize) -> (found: Option<Natural>)
    ensures
        attempts == 0 ==> found is None,
        attempts > 0 ==> some_draw(bits as nat, found),
{
    (0..attempts).into_par_iter().find_map_any(|_| prime_attempt(bits))
}

/// Searches for a prime number of `bits` bits, with `attempts` candidates
/// (`PRIME_GEN_MAX_ATTEMPTS` when `None`) tried in parallel.
///
/// Without attempts there is no result.  Otherwise the result is how one of
/// the attempts ended: a candidate that `is_prime` accepted, or nothing
/// after a candidate that it found composite.
pub fn prime_num(bits: usize, attempts: Option<usize>) -> (found: Option<Natural>)
    ensures
        attempt_limit(attempts) == 0 ==> found is None,
        attempt_limit(attempts) > 0 ==> some_draw(bits as nat, found),
        found matches Some(n) ==> search_result(n@, bits as nat),
        bits <= 1 && attempt_limit(attempts) > 0 ==> (found matches Some(n) && n@ == 1),
{
    let limit = match attempts {
        Some(count) => count,
        None => PRIME_GEN_MAX_ATTEMPTS,
    };
    let found = any_attempt(bits, limit);
    proof {
        if limit > 0 {
            lemma_draw_is_search_result(bits as nat, found);
        }
    }
    found
}

/// Searches for a prime number of `bits` bits, one candidate after the
/// other, and returns it with the number of candidates that failed before.
///
/// The number returned is the candidate of an attempt that `is_prime`
/// accepted; every attempt before it, and every attempt when there is no
/// result, ended on a candidate that `is_prime` found composite.
pub fn prime_num_serial(bits: usize, attempts: Option<usize>) -> (found: Option<(Natural, usize)>)
    ensures
        match found {
            Some((n, tried)) => {
                &&& tried < attempt_limit(attempts)
                &&& some_draw(bits as nat, Some(n))
                &&& search_result(n@, bits as nat)
                &&& tried > 0 ==> some_draw(bits as nat, None)
            },
            None => attempt_limit(attempts) == 0 || some_draw(bits as nat, None),
        },
        bits <= 1 && attempt_limit(attempts) > 0 ==> (found matches Some((n, tried)) && n@ == 1
            && tried == 0),
{
    let limit = match attempts {
        Some(count) => count,
        None => PRIME_GEN_MAX_ATTEMPTS,
    };
    let mut tried: usize = 0;
    while tried < limit
        invariant
            tried <= limit,
            limit == attempt_limit(attempts),
            tried > 0 ==> some_draw(bits as nat, None),
            tried > 0 ==> bits > 1,
        decreases limit - tried,
    {
        match prime_attempt(bits) {
            Some(n) => {
                return Some((n, tried));
            },
            None => {},
        }
        tried += 1;
    }
    None
}

} // verus!
