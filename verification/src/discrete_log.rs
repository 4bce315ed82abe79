//! Shanks' baby-step giant-step algorithm for discrete logarithms modulo `n`.
use std::collections::HashMap;
use vstd::arithmetic::power::pow;
use vstd::prelude::*;
use crate::natural::{
    natural_from_u128,
    natural_modpow,
    natural_mul,
    natural_rem,
    natural_sqrt,
    natural_sub,
    natural_to_u128,
    natural_to_usize,
    Natural,
};

verus! {

/// `root` is the square root of `n` rounded down.
pub open spec fn is_sqrt(n: nat, root: nat) -> bool {
    root * root <= n < (root + 1) * (root + 1)
}

/// The square root of `n` rounded down.
pub open spec fn isqrt(n: nat) -> nat {
    choose|root: nat| is_sqrt(n, root)
}

/// Number of baby steps and of giant steps: `isqrt(n) + 1`.
pub open spec fn step_count(n: nat) -> nat {
    isqrt(n) + 1
}

/// Baby step `j`: `g^j mod n`.
pub open spec fn baby_step(n: nat, g: nat, j: nat) -> nat {
    (pow(g as int, j) % (n as int)) as nat
}

/// The factor of one giant step: `g^(n - 1 - m) mod n`, which is `g^-m` when
/// `g^(n-1)` is 1 modulo `n`.
pub open spec fn giant_factor(n: nat, g: nat) -> nat {
    (pow(g as int, (n - 1 - step_count(n)) as nat) % (n as int)) as nat
}

/// Giant step `i`: `h` itself for `i == 0`, then the previous step times the
/// giant factor, reduced modulo `n`.
pub open spec fn giant_step(n: nat, g: nat, h: nat, i: nat) -> nat
    decreases i,
{
    if i == 0 {
        h
    } else {
        (giant_step(n, g, h, (i - 1) as nat) * giant_factor(n, g)) % n
    }
}

/// Giant step `i` meets baby step `j`.
pub open spec fn meets(n: nat, g: nat, h: nat, i: nat, j: nat) -> bool {
    j < step_count(n) && baby_step(n, g, j) == giant_step(n, g, h, i)
}

/// No giant step before `upto` meets a baby step.
pub open spec fn no_meeting_before(n: nat, g: nat, h: nat, upto: nat) -> bool {
    forall|i: nat, j: nat| i < upto ==> !#[trigger] meets(n, g, h, i, j)
}

/// `(i, j)` is the meeting the algorithm reports: `i` is the first giant
/// step that meets a baby step, and `j` the last baby step it meets.
pub open spec fn first_meeting(n: nat, g: nat, h: nat, i: nat, j: nat) -> bool {
    &&& i < step_count(n)
    &&& meets(n, g, h, i, j)
    &&& forall|later: nat| j < later ==> !#[trigger] meets(n, g, h, i, later)
    &&& no_meeting_before(n, g, h, i)
}

/// The table of baby steps is right up to step `upto`: each key is a baby
/// step and maps to the last step below `upto` with that value, and every
/// step below `upto` has its key.
pub open spec fn table_holds(table: Map<u128, usize>, n: nat, g: nat, upto: nat) -> bool {
    &&& forall|key: u128| #[trigger]
        table.contains_key(key) ==> {
            &&& table[key] < upto
            &&& baby_step(n, g, table[key] as nat) == key
            &&& forall|later: nat|
                table[key] < later < upto ==> #[trigger] baby_step(n, g, later) != key
        }
    &&& forall|j: nat|
        j < upto ==> baby_step(n, g, j) <= u128::MAX && table.contains_key(
            #[trigger] baby_step(n, g, j) as u128,
        )
}

/// The square root rounded down is unique.
pub proof fn lemma_sqrt_unique(n: nat, a: nat, b: nat)
    requires
        is_sqrt(n, a),
        is_sqrt(n, b),
    ensures
        a == b,
{
    if a < b {
        assert((a + 1) * (a + 1) <= b * b) by (nonlinear_arith)
            requires
                a + 1 <= b,
        ;
    }
    if b < a {
        assert((b + 1) * (b + 1) <= a * a) by (nonlinear_arith)
            requires
                b + 1 <= a,
        ;
    }
}

/// For `n >= 3` there is room for the exponent `n - 1 - m`.
proof fn lemma_root_is_small(n: nat, root: nat)
    requires
        n >= 3,
        is_sqrt(n, root),
    ensures
        root + 2 <= n,
{
    if root + 2 > n {
        assert(root * root > n) by (nonlinear_arith)
            requires
                root + 2 > n,
                n >= 3,
        ;
    }
}

/// One more baby step: `(g^j mod n) * g mod n == g^(j+1) mod n`.
proof fn lemma_next_baby_step(n: nat, g: nat, j: nat)
    requires
        n > 0,
    ensures
        (baby_step(n, g, j) * g) % n == baby_step(n, g, j + 1),
        baby_step(n, g, j) < n,
{
    let p = pow(g as int, j);
    vstd::arithmetic::div_mod::lemma_mul_mod_noop_left(p, g as int, n as int);
    assert(pow(g as int, j + 1) == g * p) by {
        vstd::arithmetic::power::lemma_pow_adds(g as int, 1, j);
        vstd::arithmetic::power::lemma_pow1(g as int);
    }
    assert(p * g == g * p) by (nonlinear_arith);
    vstd::arithmetic::div_mod::lemma_mod_bound(p, n as int);
    vstd::arithmetic::div_mod::lemma_mod_bound(g * p, n as int);
}

/// Shanks' algorithm: looks for `x` with `g^x = h (mod n)` among the
/// exponents `i * m + j` with `i, j < m = isqrt(n) + 1`.
///
/// The baby steps `g^j mod n` go into a table; the giant steps
/// `h * g^(-m*i) mod n` are looked up in it.  The result is `i * m + j` for
/// the first giant step `i` that meets a baby step and the last baby step
/// `j` it meets, or `None` when no giant step meets a baby step.
///
/// `n` must be at least 3, and its square root must leave room for one more
/// in a `usize`.
pub fn shanks(n: Natural, g: Natural, h: Natural) -> (found: Option<Natural>)
    requires
        n@ >= 3,
        n@ < usize::MAX * usize::MAX,
    ensures
        match found {
            Some(x) => exists|i: nat, j: nat| #[trigger]
                first_meeting(n@, g@, h@, i, j) && x@ == i * step_count(n@) + j,
            None => no_meeting_before(n@, g@, h@, step_count(n@)),
        },
{
    broadcast use vstd::std_specs::hash::group_hash_axioms;

    let root = natural_sqrt(&n);
    proof {
        assert(is_sqrt(n@, root@));
        lemma_sqrt_unique(n@, root@, isqrt(n@));
        lemma_root_is_small(n@, root@);
        assert(root@ < usize::MAX) by (nonlinear_arith)
            requires
                root@ * root@ <= n@,
                n@ < usize::MAX * usize::MAX,
        ;
        assert(usize::MAX * usize::MAX <= u128::MAX) by (nonlinear_arith)
            requires
                usize::MAX <= 0xffff_ffff_ffff_ffff,
        ;
    }
    let m: usize = match natural_to_usize(&root) {
        Some(value) => value + 1,
        None => {
            return None;
        },
    };
    let mut table: HashMap<u128, usize> = HashMap::new();
    let mut e = natural_from_u128(1);
    proof {
        vstd::arithmetic::power::lemma_pow0(g@ as int);
        vstd::arithmetic::div_mod::lemma_small_mod(1, n@);
    }
    let mut j: usize = 0;
    while j < m
        invariant
            j <= m,
            n@ >= 3,
            n@ <= u128::MAX,
            e@ == baby_step(n@, g@, j as nat),
            table_holds(table@, n@, g@, j as nat),
        decreases m - j,
    {
        proof {
            lemma_next_baby_step(n@, g@, j as nat);
        }
        let key = match natural_to_u128(&e) {
            Some(key) => key,
            None => {
                return None;
            },
        };
        let ghost before = table@;
        table.insert(key, j);
        let product = natural_mul(&e, &g);
        e = natural_rem(&product, &n);
        proof {
            assert(table_holds(table@, n@, g@, (j + 1) as nat)) by {
                assert forall|k: u128| #[trigger] table@.contains_key(k) implies {
                    &&& table@[k] < j + 1
                    &&& baby_step(n@, g@, table@[k] as nat) == k
                    &&& forall|later: nat|
                        table@[k] < later < j + 1 ==> #[trigger] baby_step(n@, g@, later) != k
                } by {
                    if k != key {
                        assert(before.contains_key(k));
                    }
                }
                assert forall|step: nat| step < j + 1 implies baby_step(n@, g@, step) <= u128::MAX
                    && table@.contains_key(#[trigger] baby_step(n@, g@, step) as u128) by {
                    if step < j {
                        assert(before.contains_key(baby_step(n@, g@, step) as u128));
                    }
                }
            }
        }
        j += 1;
    }
    let one = natural_from_u128(1);
    let below = natural_sub(&n, &one);
    let steps = natural_from_u128(m as u128);
    let exponent = natural_sub(&below, &steps);
    let factor = natural_modpow(&g, &exponent, &n);
    let mut e = h;
    let mut i: usize = 0;
    while i < m
        invariant
            i <= m,
            m == step_count(n@),
            n@ >= 3,
            n@ <= u128::MAX,
            factor@ == giant_factor(n@, g@),
            e@ == giant_step(n@, g@, h@, i as nat),
            table_holds(table@, n@, g@, m as nat),
            no_meeting_before(n@, g@, h@, i as nat),
        decreases m - i,
    {
        let hit: Option<usize> = match natural_to_u128(&e) {
            Some(key) => match table.get(&key) {
                Some(step) => Some(*step),
                None => None,
            },
            None => None,
        };
        match hit {
            Some(step) => {
                proof {
                    assert(first_meeting(n@, g@, h@, i as nat, step as nat));
                    assert(i * m + step <= u128::MAX) by (nonlinear_arith)
                        requires
                            i < m,
                            step < m,
                            m <= usize::MAX,
                            usize::MAX <= 0xffff_ffff_ffff_ffff,
                            u128::MAX == 0xffff_ffff_ffff_ffff_ffff_ffff_ffff_ffff,
                    ;
                    assert(i * m <= i * m + step);
                }
                return Some(natural_from_u128(i as u128 * m as u128 + step as u128));
            },
            None => {
                proof {
                    assert forall|a: nat, b: nat| a < i + 1 implies !#[trigger] meets(
                        n@,
                        g@,
                        h@,
                        a,
                        b,
                    ) by {
                        if a == i && b < m {
                            lemma_next_baby_step(n@, g@, b);
                            assert(table@.contains_key(baby_step(n@, g@, b) as u128));
                        }
                    }
                }
            },
        }
        let product = natural_mul(&e, &factor);
        e = natural_rem(&product, &n);
        i += 1;
    }
    None
}

/// Giant step `i` is `h * g^((n - 1 - m) * i)` modulo `n`.
proof fn lemma_giant_step_closed_form(n: nat, g: nat, h: nat, i: nat)
    requires
        n > 0,
    ensures
        giant_step(n, g, h, i) % n == (h * pow(
            g as int,
            ((n - 1 - step_count(n)) as nat) * i,
        )) % (n as int),
    decreases i,
{
    let modulus = n as int;
    let exponent = (n - 1 - step_count(n)) as nat;
    if i == 0 {
        vstd::arithmetic::power::lemma_pow0(g as int);
        assert(exponent * 0 == 0);
        assert(h * 1 == h);
    } else {
        let before = (i - 1) as nat;
        lemma_giant_step_closed_form(n, g, h, before);
        let previous = giant_step(n, g, h, before) as int;
        let so_far = h * pow(g as int, exponent * before);
        let one_more = pow(g as int, exponent);
        vstd::arithmetic::div_mod::lemma_mod_twice(previous * giant_factor(n, g), modulus);
        vstd::arithmetic::div_mod::lemma_mul_mod_noop_left(
            previous,
            giant_factor(n, g) as int,
            modulus,
        );
        vstd::arithmetic::div_mod::lemma_mul_mod_noop_left(
            so_far,
            giant_factor(n, g) as int,
            modulus,
        );
        vstd::arithmetic::div_mod::lemma_mul_mod_noop_right(so_far, one_more, modulus);
        vstd::arithmetic::div_mod::lemma_mod_bound(one_more, modulus);
        vstd::arithmetic::power::lemma_pow_adds(g as int, exponent * before, exponent);
        assert(exponent * before + exponent == exponent * i) by (nonlinear_arith)
            requires
                before + 1 == i,
        ;
        assert(so_far * one_more == h * pow(g as int, exponent * i)) by (nonlinear_arith)
            requires
                so_far == h * pow(g as int, exponent * before),
                pow(g as int, exponent * i) == pow(g as int, exponent * before) * one_more,
        ;
    }
}

/// Why a meeting is a logarithm.  Where `g^(n-1)` is 1 modulo `n` (as for
/// every `g` prime to a prime `n`), a giant step `i` that meets a baby step
/// `j` gives `g^(i * m + j) = h (mod n)`.
pub proof fn lemma_meeting_is_logarithm(n: nat, g: nat, h: nat, i: nat, j: nat)
    requires
        n >= 3,
        pow(g as int, (n - 1) as nat) % (n as int) == 1,
        meets(n, g, h, i, j),
    ensures
        pow(g as int, i * step_count(n) + j) % (n as int) == h % n,
{
    let modulus = n as int;
    let base = g as int;
    let m = step_count(n);
    assert(is_sqrt(n, isqrt(n))) by {
        lemma_sqrt_exists(n);
    }
    lemma_root_is_small(n, isqrt(n));
    let exponent = (n - 1 - m) as nat;
    lemma_giant_step_closed_form(n, g, h, i);
    let way_back = pow(base, exponent * i);
    let way_out = pow(base, m * i);
    let baby = pow(base, j);
    // g^(i*m + j) = g^j * g^(m*i)
    vstd::arithmetic::power::lemma_pow_adds(base, j, m * i);
    assert(i * m + j == j + m * i) by (nonlinear_arith);
    // g^j = giant step i = h * g^(exponent*i)   (mod n)
    vstd::arithmetic::div_mod::lemma_mod_twice(baby, modulus);
    vstd::arithmetic::div_mod::lemma_mul_mod_noop_left(baby, way_out, modulus);
    vstd::arithmetic::div_mod::lemma_mul_mod_noop_left(h * way_back, way_out, modulus);
    // g^(exponent*i) * g^(m*i) = (g^(n-1))^i = 1   (mod n)
    vstd::arithmetic::power::lemma_pow_adds(base, exponent * i, m * i);
    assert(exponent * i + m * i == (n - 1) * i) by (nonlinear_arith)
        requires
            exponent + m == n - 1,
    ;
    vstd::arithmetic::power::lemma_pow_multiplies(base, (n - 1) as nat, i);
    vstd::arithmetic::power::lemma_pow_mod_noop(pow(base, (n - 1) as nat), i, modulus);
    vstd::arithmetic::power::lemma1_pow(i);
    vstd::arithmetic::div_mod::lemma_small_mod(1, n);
    let round_trip = way_back * way_out;
    assert(round_trip % modulus == 1);
    assert((h * way_back) * way_out == h * round_trip) by (nonlinear_arith)
        requires
            round_trip == way_back * way_out,
    ;
    vstd::arithmetic::div_mod::lemma_mul_mod_noop_right(h as int, round_trip, modulus);
    assert(h * 1 == h);
}

/// Every number has a square root rounded down.
pub proof fn lemma_sqrt_exists(n: nat)
    ensures
        is_sqrt(n, isqrt(n)),
    decreases n,
{
    if n == 0 {
        assert(is_sqrt(0, 0)) by (nonlinear_arith);
    } else {
        lemma_sqrt_exists((n - 1) as nat);
        let below = isqrt((n - 1) as nat);
        if (below + 1) * (below + 1) <= n {
            assert((below + 2) * (below + 2) > n) by (nonlinear_arith)
                requires
                    n - 1 < (below + 1) * (below + 1),
            ;
            assert(is_sqrt(n, below + 1));
        } else {
            assert(is_sqrt(n, below));
        }
    }
}

} // verus!
