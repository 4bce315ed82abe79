//! The birthday paradox: how soon two values drawn from a set of size `N`
//! coincide.  Values are drawn either as prefixes of SHA-256 digests of a
//! counter or from the thread-local random generator.
use rand::{Rng, RngCore};
use sha2::{Digest, Sha256};
use std::collections::{HashMap, HashSet};
use vstd::arithmetic::power::pow;
use vstd::bytes::spec_u128_to_le_bytes;
use vstd::prelude::*;
use crate::natural::le_value;

verus! {

/// Largest number of bytes a drawn value may have: the values are counted in
/// a `u128`, and a collision is certain only after `256^n + 1` draws.
pub const MAX_VALUE_BYTES: usize = 15;

/// The SHA-256 digest of `data`.
pub uninterp spec fn sha256_digest(data: Seq<u8>) -> Seq<u8>;

/// Hashes the 16 little-endian bytes of `counter` with `sha2::Sha256`
/// (`new`, `update`, `finalize`).  Trusted: the 32 bytes returned are the
/// SHA-256 digest of those bytes.
#[verifier::external_body]
fn sha256_of_counter(counter: u128) -> (digest: [u8; 32])
    ensures
        digest@ == sha256_digest(spec_u128_to_le_bytes(counter)),
{
    let mut hasher = Sha256::new();
    hasher.update(counter.to_le_bytes());
    hasher.finalize().into()
}

/// `Rng::gen_range(0..bound)` on `rand::thread_rng()`, which panics on an
/// empty range.  Trusted: every outcome is below `bound`.
#[verifier::external_body]
fn random_below(bound: u128) -> (drawn: u128)
    requires
        bound > 0,
    ensures
        drawn < bound,
{
    rand::thread_rng().gen_range(0..bound)
}

/// `RngCore::fill_bytes` on `rand::thread_rng()` over a fresh buffer.
/// Trusted: the buffer keeps its length.
#[verifier::external_body]
fn random_bytes(len: usize) -> (drawn: Vec<u8>)
    ensures
        drawn@.len() == len,
{
    let mut buffer = vec![0u8; len];
    rand::thread_rng().fill_bytes(&mut buffer);
    buffer
}

/// Number of values of `num_bytes` bytes: `256^num_bytes`.
pub open spec fn space_size(num_bytes: nat) -> nat {
    pow(256, num_bytes) as nat
}

/// A value of `len` bytes is below `256^len`.
pub proof fn lemma_le_value_bound(bytes: Seq<u8>)
    ensures
        le_value(bytes) < space_size(bytes.len()),
    decreases bytes.len(),
{
    if bytes.len() == 0 {
        vstd::arithmetic::power::lemma_pow0(256);
    } else {
        lemma_le_value_bound(bytes.skip(1));
        vstd::arithmetic::power::lemma_pow_adds(256, 1, (bytes.len() - 1) as nat);
        vstd::arithmetic::power::lemma_pow1(256);
        vstd::arithmetic::power::lemma_pow_positive(256, (bytes.len() - 1) as nat);
    }
}

/// Byte strings of one length with one value are equal.
pub proof fn lemma_le_value_injective(a: Seq<u8>, b: Seq<u8>)
    requires
        a.len() == b.len(),
        le_value(a) == le_value(b),
    ensures
        a == b,
    decreases a.len(),
{
    if a.len() == 0 {
        assert(a =~= b);
    } else {
        let rest_a = le_value(a.skip(1));
        let rest_b = le_value(b.skip(1));
        assert(a[0] as nat + 256 * rest_a == b[0] as nat + 256 * rest_b);
        assert(a[0] == b[0] && rest_a == rest_b);
        lemma_le_value_injective(a.skip(1), b.skip(1));
        assert(a =~= seq![a[0]] + a.skip(1));
        assert(b =~= seq![b[0]] + b.skip(1));
    }
}

/// `256^15` is `2^120`.
proof fn lemma_largest_space()
    ensures
        pow(256, 15) == 0x1_0000_0000_0000_0000_0000_0000_0000_00,
{
    reveal_with_fuel(pow, 16);
}

/// `256^num_bytes`, the number of values of `num_bytes` bytes.
pub fn space_of(num_bytes: usize) -> (size: u128)
    requires
        num_bytes <= MAX_VALUE_BYTES,
    ensures
        size == space_size(num_bytes as nat),
        size <= 0x1_0000_0000_0000_0000_0000_0000_0000_00,
{
    let mut size: u128 = 1;
    let mut i: usize = 0;
    proof {
        vstd::arithmetic::power::lemma_pow0(256);
        lemma_largest_space();
    }
    while i < num_bytes
        invariant
            i <= num_bytes <= MAX_VALUE_BYTES,
            size == pow(256, i as nat),
            size <= pow(256, 15),
            pow(256, 15) == 0x1_0000_0000_0000_0000_0000_0000_0000_00,
        decreases num_bytes - i,
    {
        proof {
            vstd::arithmetic::power::lemma_pow_adds(256, 1, i as nat);
            vstd::arithmetic::power::lemma_pow1(256);
            vstd::arithmetic::power::lemma_pow_increases(256, (i + 1) as nat, 15);
        }
        size = size * 256;
        i += 1;
    }
    size
}

/// Reads the first `len` bytes of `bytes` as a little-endian number.
pub fn pack_prefix(bytes: &[u8], len: usize) -> (packed: u128)
    requires
        len <= MAX_VALUE_BYTES,
        len <= bytes@.len(),
    ensures
        packed == le_value(bytes@.take(len as int)),
        packed < space_size(len as nat),
{
    let mut packed: u128 = 0;
    let mut i: usize = len;
    proof {
        lemma_largest_space();
    }
    while i > 0
        invariant
            i <= len <= MAX_VALUE_BYTES,
            len <= bytes@.len(),
            packed == le_value(bytes@.subrange(i as int, len as int)),
            pow(256, 15) == 0x1_0000_0000_0000_0000_0000_0000_0000_00,
        decreases i,
    {
        proof {
            let tail = bytes@.subrange(i as int, len as int);
            lemma_le_value_bound(tail);
            vstd::arithmetic::power::lemma_pow_increases(256, tail.len(), 14);
            vstd::arithmetic::power::lemma_pow_adds(256, 1, 14);
            vstd::arithmetic::power::lemma_pow1(256);
            let longer = bytes@.subrange(i - 1, len as int);
            assert(longer.skip(1) =~= tail);
            vstd::arithmetic::power::lemma_pow_positive(256, tail.len());
            assert(tail.len() == len - i);
            assert(packed < pow(256, 14));
            assert(pow(256, 15) == 256 * pow(256, 14));
        }
        i -= 1;
        packed = packed * 256 + bytes[i] as u128;
    }
    proof {
        assert(bytes@.subrange(0, len as int) =~= bytes@.take(len as int));
        lemma_le_value_bound(bytes@.take(len as int));
    }
    packed
}

/// The counter after `steps` increments from `start`, wrapping around.
pub open spec fn counter_at(start: u128, steps: nat) -> u128
    decreases steps,
{
    if steps == 0 {
        start
    } else {
        counter_at(start, (steps - 1) as nat).wrapping_add(1)
    }
}

/// The value drawn for `counter`: the first `num_bytes` bytes of the SHA-256
/// digest of its 16 little-endian bytes.
pub open spec fn hash_prefix(counter: u128, num_bytes: nat) -> Seq<u8> {
    sha256_digest(spec_u128_to_le_bytes(counter)).take(num_bytes as int)
}

/// The first collision among the hash prefixes of the counters after
/// `start`: draw `count` repeats draw `earlier`, and no two draws before
/// `count` coincide.
pub open spec fn first_collision(start: u128, num_bytes: nat, earlier: nat, count: nat) -> bool {
    &&& 1 <= earlier < count
    &&& hash_prefix(counter_at(start, earlier), num_bytes) == hash_prefix(
        counter_at(start, count),
        num_bytes,
    )
    &&& forall|a: nat, b: nat|
        1 <= a < b < count ==> hash_prefix(#[trigger] counter_at(start, a), num_bytes)
            != hash_prefix(#[trigger] counter_at(start, b), num_bytes)
}

/// Two counters whose hash prefixes coincide, and the number of hashes it
/// took to find them.
#[derive(Clone, Copy, Debug, PartialEq, Eq)]
pub struct HashCollision {
    /// Number of counters hashed, the colliding one included.
    pub count: u128,
    /// The counter hashed earlier.
    pub earlier: u128,
    /// The counter hashed last, whose prefix repeats that of `earlier`.
    pub later: u128,
}

/// A set of keys below `bound` has at most `bound` members.
pub proof fn lemma_bounded_keys(keys: Set<u128>, bound: nat)
    requires
        forall|key: u128| keys.contains(key) ==> key < bound,
    ensures
        keys.finite(),
        keys.len() <= bound,
{
    let range = vstd::set_lib::set_int_range(0, bound as int);
    vstd::set_lib::lemma_int_range(0, bound as int);
    let narrow = |i: int| i as u128;
    let all = range.map(narrow);
    vstd::set_lib::lemma_map_size_bound(range, all, narrow);
    assert forall|key: u128| keys.contains(key) implies all.contains(key) by {
        assert(range.contains(key as int) && narrow(key as int) == key);
    }
    vstd::set_lib::lemma_len_subset(keys, all);
}

/// The key under which draw `step` is filed.
pub open spec fn draw_key(start: u128, num_bytes: nat, step: nat) -> nat {
    le_value(hash_prefix(counter_at(start, step), num_bytes))
}

/// Hashes the counters `start + 1, start + 2, ..` until the first
/// `num_bytes` bytes of a digest repeat those of an earlier one, and reports
/// that first collision.  It comes after at most `256^num_bytes + 1` hashes.
pub fn find_sha_collision(start: u128, num_bytes: usize) -> (found: HashCollision)
    requires
        num_bytes <= MAX_VALUE_BYTES,
    ensures
        found.count <= space_size(num_bytes as nat) + 1,
        found.later == counter_at(start, found.count as nat),
        exists|earlier: nat| #[trigger]
            first_collision(start, num_bytes as nat, earlier, found.count as nat) && found.earlier
                == counter_at(start, earlier),
{
    broadcast use vstd::std_specs::hash::group_hash_axioms;

    let space = space_of(num_bytes);
    let mut seen: HashMap<u128, u128> = HashMap::new();
    let ghost mut step_of: Map<u128, nat> = Map::empty();
    let mut current = start;
    let mut count: u128 = 0;
    loop
        invariant
            num_bytes <= MAX_VALUE_BYTES,
            space == space_size(num_bytes as nat),
            space <= 0x1_0000_0000_0000_0000_0000_0000_0000_00,
            current == counter_at(start, count as nat),
            seen@.dom().finite(),
            seen@.dom().len() == count,
            seen@.dom() == step_of.dom(),
            count <= space,
            forall|key: u128| #[trigger]
                seen@.contains_key(key) ==> {
                    &&& key < space
                    &&& 1 <= step_of[key] <= count
                    &&& seen@[key] == counter_at(start, step_of[key])
                    &&& key == draw_key(start, num_bytes as nat, step_of[key])
                },
            forall|step: nat|
                1 <= step <= count ==> {
                    &&& sha256_digest(
                        spec_u128_to_le_bytes(#[trigger] counter_at(start, step)),
                    ).len() == 32
                    &&& draw_key(start, num_bytes as nat, step) < space
                    &&& seen@.contains_key(draw_key(start, num_bytes as nat, step) as u128)
                    &&& step_of[draw_key(start, num_bytes as nat, step) as u128] == step
                },
        decreases space - seen@.dom().len(),
    {
        count = count + 1;
        current = current.wrapping_add(1);
        let digest = sha256_of_counter(current);
        let key = pack_prefix(digest.as_slice(), num_bytes);
        let ghost before = seen@;
        assert(key == draw_key(start, num_bytes as nat, count as nat));
        match seen.insert(key, current) {
            Some(earlier) => {
                proof {
                    let first = step_of[key];
                    assert(before.contains_key(key));
                    lemma_le_value_injective(
                        hash_prefix(counter_at(start, first), num_bytes as nat),
                        hash_prefix(counter_at(start, count as nat), num_bytes as nat),
                    );
                    assert forall|a: nat, b: nat| 1 <= a < b < count implies hash_prefix(
                        #[trigger] counter_at(start, a),
                        num_bytes as nat,
                    ) != hash_prefix(#[trigger] counter_at(start, b), num_bytes as nat) by {
                        assert(step_of[draw_key(start, num_bytes as nat, a) as u128] == a);
                        assert(step_of[draw_key(start, num_bytes as nat, b) as u128] == b);
                    }
                    assert(first_collision(start, num_bytes as nat, first, count as nat));
                }
                return HashCollision { count, earlier, later: current };
            },
            None => {
                proof {
                    step_of = step_of.insert(key, count as nat);
                    assert(seen@.dom() =~= step_of.dom());
                    assert forall|other: u128| seen@.contains_key(other) implies other < space by {
                        if other != key {
                            assert(before.contains_key(other));
                        }
                    }
                    lemma_bounded_keys(seen@.dom(), space as nat);
                    assert forall|step: nat| 1 <= step <= count implies {
                        &&& sha256_digest(
                            spec_u128_to_le_bytes(#[trigger] counter_at(start, step)),
                        ).len() == 32
                        &&& draw_key(start, num_bytes as nat, step) < space
                        &&& seen@.contains_key(draw_key(start, num_bytes as nat, step) as u128)
                        &&& step_of[draw_key(start, num_bytes as nat, step) as u128] == step
                    } by {
                        if step < count {
                            assert(before.contains_key(
                                draw_key(start, num_bytes as nat, step) as u128,
                            ));
                        }
                    }
                }
            },
        }
    }
}

/// Searches a collision among SHA-256 prefixes of `num_bytes` bytes,
/// starting from a counter drawn at random below `256^num_bytes`.
pub fn sub_sha_collisions(num_bytes: usize) -> (found: HashCollision)
    requires
        num_bytes <= MAX_VALUE_BYTES,
    ensures
        found.count <= space_size(num_bytes as nat) + 1,
        exists|start: u128, earlier: nat| #[trigger]
            first_collision(start, num_bytes as nat, earlier, found.count as nat) && start
                < space_size(num_bytes as nat) && found.earlier == counter_at(start, earlier)
                && found.later == counter_at(start, found.count as nat),
{
    let space = space_of(num_bytes);
    proof {
        vstd::arithmetic::power::lemma_pow_positive(256, num_bytes as nat);
    }
    let start = random_below(space);
    find_sha_collision(start, num_bytes)
}

/// A random value that was drawn twice, and the number of draws it took.
#[derive(Clone, Debug, PartialEq, Eq)]
pub struct RandomCollision {
    /// Number of draws, the repeating one included.
    pub count: u128,
    /// The value drawn for the second time.
    pub value: Vec<u8>,
}

/// Files `value` among the values seen and tells whether it is new.
pub fn note_value(seen: &mut HashSet<u128>, value: &[u8]) -> (fresh: bool)
    requires
        value@.len() <= MAX_VALUE_BYTES,
    ensures
        fresh == !old(seen)@.contains(le_value(value@) as u128),
        final(seen)@ == old(seen)@.insert(le_value(value@) as u128),
        le_value(value@) < space_size(value@.len()),
{
    broadcast use vstd::std_specs::hash::group_hash_axioms;

    let key = pack_prefix(value, value.len());
    assert(value@.take(value@.len() as int) =~= value@);
    seen.insert(key)
}

/// Draws random values of `num_bytes` bytes until one comes for the second
/// time.  That happens after at least 2 and at most `256^num_bytes + 1`
/// draws.
pub fn os_rand_collisions(num_bytes: usize) -> (found: RandomCollision)
    requires
        num_bytes <= MAX_VALUE_BYTES,
    ensures
        2 <= found.count <= space_size(num_bytes as nat) + 1,
        found.value@.len() == num_bytes,
{
    broadcast use vstd::std_specs::hash::group_hash_axioms;

    let space = space_of(num_bytes);
    let mut seen: HashSet<u128> = HashSet::new();
    let mut count: u128 = 0;
    loop
        invariant
            num_bytes <= MAX_VALUE_BYTES,
            space == space_size(num_bytes as nat),
            space <= 0x1_0000_0000_0000_0000_0000_0000_0000_00,
            seen@.finite(),
            seen@.len() == count,
            count <= space,
            forall|key: u128| seen@.contains(key) ==> key < space,
        decreases space - seen@.len(),
    {
        count = count + 1;
        let value = random_bytes(num_bytes);
        let ghost before = seen@;
        if !note_value(&mut seen, value.as_slice()) {
            assert(count >= 2) by {
                if count == 1 {
                    assert(before.len() == 0);
                    assert(before =~= Set::<u128>::empty());
                }
            }
            return RandomCollision { count, value };
        }
        proof {
            lemma_bounded_keys(seen@, space as nat);
        }
    }
}

} // verus!
