use cryptanalysis::birthday::{
    find_sha_collision, note_value, os_rand_collisions, pack_prefix, space_of, sub_sha_collisions,
};
use sha2::{Digest, Sha256};
use std::collections::HashSet;

fn prefix(counter: u128, num_bytes: usize) -> Vec<u8> {
    let mut hasher = Sha256::new();
    hasher.update(counter.to_le_bytes());
    hasher.finalize()[..num_bytes].to_vec()
}

#[test]
fn space_sizes() {
    assert_eq!(space_of(0), 1);
    assert_eq!(space_of(1), 256);
    assert_eq!(space_of(6), 1u128 << 48);
    assert_eq!(space_of(15), 1u128 << 120);
}

#[test]
fn packing_is_little_endian() {
    assert_eq!(pack_prefix(&[0x34, 0x12, 0xff], 2), 0x1234);
    assert_eq!(pack_prefix(&[0x34, 0x12, 0xff], 3), 0xff1234);
    assert_eq!(pack_prefix(&[0x34, 0x12, 0xff], 0), 0);
    assert_eq!(pack_prefix(&[0xff; 15], 15), (1u128 << 120) - 1);
}

#[test]
fn first_sha_collision_is_the_first() {
    for (start, num_bytes) in [(0u128, 1usize), (12345, 1), (7, 2), (u128::MAX - 3, 2)] {
        let found = find_sha_collision(start, num_bytes);
        assert_eq!(found.later, start.wrapping_add(found.count));
        assert!(found.count >= 2);
        assert!(found.count <= space_of(num_bytes) + 1);
        assert_ne!(found.earlier, found.later);
        assert_eq!(prefix(found.earlier, num_bytes), prefix(found.later, num_bytes));
        // no two draws before the last coincide, and `earlier` is one of them
        let mut seen = HashSet::new();
        let mut met_earlier = false;
        for step in 1..found.count {
            let counter = start.wrapping_add(step);
            assert!(seen.insert(prefix(counter, num_bytes)));
            met_earlier |= counter == found.earlier;
        }
        assert!(met_earlier);
    }
}

#[test]
fn empty_prefixes_collide_at_once() {
    let found = find_sha_collision(41, 0);
    assert_eq!(found.count, 2);
    assert_eq!(found.earlier, 42);
    assert_eq!(found.later, 43);
}

#[test]
fn sha_collision_from_random_start() {
    let found = sub_sha_collisions(2);
    assert!(found.count >= 2 && found.count <= 65537);
    assert_eq!(prefix(found.earlier, 2), prefix(found.later, 2));
    assert!(found.later.wrapping_sub(found.count) < 65536);
}

#[test]
fn random_collision_bounds() {
    let found = os_rand_collisions(1);
    assert!(found.count >= 2 && found.count <= 257);
    assert_eq!(found.value.len(), 1);
    let found = os_rand_collisions(2);
    assert!(found.count >= 2 && found.count <= 65537);
    assert_eq!(found.value.len(), 2);
    let found = os_rand_collisions(0);
    assert_eq!(found.count, 2);
    assert!(found.value.is_empty());
}

#[test]
fn noting_values() {
    let mut seen = HashSet::new();
    assert!(note_value(&mut seen, &[1, 2, 3]));
    assert!(note_value(&mut seen, &[1, 2, 4]));
    assert!(!note_value(&mut seen, &[1, 2, 3]));
    assert!(note_value(&mut seen, &[3, 2, 1]));
    assert_eq!(seen.len(), 3);
    assert!(seen.contains(&0x030201));
}
