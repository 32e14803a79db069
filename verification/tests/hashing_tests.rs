use bench_cases::argon2_hash::{fill_lcg, output, run, setup};
use bench_cases::hashmap::{self, checksum, lcg};

fn lcg_bytes(seed: u64, len: usize) -> Vec<u8> {
    let mut s = seed;
    (0..len)
        .map(|_| {
            s = s.wrapping_mul(6364136223846793005).wrapping_add(1);
            (s >> 32) as u8
        })
        .collect()
}

#[test]
fn fill_lcg_writes_the_generator_bytes() {
    let mut buf = [0u8; 10];
    fill_lcg(&mut buf, 42);
    assert_eq!(buf.to_vec(), lcg_bytes(42, 10));
    let mut empty: [u8; 0] = [];
    fill_lcg(&mut empty, 1);
}

#[test]
fn argon2_output_matches_the_crate() {
    let size = 64usize;
    let mut data = setup(size);
    run(&mut data);
    let password = lcg_bytes(size as u64, 32);
    let salt = lcg_bytes((size as u64) ^ 0x9e3779b97f4a7c15, 16);
    let params = argon2::Params::new(size as u32, 3, 1, Some(32)).unwrap();
    let mut digest = [0u8; 32];
    argon2::Argon2::new(argon2::Algorithm::Argon2id, argon2::Version::V0x13, params)
        .hash_password_into(&password, &salt, &mut digest)
        .unwrap();
    let expected = u64::from_be_bytes(digest[..8].try_into().unwrap());
    assert_eq!(output(&data), expected);
    assert_ne!(output(&data), 0);
}

#[test]
fn argon2_output_before_run_is_zero() {
    let data = setup(8);
    assert_eq!(output(&data), 0);
}

#[test]
fn argon2_runs_are_repeatable() {
    let mut data = setup(16);
    run(&mut data);
    let first = output(&data);
    run(&mut data);
    assert_eq!(output(&data), first);
    let mut other = setup(17);
    run(&mut other);
    assert_ne!(output(&other), first);
}

#[test]
fn hashmap_generator_step() {
    let mut s = 0u64;
    assert_eq!(lcg(&mut s), 1442695040888963407);
    assert_eq!(s, 1442695040888963407);
}

#[test]
fn checksum_folds_in_order() {
    assert_eq!(checksum(&vec![]), 0);
    assert_eq!(checksum(&vec![(1, 2)]), 3 << 7);
    let a = checksum(&vec![(1, 2), (4, 8)]);
    assert_eq!(a, ((3u64 << 7).wrapping_add(12)).rotate_left(7));
    assert_eq!(checksum(&vec![(u64::MAX, 0), (1, 0)]), 0);
}

#[test]
fn hashmap_setup_and_getters() {
    let data = hashmap::setup(10);
    assert_eq!(data.seed(), 10);
    assert_eq!(data.len_iterations(), 10);
    let data = hashmap::setup(0);
    assert_eq!(data.seed(), 0);
    assert_eq!(data.len_iterations(), 1);
}

#[test]
fn hashmap_run_is_idempotent() {
    let mut data = hashmap::setup(1000);
    hashmap::run(&mut data);
    let first = hashmap::result(&data);
    hashmap::run(&mut data);
    assert_eq!(hashmap::result(&data), first);
}

#[test]
fn hashmap_single_entry_result() {
    // With size 0 the map holds one pair and the single operation is a missed lookup,
    // so the order of the entries does not matter.
    let mut state = 0u64;
    let k = lcg(&mut state);
    let v = lcg(&mut state);
    let mut data = hashmap::setup(0);
    assert_eq!(hashmap::result(&data), (k ^ v).rotate_left(7));
    hashmap::run(&mut data);
    assert_eq!(hashmap::result(&data), (k ^ v).rotate_left(7));
}
