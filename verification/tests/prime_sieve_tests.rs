use bench_cases::prime_sieve::{bit_clear, bit_get, bit_words, largest_prime, len_primes, run, setup};

fn sieve(n: u64) -> (u64, u64) {
    let mut data = setup(n);
    let limit = (n as f64).sqrt() as u64;
    run(&mut data, limit);
    (len_primes(&data), largest_prime(&data))
}

#[test]
fn counts_primes_up_to_100() {
    assert_eq!(sieve(100), (25, 97));
}

#[test]
fn counts_primes_up_to_a_million() {
    assert_eq!(sieve(1_000_000), (78498, 999983));
}

#[test]
fn small_bounds() {
    assert_eq!(sieve(0), (0, 0));
    assert_eq!(sieve(1), (0, 0));
    assert_eq!(sieve(2), (1, 2));
    assert_eq!(sieve(3), (2, 3));
    assert_eq!(sieve(4), (2, 3));
    assert_eq!(sieve(9), (4, 7));
    assert_eq!(sieve(10), (4, 7));
    assert_eq!(sieve(11), (5, 11));
}

#[test]
fn square_of_a_prime_is_crossed_off() {
    // 25 and 49 are the squares of the last primes below the square root.
    assert_eq!(sieve(25), (9, 23));
    assert_eq!(sieve(49), (15, 47));
    assert_eq!(sieve(121), (30, 113));
}

#[test]
fn a_too_small_limit_keeps_composites() {
    let mut data = setup(25);
    run(&mut data, 3);
    // 25 survives when only 3 is used for crossing off.
    assert_eq!(len_primes(&data), 10);
    assert_eq!(largest_prime(&data), 25);
}

#[test]
fn runs_are_repeatable() {
    let mut data = setup(1000);
    run(&mut data, 31);
    let first = (len_primes(&data), largest_prime(&data));
    run(&mut data, 31);
    assert_eq!((len_primes(&data), largest_prime(&data)), first);
    assert_eq!(first, (168, 997));
}

#[test]
fn words_for_bits() {
    let w = usize::BITS as usize;
    assert_eq!(bit_words(0), 0);
    assert_eq!(bit_words(1), 1);
    assert_eq!(bit_words(w), 1);
    assert_eq!(bit_words(w + 1), 2);
    assert_eq!(bit_words(3 * w - 1), 3);
}

#[test]
fn clear_one_bit() {
    let mut bits = vec![usize::MAX; 2];
    let w = usize::BITS as usize;
    bit_clear(&mut bits, w + 3);
    for i in 0..2 * w {
        assert_eq!(bit_get(&bits, i), i != w + 3);
    }
    assert_eq!(bits[0], usize::MAX);
    assert_eq!(bits[1], !(1usize << 3));
}
