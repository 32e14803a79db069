use bench_cases::lcg::{next_rand, Lcg};
use bench_cases::sort;
use bench_cases::sort_dyn::{self, make_comparator, Comparator};
use std::cmp::Ordering;

fn expected_values(len: usize) -> Vec<u64> {
    let mut state: u64 = 0x1234_5678_9ABC_DEF0;
    (0..len)
        .map(|_| {
            state = state.wrapping_mul(6364136223846793005).wrapping_add(1);
            state
        })
        .collect()
}

#[test]
fn next_rand_steps_the_generator() {
    let mut s = 0u64;
    assert_eq!(next_rand(&mut s), 1);
    assert_eq!(s, 1);
    assert_eq!(next_rand(&mut s), 6364136223846793006);
}

#[test]
fn lcg_struct_matches_next_rand() {
    let mut l = Lcg::new(7);
    let mut s = 7u64;
    for _ in 0..5 {
        assert_eq!(l.next_u64(), next_rand(&mut s));
    }
    let mut m = Lcg::new(0);
    assert_eq!(m.next_u53(), 1 >> 11);
    assert_eq!(m.next_u53(), 6364136223846793006u64 >> 11);
}

#[test]
fn setup_generates_the_sequence() {
    let data = sort::setup(6);
    assert_eq!(data.values(), expected_values(6).as_slice());
}

#[test]
fn run_sorts_a_permutation() {
    let mut data = sort::setup(100);
    assert!(!data.is_sorted());
    sort::run(&mut data);
    assert!(data.is_sorted());
    let mut expected = expected_values(100);
    expected.sort();
    assert_eq!(data.values(), expected.as_slice());
}

#[test]
fn empty_and_single_arrays() {
    let mut data = sort::setup(0);
    sort::run(&mut data);
    assert!(data.is_sorted());
    assert!(data.values().is_empty());
    let mut data = sort::setup(1);
    sort::run(&mut data);
    assert!(data.is_sorted());
    assert_eq!(data.values().len(), 1);
}

#[test]
fn comparator_orders() {
    let mut asc = make_comparator(true);
    let mut desc = make_comparator(false);
    assert_eq!(asc.compare(&1, &2), Ordering::Less);
    assert_eq!(asc.compare(&2, &2), Ordering::Equal);
    assert_eq!(asc.compare(&3, &2), Ordering::Greater);
    assert_eq!(desc.compare(&1, &2), Ordering::Greater);
    assert_eq!(desc.compare(&2, &2), Ordering::Equal);
    assert_eq!(desc.compare(&3, &2), Ordering::Less);
    assert!(matches!(asc, Comparator::Ascending));
    assert!(matches!(desc, Comparator::Descending));
}

#[test]
fn even_length_sorts_like_the_plain_benchmark() {
    let mut a = sort::setup(64);
    let mut b = sort_dyn::setup(64);
    sort::run(&mut a);
    sort_dyn::run(&mut b);
    assert!(b.is_sorted());
    assert_eq!(a.values(), b.values());
}

#[test]
fn odd_length_sorts_descending() {
    let mut a = sort::setup(65);
    let mut b = sort_dyn::setup(65);
    sort::run(&mut a);
    sort_dyn::run(&mut b);
    assert!(!b.is_sorted());
    let mut reversed = a.values().to_vec();
    reversed.reverse();
    assert_eq!(b.values(), reversed.as_slice());
}
