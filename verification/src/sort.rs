//! Sorting benchmark: a fixed pseudo-random array of `u64`, copied and sorted
//! with the standard library's unstable sort on every run.
use vstd::prelude::*;
use crate::lcg::{lcg_outputs, lcg_state, next_rand};

verus! {

/// Seed of the generator that fills the array.
pub const SORT_SEED: u64 = 0x1234_5678_9ABC_DEF0;

/// `s` is in non-decreasing order.
pub open spec fn nondecreasing(s: Seq<u64>) -> bool {
    forall|i: int, j: int| 0 <= i < j < s.len() ==> s[i] <= s[j]
}

/// Calls `<[u64]>::sort_unstable`, which the standard library documents as sorting
/// the slice in ascending order; the elements are permuted, none added or lost.
#[verifier::external_body]
fn sort_unstable(values: &mut [u64])
    ensures
        final(values)@.len() == old(values)@.len(),
        nondecreasing(final(values)@),
        final(values)@.to_multiset() == old(values)@.to_multiset(),
{
    values.sort_unstable();
}

/// The first `len` outputs of the generator with increment 1 seeded with `seed`.
pub fn random_values(seed: u64, len: usize) -> (r: Vec<u64>)
    ensures
        r@ == lcg_outputs(seed, 1, len as nat),
{
    let mut rng = seed;
    let mut out: Vec<u64> = Vec::new();
    let mut i: usize = 0;
    while i < len
        invariant
            i <= len,
            rng == lcg_state(seed, 1, i as nat),
            out@ == lcg_outputs(seed, 1, i as nat),
        decreases len - i,
    {
        let v = next_rand(&mut rng);
        out.push(v);
        i = i + 1;
        proof {
            assert(out@ =~= lcg_outputs(seed, 1, i as nat));
        }
    }
    out
}

/// Overwrites `dst` with the elements of `src`, which has the same length.
pub fn copy_values(dst: &mut [u64], src: &[u64])
    requires
        old(dst)@.len() == src@.len(),
    ensures
        final(dst)@ == src@,
{
    let n = src.len();
    let mut i: usize = 0;
    while i < n
        invariant
            n == src@.len(),
            dst@.len() == n,
            i <= n,
            forall|j: int| 0 <= j < i ==> dst@[j] == src@[j],
        decreases n - i,
    {
        dst[i] = src[i];
        i = i + 1;
    }
    proof {
        assert(dst@ =~= src@);
    }
}

/// Whether every element is at most the next one.
pub fn is_nondecreasing(values: &[u64]) -> (r: bool)
    ensures
        r == nondecreasing(values@),
{
    let n = values.len();
    if n == 0 {
        return true;
    }
    let mut i: usize = 1;
    while i < n
        invariant
            n == values@.len(),
            1 <= i <= n,
            nondecreasing(values@.take(i as int)),
        decreases n - i,
    {
        if values[i - 1] > values[i] {
            return false;
        }
        proof {
            let t = values@.take(i + 1);
            assert forall|a: int, b: int| 0 <= a < b < t.len() implies t[a] <= t[b] by {
                if b < i {
                    assert(values@.take(i as int)[a] <= values@.take(i as int)[b]);
                } else if a < i - 1 {
                    assert(values@.take(i as int)[a] <= values@.take(i as int)[i - 1]);
                }
            }
        }
        i = i + 1;
    }
    proof {
        assert(values@.take(n as int) =~= values@);
    }
    true
}

/// State of the sorting benchmark.
pub struct SortData {
    original: Vec<u64>,
    working: Vec<u64>,
}

impl SortData {
    /// The array as generated.
    pub closed spec fn original_values(&self) -> Seq<u64> {
        self.original@
    }

    /// The array that `run` sorts.
    pub closed spec fn working_values(&self) -> Seq<u64> {
        self.working@
    }

    /// Both arrays have the same length.
    pub closed spec fn wf(&self) -> bool {
        self.original@.len() == self.working@.len()
    }

    /// The working array.
    pub fn values(&self) -> (r: &[u64])
        ensures
            r@ == self.working_values(),
    {
        self.working.as_slice()
    }

    /// Whether the working array is in ascending order.
    pub fn is_sorted(&self) -> (r: bool)
        ensures
            r == nondecreasing(self.working_values()),
    {
        is_nondecreasing(self.values())
    }
}

/// Generates `len` pseudo-random values; the working array starts as a copy.
pub fn setup(len: usize) -> (r: Box<SortData>)
    ensures
        r.wf(),
        r.original_values() == lcg_outputs(SORT_SEED, 1, len as nat),
        r.working_values() == r.original_values(),
{
    let original = random_values(SORT_SEED, len);
    let working = original.clone();
    Box::new(SortData { original, working })
}

/// Copies the original array into the working one and sorts it.
pub fn run(data: &mut SortData)
    requires
        old(data).wf(),
    ensures
        final(data).wf(),
        final(data).original_values() == old(data).original_values(),
        nondecreasing(final(data).working_values()),
        final(data).working_values().to_multiset() == old(data).original_values().to_multiset(),
{
    copy_values(data.working.as_mut_slice(), data.original.as_slice());
    sort_unstable(data.working.as_mut_slice());
}

} // verus!
