//! Sorting benchmark with a comparator chosen at setup: ascending for an even
//! length, descending for an odd one. Every comparison goes through the
//! comparator.
use vstd::prelude::*;
use core::cmp::Ordering;
use crate::lcg::lcg_outputs;
use crate::sort::{copy_values, is_nondecreasing, nondecreasing, random_values, SORT_SEED};

verus! {

/// The order a comparator sorts by.
pub enum Comparator {
    Ascending,
    Descending,
}

/// `a` may stand before `b` in the comparator's order.
pub open spec fn in_order(c: Comparator, a: u64, b: u64) -> bool {
    match c {
        Comparator::Ascending => a <= b,
        Comparator::Descending => a >= b,
    }
}

/// `s` is sorted in the comparator's order.
pub open spec fn sorted_for(c: Comparator, s: Seq<u64>) -> bool {
    forall|i: int, j: int| 0 <= i < j < s.len() ==> in_order(c, s[i], s[j])
}

/// How the comparator ranks `a` against `b`.
pub open spec fn ranking(c: Comparator, a: u64, b: u64) -> Ordering {
    let (x, y) = match c {
        Comparator::Ascending => (a, b),
        Comparator::Descending => (b, a),
    };
    if x < y {
        Ordering::Less
    } else if x == y {
        Ordering::Equal
    } else {
        Ordering::Greater
    }
}

impl Comparator {
    /// Compares `a` with `b`: by value when ascending, by reversed value when descending.
    pub fn compare(&mut self, a: &u64, b: &u64) -> (r: Ordering)
        ensures
            *final(self) == *old(self),
            r == ranking(*old(self), *a, *b),
    {
        let (x, y) = match self {
            Comparator::Ascending => (*a, *b),
            Comparator::Descending => (*b, *a),
        };
        if x < y {
            Ordering::Less
        } else if x == y {
            Ordering::Equal
        } else {
            Ordering::Greater
        }
    }
}

/// The comparator for ascending order when `ascending` holds, for descending order otherwise.
pub fn make_comparator(ascending: bool) -> (r: Comparator)
    ensures
        r == (if ascending { Comparator::Ascending } else { Comparator::Descending }),
{
    match ascending {
        true => Comparator::Ascending,
        false => Comparator::Descending,
    }
}

/// Calls `<[u64]>::sort_unstable_by` with the comparator's `compare`, which the
/// standard library documents as sorting the slice by that comparison; the elements
/// are permuted, none added or lost.
#[verifier::external_body]
fn sort_dyn(slice: &mut [u64], comparator: &mut Comparator)
    ensures
        final(slice)@.len() == old(slice)@.len(),
        sorted_for(*old(comparator), final(slice)@),
        final(slice)@.to_multiset() == old(slice)@.to_multiset(),
        *final(comparator) == *old(comparator),
{
    slice.sort_unstable_by(|a, b| comparator.compare(a, b));
}

/// State of the benchmark.
pub struct SortData {
    comparator: Comparator,
    original: Vec<u64>,
    working: Vec<u64>,
}

impl SortData {
    /// The array as generated.
    pub closed spec fn original_values(&self) -> Seq<u64> {
        self.original@
    }

    /// The array that `run` sorts.
    pub closed spec fn working_values(&self) -> Seq<u64> {
        self.working@
    }

    /// The comparator `run` sorts with.
    pub closed spec fn order(&self) -> Comparator {
        self.comparator
    }

    /// Both arrays have the same length.
    pub closed spec fn wf(&self) -> bool {
        self.original@.len() == self.working@.len()
    }

    /// The working array.
    pub fn values(&self) -> (r: &[u64])
        ensures
            r@ == self.working_values(),
    {
        self.working.as_slice()
    }

    /// Whether the working array is in ascending order.
    pub fn is_sorted(&self) -> (r: bool)
        ensures
            r == nondecreasing(self.working_values()),
    {
        is_nondecreasing(self.values())
    }
}

/// Generates `len` pseudo-random values and picks the ascending comparator for an even
/// `len`, the descending one for an odd `len`.
pub fn setup(len: usize) -> (r: Box<SortData>)
    ensures
        r.wf(),
        r.original_values() == lcg_outputs(SORT_SEED, 1, len as nat),
        r.working_values() == r.original_values(),
        r.order() == (if len % 2 == 0 { Comparator::Ascending } else { Comparator::Descending }),
{
    let original = random_values(SORT_SEED, len);
    let working = original.clone();
    let ascending = len % 2 == 0;
    Box::new(SortData { comparator: make_comparator(ascending), original, working })
}

/// Copies the original array into the working one and sorts it with the comparator.
pub fn run(data: &mut SortData)
    requires
        old(data).wf(),
    ensures
        final(data).wf(),
        final(data).original_values() == old(data).original_values(),
        final(data).order() == old(data).order(),
        sorted_for(old(data).order(), final(data).working_values()),
        final(data).working_values().to_multiset() == old(data).original_values().to_multiset(),
{
    copy_values(data.working.as_mut_slice(), data.original.as_slice());
    sort_dyn(data.working.as_mut_slice(), &mut data.comparator);
}


/// Sorting is unique: two arrays sorted in the same comparator's order with the same
/// elements are equal. In particular, for an even length this benchmark's run leaves
/// the same array as the plain sorting benchmark's run on the same input.
pub proof fn lemma_sorted_arrays_agree(c: Comparator, a: Seq<u64>, b: Seq<u64>)
    requires
        sorted_for(c, a),
        sorted_for(c, b),
        a.to_multiset() == b.to_multiset(),
    ensures
        a == b,
{
    let leq = |x: u64, y: u64| in_order(c, x, y);
    assert(vstd::relations::total_ordering(leq));
    assert(vstd::relations::sorted_by(a, leq)) by {
        assert forall|i: int, j: int| 0 <= i < j < a.len() implies #[trigger] leq(a[i], a[j]) by {}
    }
    assert(vstd::relations::sorted_by(b, leq)) by {
        assert forall|i: int, j: int| 0 <= i < j < b.len() implies #[trigger] leq(b[i], b[j]) by {}
    }
    vstd::seq_lib::lemma_sorted_unique(a, b, leq);
}

/// The ascending comparator's order is non-decreasing order, which `is_sorted` checks.
pub proof fn lemma_ascending_is_nondecreasing(s: Seq<u64>)
    ensures
        sorted_for(Comparator::Ascending, s) == nondecreasing(s),
{
    if sorted_for(Comparator::Ascending, s) {
        assert forall|i: int, j: int| 0 <= i < j < s.len() implies s[i] <= s[j] by {
            assert(in_order(Comparator::Ascending, s[i], s[j]));
        }
    }
    if nondecreasing(s) {
        assert forall|i: int, j: int| 0 <= i < j < s.len() implies in_order(
            Comparator::Ascending,
            s[i],
            s[j],
        ) by {
            assert(s[i] <= s[j]);
        }
    }
}

} // verus!
