//! Spectral norm benchmark over the infinite matrix `A(i, j) = 1 / d(i, j)`. The
//! power iteration runs on floating point outside this library; here stands the
//! integer denominator `d`.
use vstd::prelude::*;

verus! {

/// The denominator of `A(i, j)`: `(i + j) * (i + j + 1) / 2 + i + 1`.
pub open spec fn denominator(i: nat, j: nat) -> nat {
    (i + j) * (i + j + 1) / 2 + i + 1
}

/// The denominator of element `A(i, j)`, computed in `u64` (also where `usize` is
/// narrower) before the single conversion to floating point.
pub fn matrix_denominator(i: usize, j: usize) -> (r: u64)
    requires
        (i + j) * (i + j + 1) <= u64::MAX,
    ensures
        r == denominator(i as nat, j as nat),
{
    proof {
        assert(i + j + 1 <= u64::MAX + 1 && (i + j == 0 || i + j + 1 <= u64::MAX)) by (nonlinear_arith)
            requires
                (i + j) * (i + j + 1) <= u64::MAX,
        ;
    }
    let i = i as u64;
    let j = j as u64;
    let ij = i + j;
    proof {
        assert(ij * (ij + 1) / 2 + i + 1 <= u64::MAX) by (nonlinear_arith)
            requires
                ij == i + j,
                ij * (ij + 1) <= u64::MAX,
        ;
    }
    ij * (ij + 1) / 2 + i + 1
}

} // verus!
