//! Matrix multiplication benchmark over `len × len` row-major matrices. The
//! products run on floating point outside this library; here stand the
//! transposition into the scratch buffer and the index arithmetic, for any
//! element type.
use vstd::prelude::*;

verus! {

/// Cell `(row, col)` of a row-major `n × n` matrix.
pub open spec fn cell(n: nat, row: nat, col: nat) -> int {
    (row * n + col) as int
}

proof fn lemma_cell_in_range(n: nat, row: nat, col: nat)
    requires
        row < n,
        col < n,
    ensures
        0 <= cell(n, row, col) < n * n,
{
    assert(row * n + col < n * n) by (nonlinear_arith)
        requires
            row < n,
            col < n,
    ;
}

/// Writes the transpose of the `n × n` matrix `src` into `dst`.
pub fn transpose<T: Copy>(src: &[T], dst: &mut [T], n: usize)
    requires
        src@.len() == n * n,
        old(dst)@.len() == n * n,
    ensures
        final(dst)@.len() == n * n,
        forall|row: nat, col: nat|
            row < n && col < n ==> #[trigger] final(dst)@[cell(n as nat, col, row)] == src@[cell(
                n as nat,
                row,
                col,
            )],
{
    assert(src.len() == n * n);
    let mut row: usize = 0;
    while row < n
        invariant
            src@.len() == n * n,
            dst@.len() == n * n,
            n * n <= usize::MAX,
            row <= n,
            forall|r: nat, c: nat|
                r < row && c < n ==> #[trigger] dst@[cell(n as nat, c, r)] == src@[cell(
                    n as nat,
                    r,
                    c,
                )],
        decreases n - row,
    {
        let mut col: usize = 0;
        while col < n
            invariant
                src@.len() == n * n,
                dst@.len() == n * n,
                n * n <= usize::MAX,
                row < n,
                col <= n,
                forall|r: nat, c: nat|
                    (r < row && c < n) || (r == row && c < col) ==> #[trigger] dst@[cell(
                        n as nat,
                        c,
                        r,
                    )] == src@[cell(n as nat, r, c)],
            decreases n - col,
        {
            proof {
                lemma_cell_in_range(n as nat, col as nat, row as nat);
                lemma_cell_in_range(n as nat, row as nat, col as nat);
                assert forall|r: nat, c: nat|
                    r < n && c < n && (r != row || c != col) implies cell(n as nat, c, r) != cell(
                    n as nat,
                    col as nat,
                    row as nat,
                ) by {
                    if c * n + r == col * n + row {
                        assert(c == col && r == row) by (nonlinear_arith)
                            requires
                                c * n + r == col * n + row,
                                r < n,
                                row < n,
                        ;
                    }
                }
            }
            let ghost prev = dst@;
            dst[col * n + row] = src[row * n + col];
            proof {
                assert forall|r: nat, c: nat|
                    (r < row && c < n) || (r == row && c < col + 1) implies #[trigger] dst@[cell(
                    n as nat,
                    c,
                    r,
                )] == src@[cell(n as nat, r, c)] by {
                    lemma_cell_in_range(n as nat, c, r);
                    if r != row || c != col {
                        assert(cell(n as nat, c, r) != cell(n as nat, col as nat, row as nat));
                        assert(dst@[cell(n as nat, c, r)] == prev[cell(n as nat, c, r)]);
                    }
                }
            }
            col = col + 1;
        }
        row = row + 1;
    }
}

} // verus!
