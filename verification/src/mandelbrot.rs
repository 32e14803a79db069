//! Mandelbrot benchmark: the escape-time count of every pixel of a square render
//! area. The per-pixel iteration runs on floating point outside this library;
//! here stand the image buffer, its row layout and the checksum.
use vstd::prelude::*;

verus! {

/// Maximum number of escape-time iterations evaluated per pixel.
pub const MAX_ITER: u32 = 1000;

/// State of the benchmark: per-pixel escape counts, row-major, `size × size`.
pub struct MandelbrotData {
    iterations: Vec<u32>,
    size: usize,
}

/// Sum of the counts `s`.
pub open spec fn total(s: Seq<u32>) -> nat
    decreases s.len(),
{
    if s.len() == 0 {
        0
    } else {
        total(s.drop_last()) + s.last() as nat
    }
}

impl MandelbrotData {
    pub closed spec fn counts(&self) -> Seq<u32> {
        self.iterations@
    }

    pub closed spec fn side(&self) -> nat {
        self.size as nat
    }

    /// The buffer holds `size × size` counts, none above `MAX_ITER`, and their sum fits
    /// in a `u64`.
    pub closed spec fn wf(&self) -> bool {
        &&& self.iterations@.len() == self.size * self.size
        &&& self.size * self.size <= usize::MAX
        &&& self.size * self.size * (MAX_ITER as nat) <= u64::MAX
        &&& forall|i: int| 0 <= i < self.iterations@.len() ==> #[trigger] self.iterations@[i] <= MAX_ITER
    }

    /// Width and height of the render area in pixels.
    pub fn size(&self) -> (r: usize)
        ensures
            r == self.side(),
    {
        self.size
    }
}

/// What a well-formed state holds: `size × size` counts, none above `MAX_ITER`, whose
/// largest possible sum fits in a `u64`.
pub proof fn lemma_well_formed(data: &MandelbrotData)
    requires
        data.wf(),
    ensures
        data.counts().len() == data.side() * data.side(),
        data.side() * data.side() * (MAX_ITER as nat) <= u64::MAX,
        forall|i: int| 0 <= i < data.counts().len() ==> #[trigger] data.counts()[i] <= MAX_ITER,
{
}

/// Allocates a zeroed buffer of `size × size` counts.
pub fn setup(size: usize) -> (r: Box<MandelbrotData>)
    requires
        size * size * (MAX_ITER as nat) <= u64::MAX,
        size * size <= usize::MAX,
    ensures
        r.wf(),
        r.side() == size,
        r.counts() == Seq::new((size * size) as nat, |i: int| 0u32),
{
    let pixels = size * size;
    let r = Box::new(MandelbrotData { iterations: vec![0u32; pixels], size });
    proof {
        assert(r.iterations@ =~= Seq::new((size * size) as nat, |i: int| 0u32));
    }
    r
}

/// Stores the counts of row `py`: `row[px]` becomes the count of pixel `(px, py)`.
pub fn store_row(data: &mut MandelbrotData, py: usize, row: &[u32])
    requires
        old(data).wf(),
        py < old(data).side(),
        row@.len() == old(data).side(),
        forall|i: int| 0 <= i < row@.len() ==> #[trigger] row@[i] <= MAX_ITER,
    ensures
        final(data).wf(),
        final(data).side() == old(data).side(),
        forall|i: int|
            0 <= i < old(data).counts().len() ==> #[trigger] final(data).counts()[i] == if py
                * old(data).side() <= i < (py + 1) * old(data).side() {
                row@[i - py * old(data).side()]
            } else {
                old(data).counts()[i]
            },
{
    let size = data.size;
    proof {
        assert((py + 1) * size <= size * size && py * size + size == (py + 1) * size) by (nonlinear_arith)
            requires
                py < size,
        ;
    }
    let base = py * size;
    let mut px: usize = 0;
    while px < size
        invariant
            size == data.size,
            row@.len() == size,
            py < size,
            base == py * size,
            base + size <= size * size,
            size * size <= usize::MAX,
            data.iterations@.len() == old(data).iterations@.len(),
            old(data).iterations@.len() == size * size,
            px <= size,
            forall|i: int| 0 <= i < row@.len() ==> #[trigger] row@[i] <= MAX_ITER,
            forall|i: int|
                0 <= i < data.iterations@.len() ==> #[trigger] data.iterations@[i] == if base <= i
                    < base + px {
                    row@[i - base]
                } else {
                    old(data).iterations@[i]
                },
        decreases size - px,
    {
        data.iterations.set(base + px, row[px]);
        px = px + 1;
    }
}

proof fn lemma_total_bound(s: Seq<u32>)
    requires
        forall|i: int| 0 <= i < s.len() ==> #[trigger] s[i] <= MAX_ITER,
    ensures
        total(s) <= s.len() * (MAX_ITER as nat),
    decreases s.len(),
{
    if s.len() > 0 {
        lemma_total_bound(s.drop_last());
        assert(s.last() <= MAX_ITER);
        assert((s.len() - 1) * (MAX_ITER as nat) + MAX_ITER == s.len() * (MAX_ITER as nat)) by (nonlinear_arith);
    }
}

/// Sum of every escape count.
pub fn output(data: &MandelbrotData) -> (r: u64)
    requires
        data.wf(),
    ensures
        r == total(data.counts()),
        r <= data.side() * data.side() * (MAX_ITER as nat),
{
    let n = data.iterations.len();
    let mut sum: u64 = 0;
    let mut i: usize = 0;
    proof {
        lemma_total_bound(data.iterations@);
    }
    while i < n
        invariant
            n == data.iterations@.len(),
            i <= n,
            total(data.iterations@) <= u64::MAX,
            sum == total(data.iterations@.take(i as int)),
            total(data.iterations@.take(i as int)) <= total(data.iterations@),
        decreases n - i,
    {
        proof {
            assert(data.iterations@.take(i + 1).drop_last() =~= data.iterations@.take(i as int));
            lemma_total_prefix(data.iterations@, i + 1);
        }
        sum = sum + data.iterations[i] as u64;
        i = i + 1;
    }
    proof {
        assert(data.iterations@.take(n as int) =~= data.iterations@);
    }
    sum
}

proof fn lemma_total_prefix(s: Seq<u32>, k: int)
    requires
        0 <= k <= s.len(),
    ensures
        total(s.take(k)) <= total(s),
    decreases s.len() - k,
{
    if k < s.len() {
        lemma_total_prefix(s, k + 1);
        assert(s.take(k + 1).drop_last() =~= s.take(k));
    } else {
        assert(s.take(k) =~= s);
    }
}


/// The checksum counts every pixel once: nothing sums to 0, and one more count `c`
/// adds `c`; so a single count sums to itself.
pub proof fn lemma_total_adds_each_count(s: Seq<u32>, c: u32)
    ensures
        total(Seq::empty()) == 0,
        total(s.push(c)) == total(s) + c,
        total(seq![c]) == c,
{
    assert(s.push(c).drop_last() =~= s);
    assert(seq![c].drop_last() =~= Seq::<u32>::empty());
}

} // verus!
