//! Sieve of Eratosthenes over odd numbers, stored one bit per odd number.
//!
//! Bit `i` of the bitset stands for the odd number `2 * i + 3`; a set bit
//! means "still considered prime".
use vstd::prelude::*;
use vstd::arithmetic::div_mod::{lemma_fundamental_div_mod, lemma_mod_multiples_basic};

verus! {

/// Number of bits in one word of the bitset.
pub open spec fn word_bits() -> nat {
    usize::BITS as nat
}

/// Bit `i` of a bitset stored in `words`, least significant bit first.
pub open spec fn bit_at(words: Seq<usize>, i: int) -> bool {
    (words[i / word_bits() as int] >> ((i % word_bits() as int) as usize)) & 1 != 0
}

/// Number of words needed to hold `num_bits` bits.
pub open spec fn words_for(num_bits: nat) -> nat {
    (num_bits + word_bits() - 1) as nat / word_bits()
}

proof fn lemma_ceil_div(n: int, w: int)
    requires
        n >= 0,
        w > 0,
    ensures
        (n + w - 1) / w == n / w + (if n % w != 0 { 1int } else { 0int }),
{
    let q = n / w;
    let r = n % w;
    assert(n == w * q + r && 0 <= r < w) by (nonlinear_arith)
        requires
            w > 0,
            q == n / w,
            r == n % w,
    ;
    if r == 0 {
        assert((w * q + w - 1) / w == q) by (nonlinear_arith)
            requires
                w > 0,
        ;
    } else {
        assert((w * q + r + w - 1) / w == q + 1) by (nonlinear_arith)
            requires
                w > 0,
                0 < r < w,
        ;
    }
}

proof fn lemma_word_bits()
    ensures
        word_bits() == 32 || word_bits() == 64,
{
}

/// Number of words needed to hold `num_bits` bits (rounded up).
pub fn bit_words(num_bits: usize) -> (r: usize)
    ensures
        r == words_for(num_bits as nat),
{
    proof {
        lemma_word_bits();
    }
    let w = usize::BITS as usize;
    let q = num_bits / w;
    proof {
        lemma_ceil_div(num_bits as int, w as int);
    }
    if num_bits % w != 0 {
        q + 1
    } else {
        q
    }
}

/// Reads bit `index` of the bitset.
pub fn bit_get(bits: &[usize], index: usize) -> (r: bool)
    requires
        (index as nat) < bits@.len() * word_bits(),
    ensures
        r == bit_at(bits@, index as int),
{
    proof {
        lemma_word_bits();
    }
    let bits_per_word = usize::BITS as usize;
    let word = index / bits_per_word;
    let bit = index % bits_per_word;
    ((bits[word] >> bit) & 1) != 0
}

proof fn lemma_clear_bit_in_word(x: usize, b: usize, c: usize)
    requires
        b < usize::BITS,
        c < usize::BITS,
    ensures
        ((x & !(1usize << b)) >> c) & 1 != 0 <==> (c != b && (x >> c) & 1 != 0),
{
    assert(((x & !(1usize << b)) >> c) & 1 != 0 <==> (c != b && (x >> c) & 1 != 0)) by (bit_vector)
        requires
            b < usize::BITS,
            c < usize::BITS,
    ;
}

/// Clears bit `index` of the bitset; every other bit keeps its value.
pub fn bit_clear(bits: &mut [usize], index: usize)
    requires
        (index as nat) < old(bits)@.len() * word_bits(),
    ensures
        final(bits)@.len() == old(bits)@.len(),
        forall|i: int|
            0 <= i < old(bits)@.len() * word_bits() ==> #[trigger] bit_at(final(bits)@, i) == (i
                != index && bit_at(old(bits)@, i)),
{
    proof {
        lemma_word_bits();
    }
    let bits_per_word = usize::BITS as usize;
    let word = index / bits_per_word;
    let bit = index % bits_per_word;
    let ghost old_bits = bits@;
    bits[word] = bits[word] & !(1usize << bit);
    proof {
        assert forall|i: int| 0 <= i < old_bits.len() * word_bits() implies #[trigger] bit_at(
            bits@,
            i,
        ) == (i != index && bit_at(old_bits, i)) by {
            let wi = i / word_bits() as int;
            let ci = (i % word_bits() as int) as usize;
            if wi == word {
                lemma_clear_bit_in_word(old_bits[wi], bit, ci);
                assert(ci == bit <==> i == index);
            } else {
                assert(i != index);
            }
        }
    }
}


// ---------------------------------------------------------------------------
// Number theory used by the contracts
// ---------------------------------------------------------------------------

/// `v` is a prime number.
pub open spec fn is_prime(v: nat) -> bool {
    v >= 2 && forall|d: nat| 2 <= d < v ==> #[trigger] (v % d) != 0
}

/// Number of primes in `0..=n`.
pub open spec fn prime_count_upto(n: nat) -> nat
    decreases n,
{
    if n == 0 {
        0
    } else {
        prime_count_upto((n - 1) as nat) + if is_prime(n) { 1nat } else { 0nat }
    }
}

/// The largest prime in `0..=n`, or 0 when there is none.
pub open spec fn largest_prime_upto(n: nat) -> nat
    decreases n,
{
    if n < 2 {
        0
    } else if is_prime(n) {
        n
    } else {
        largest_prime_upto((n - 1) as nat)
    }
}

/// Number of odd numbers in `3..=n`: the bits the sieve needs.
pub open spec fn odd_count(n: nat) -> nat {
    if n < 3 {
        0
    } else {
        ((n - 3) / 2 + 1) as nat
    }
}

/// The odd number that bit `i` stands for.
pub open spec fn odd_at(i: nat) -> nat {
    2 * i + 3
}

/// No odd `d` with `3 <= d < p` and `d * d <= v` divides `v`.
pub open spec fn kept_below(v: nat, p: nat) -> bool {
    forall|d: nat| 3 <= d < p && d % 2 == 1 && d * d <= v ==> #[trigger] (v % d) != 0
}

/// `v` survives sieving with every odd `d` in `3..=limit`: no such `d` with
/// `d * d <= v` divides it.
pub open spec fn sieve_keeps(v: nat, limit: nat) -> bool {
    forall|d: nat| 3 <= d <= limit && d % 2 == 1 && d * d <= v ==> #[trigger] (v % d) != 0
}

/// Number of `i < k` whose odd number survives the sieve.
pub open spec fn kept_count(limit: nat, k: nat) -> nat
    decreases k,
{
    if k == 0 {
        0
    } else {
        kept_count(limit, (k - 1) as nat) + if sieve_keeps(odd_at((k - 1) as nat), limit) {
            1nat
        } else {
            0nat
        }
    }
}

/// The largest surviving odd number among the first `k`, or `fallback` when none survives.
pub open spec fn last_kept(limit: nat, k: nat, fallback: nat) -> nat
    decreases k,
{
    if k == 0 {
        fallback
    } else if sieve_keeps(odd_at((k - 1) as nat), limit) {
        odd_at((k - 1) as nat)
    } else {
        last_kept(limit, (k - 1) as nat, fallback)
    }
}

/// The count of primes that a sieve of `0..=n` crossing off with odd numbers up to
/// `limit` reports: 2, when `n >= 2`, and every surviving odd number.
pub open spec fn sieve_count(n: nat, limit: nat) -> nat {
    (if n >= 2 { 1nat } else { 0nat }) + kept_count(limit, odd_count(n))
}

/// The largest prime that such a sieve reports.
pub open spec fn sieve_largest(n: nat, limit: nat) -> nat {
    last_kept(limit, odd_count(n), if n >= 2 { 2nat } else { 0nat })
}

/// `limit` is the integer square root of `n`.
pub open spec fn is_isqrt(n: nat, limit: nat) -> bool {
    limit * limit <= n < (limit + 1) * (limit + 1)
}


// ---------------------------------------------------------------------------
// Lemmas: why the sieve finds exactly the primes
// ---------------------------------------------------------------------------

/// `v == d * (v / d)` when `d` divides `v`.
proof fn lemma_divides_product(v: nat, d: nat)
    requires
        d > 0,
        v % d == 0,
    ensures
        v == d * (v / d),
{
    lemma_fundamental_div_mod(v as int, d as int);
}

/// A multiple of `d` leaves no remainder.
proof fn lemma_multiple_mod(k: nat, d: nat)
    requires
        d > 0,
    ensures
        (d * k) % d == 0,
        (k * d) % d == 0,
{
    lemma_mod_multiples_basic(k as int, d as int);
    assert(d * k == k * d) by (nonlinear_arith);
}

/// Divisibility is transitive.
proof fn lemma_divides_trans(d: nat, p: nat, v: nat)
    requires
        d > 0,
        p > 0,
        p % d == 0,
        v % p == 0,
    ensures
        v % d == 0,
{
    lemma_divides_product(p, d);
    lemma_divides_product(v, p);
    let a = p / d;
    let b = v / p;
    assert(v == d * (a * b)) by (nonlinear_arith)
        requires
            p == d * a,
            v == p * b,
    ;
    lemma_multiple_mod(a * b, d);
}

/// An odd number has only odd divisors.
proof fn lemma_divisor_of_odd_is_odd(v: nat, d: nat)
    requires
        d > 0,
        v % 2 == 1,
        v % d == 0,
    ensures
        d % 2 == 1,
{
    if d % 2 == 0 {
        lemma_divides_trans(2, d, v);
    }
}

/// An odd number of at least 3 that is not prime has an odd divisor `d >= 3`
/// with `d * d <= v`.
proof fn lemma_small_odd_divisor(v: nat) -> (d: nat)
    requires
        v >= 3,
        v % 2 == 1,
        !is_prime(v),
    ensures
        3 <= d,
        d % 2 == 1,
        d * d <= v,
        v % d == 0,
{
    let d0 = choose|d: nat| 2 <= d < v && #[trigger] (v % d) == 0;
    lemma_divides_product(v, d0);
    let e = v / d0;
    assert(e >= 2) by (nonlinear_arith)
        requires
            v == d0 * e,
            2 <= d0 < v,
    ;
    assert(v % e == 0) by {
        assert(v == e * d0) by (nonlinear_arith)
            requires
                v == d0 * e,
        ;
        lemma_multiple_mod(d0, e);
    }
    let m = if d0 <= e { d0 } else { e };
    assert(m * m <= v) by (nonlinear_arith)
        requires
            v == d0 * e,
            m == d0 || m == e,
            m <= d0,
            m <= e,
            m >= 2,
    ;
    lemma_divisor_of_odd_is_odd(v, m);
    m
}

/// For odd `v` in `3..=n` and `limit` the integer square root of `n`, `v` survives
/// the sieve exactly when it is prime.
pub proof fn lemma_keeps_iff_prime(v: nat, n: nat, limit: nat)
    requires
        3 <= v <= n,
        v % 2 == 1,
        is_isqrt(n, limit),
    ensures
        sieve_keeps(v, limit) == is_prime(v),
{
    if is_prime(v) {
        assert forall|d: nat| 3 <= d <= limit && d % 2 == 1 && d * d <= v implies #[trigger] (v
            % d) != 0 by {
            assert(d < v) by (nonlinear_arith)
                requires
                    3 <= d,
                    d * d <= v,
            ;
        }
    } else {
        let d = lemma_small_odd_divisor(v);
        assert(d <= limit) by (nonlinear_arith)
            requires
                d * d <= v,
                v <= n,
                n < (limit + 1) * (limit + 1),
                d >= 0,
                limit >= 0,
        ;
        assert(v % d == 0);
    }
}

/// An even number of at least 4 is not prime.
proof fn lemma_even_not_prime(v: nat)
    requires
        v >= 4,
        v % 2 == 0,
    ensures
        !is_prime(v),
{
    assert(v % 2 == 0);
}

proof fn lemma_two_is_prime()
    ensures
        is_prime(2),
        !is_prime(1),
        !is_prime(0),
        prime_count_upto(2) == 1,
        largest_prime_upto(2) == 2,
        largest_prime_upto(1) == 0,
{
    assert forall|d: nat| 2 <= d < 2 implies #[trigger] (2nat % d) != 0 by {}
    assert(prime_count_upto(1) == prime_count_upto(0));
}

/// Counting the survivors among the first `k` odd numbers counts the primes up to `2k + 2`.
proof fn lemma_kept_counts_primes(n: nat, limit: nat, k: nat)
    requires
        is_isqrt(n, limit),
        2 * k + 1 <= n,
    ensures
        prime_count_upto(2 * k + 2) == 1 + kept_count(limit, k),
        largest_prime_upto(2 * k + 2) == last_kept(limit, k, 2),
    decreases k,
{
    lemma_two_is_prime();
    if k > 0 {
        lemma_kept_counts_primes(n, limit, (k - 1) as nat);
        let v = odd_at((k - 1) as nat);
        assert(v == 2 * k + 1);
        lemma_keeps_iff_prime(v, n, limit);
        lemma_even_not_prime(2 * k + 2);
        assert(prime_count_upto(2 * k + 2) == prime_count_upto(2 * k + 1));
        assert(prime_count_upto(2 * k + 1) == prime_count_upto(2 * k) + if is_prime(v) {
            1nat
        } else {
            0nat
        });
        assert(largest_prime_upto(2 * k + 2) == largest_prime_upto(2 * k + 1));
        assert((2 * (k - 1) + 2) as nat == 2 * k);
    }
}

/// With `limit` the integer square root of `n`, the sieve reports the number of primes
/// up to `n` and the largest of them.
pub proof fn lemma_sieve_finds_primes(n: nat, limit: nat)
    requires
        is_isqrt(n, limit),
    ensures
        sieve_count(n, limit) == prime_count_upto(n),
        sieve_largest(n, limit) == largest_prime_upto(n),
{
    lemma_two_is_prime();
    if n >= 3 {
        let k = odd_count(n);
        lemma_kept_counts_primes(n, limit, k);
        if n % 2 == 1 {
            assert(2 * k + 1 == n);
            lemma_even_not_prime(n + 1);
            assert(prime_count_upto(n + 1) == prime_count_upto(n));
            assert(largest_prime_upto(n + 1) == largest_prime_upto(n));
        } else {
            assert(2 * k + 2 == n);
        }
    } else if n == 2 {
    } else {
        assert(prime_count_upto(1) == prime_count_upto(0));
    }
}


// ---------------------------------------------------------------------------
// Lemmas on the sieve's own steps
// ---------------------------------------------------------------------------

/// The odd multiples of `p` from `p * q` on come every `2 * p`.
proof fn lemma_next_odd_multiple(p: nat, q: nat, v: nat)
    requires
        p >= 3,
        q % 2 == 1,
        v % 2 == 1,
        v % p == 0,
        p * q <= v < p * q + 2 * p,
    ensures
        v == p * q,
{
    lemma_divides_product(v, p);
    let m = v / p;
    assert(q <= m < q + 2) by (nonlinear_arith)
        requires
            p >= 3,
            v == p * m,
            p * q <= v < p * q + 2 * p,
    ;
    if m == q + 1 {
        assert(v % 2 == 0) by {
            assert(v == (p * ((q + 1) / 2)) * 2) by (nonlinear_arith)
                requires
                    v == p * m,
                    m == q + 1,
                    q % 2 == 1,
            ;
            lemma_multiple_mod(p * ((q + 1) / 2), 2);
        }
    }
}

/// The product of two odd numbers is odd.
proof fn lemma_odd_product(p: nat, q: nat)
    requires
        p % 2 == 1,
        q % 2 == 1,
    ensures
        (p * q) % 2 == 1,
{
    lemma_fundamental_div_mod(p as int, 2);
    lemma_fundamental_div_mod(q as int, 2);
    let a = p / 2;
    let b = q / 2;
    let k = 2 * a * b + a + b;
    assert(p * q == 2 * k + 1) by (nonlinear_arith)
        requires
            p == 2 * a + 1,
            q == 2 * b + 1,
            k == 2 * a * b + a + b,
    ;
}

/// Crossing off the multiples of `p` from `p * p` on takes `p` into account.
proof fn lemma_kept_below_step(v: nat, p: nat)
    requires
        p >= 3,
        p % 2 == 1,
    ensures
        kept_below(v, p + 2) == (kept_below(v, p) && !(v % p == 0 && p * p <= v)),
{
    if kept_below(v, p) && !(v % p == 0 && p * p <= v) {
        assert forall|d: nat| 3 <= d < p + 2 && d % 2 == 1 && d * d <= v implies #[trigger] (v
            % d) != 0 by {
            if d < p {
            } else {
                assert(d == p);
            }
        }
    }
}

/// Crossing off the multiples of a `p` that was itself crossed off changes nothing.
proof fn lemma_kept_below_composite(v: nat, p: nat)
    requires
        p >= 3,
        p % 2 == 1,
        !kept_below(p, p),
    ensures
        kept_below(v, p + 2) == kept_below(v, p),
{
    lemma_kept_below_step(v, p);
    if v % p == 0 && p * p <= v && kept_below(v, p) {
        let d = choose|d: nat| 3 <= d < p && d % 2 == 1 && d * d <= p && #[trigger] (p % d) == 0;
        lemma_divides_trans(d, p, v);
        assert(d * d <= v) by (nonlinear_arith)
            requires
                d * d <= p,
                p * p <= v,
                p >= 3,
        ;
        assert(v % d != 0);
    }
}

/// Once every odd `d` up to `limit` has been taken into account, what is kept is
/// what the sieve keeps.
proof fn lemma_kept_below_done(v: nat, p: nat, limit: nat)
    requires
        p % 2 == 1,
        limit < p,
        p <= limit + 2 || p == 3,
    ensures
        kept_below(v, p) == sieve_keeps(v, limit),
{
    if kept_below(v, p) {
        assert forall|d: nat| 3 <= d <= limit && d % 2 == 1 && d * d <= v implies #[trigger] (v
            % d) != 0 by {
            assert(d < p);
        }
    }
    if sieve_keeps(v, limit) {
        assert forall|d: nat| 3 <= d < p && d % 2 == 1 && d * d <= v implies #[trigger] (v % d)
            != 0 by {
            assert(d <= limit);
        }
    }
}

/// Facts on how an index splits into a word and a bit.
proof fn lemma_index_split(i: int, len: int)
    requires
        0 <= i,
        len >= 0,
    ensures
        i == word_bits() * (i / word_bits() as int) + i % word_bits() as int,
        0 <= (i % (word_bits() as int)) < word_bits(),
        i < len * word_bits() ==> (i / (word_bits() as int)) < len,
{
    lemma_word_bits();
    lemma_fundamental_div_mod(i, word_bits() as int);
    if i < len * word_bits() {
        let w = word_bits() as int;
        assert(i / w < len) by (nonlinear_arith)
            requires
                i == w * (i / w) + i % w,
                0 <= i % w < w,
                i < len * w,
                w > 0,
        ;
    }
}

proof fn lemma_max_is_all_ones()
    ensures
        usize::MAX == !0usize,
{
    lemma_word_bits();
    if usize::BITS == 64 {
        assert(!0usize == 0xffff_ffff_ffff_ffff) by (bit_vector)
            requires
                usize::BITS == 64,
        ;
    } else {
        assert(!0usize == 0xffff_ffff) by (bit_vector)
            requires
                usize::BITS == 32,
        ;
    }
}

proof fn lemma_all_ones_bit(c: usize)
    requires
        c < usize::BITS,
    ensures
        (!0usize >> c) & 1 != 0,
{
    assert((!0usize >> c) & 1 != 0) by (bit_vector)
        requires
            c < usize::BITS,
    ;
}

proof fn lemma_low_mask_bit(t: usize, c: usize)
    requires
        0 < t < usize::BITS,
        c < usize::BITS,
    ensures
        ((!0usize & (((1usize << t) - 1) as usize)) >> c) & 1 != 0 <==> c < t,
{
    assert(((!0usize & (((1usize << t) - 1) as usize)) >> c) & 1 != 0 <==> c < t) by (bit_vector)
        requires
            0 < t < usize::BITS,
            c < usize::BITS,
    ;
}


// ---------------------------------------------------------------------------
// The benchmark
// ---------------------------------------------------------------------------

/// State of the prime sieve benchmark.
pub struct PrimeSieveData {
    /// Upper bound (inclusive).
    n: u64,
    /// Bitset over the odd numbers `3..=n`; bit `i` stands for `2 * i + 3`.
    bits: Vec<usize>,
    /// Number of primes found during the last run.
    prime_count: u64,
    /// Largest prime found during the last run.
    largest_prime: u64,
}

impl PrimeSieveData {
    /// The bitset has one bit per odd number in `3..=n`, rounded up to whole words.
    pub closed spec fn wf(&self) -> bool {
        &&& odd_count(self.n as nat) <= usize::MAX
        &&& self.bits@.len() == words_for(odd_count(self.n as nat))
    }

    /// The upper bound of the sieve.
    pub closed spec fn upper(&self) -> nat {
        self.n as nat
    }

    /// The number of primes reported by the last run.
    pub closed spec fn count(&self) -> nat {
        self.prime_count as nat
    }

    /// The largest prime reported by the last run.
    pub closed spec fn largest(&self) -> nat {
        self.largest_prime as nat
    }

    /// The words of the bitset.
    pub closed spec fn bitset(&self) -> Seq<usize> {
        self.bits@
    }

    /// The bitset, one entry per odd number in `3..=n`.
    pub closed spec fn marks(&self) -> Seq<bool> {
        Seq::new(odd_count(self.n as nat), |i: int| bit_at(self.bits@, i))
    }
}

/// Sets every bit below `odd` and clears every bit from `odd` on.
fn reset_bits(bits: &mut Vec<usize>, odd: usize)
    requires
        old(bits)@.len() == words_for(odd as nat),
    ensures
        final(bits)@.len() == old(bits)@.len(),
        forall|i: int|
            0 <= i < final(bits)@.len() * word_bits() ==> #[trigger] bit_at(final(bits)@, i) == (i
                < odd),
{
    proof {
        lemma_word_bits();
        lemma_max_is_all_ones();
    }
    let len = bits.len();
    let mut k: usize = 0;
    while k < len
        invariant
            k <= len,
            bits@.len() == len,
            forall|j: int| 0 <= j < k ==> #[trigger] bits@[j] == usize::MAX,
        decreases len - k,
    {
        bits.set(k, usize::MAX);
        k = k + 1;
    }
    let bits_per_word = usize::BITS as usize;
    let trailing_bits = odd % bits_per_word;
    let ghost full = bits@;
    if trailing_bits != 0 && len != 0 {
        assert((1usize << trailing_bits) >= 1) by (bit_vector)
            requires
                trailing_bits < usize::BITS,
        ;
        let mask = (1usize << trailing_bits) - 1;
        let last = len - 1;
        bits.set(last, bits[last] & mask);
    }
    proof {
        let w = word_bits() as int;
        let o = odd as int;
        let t = trailing_bits as int;
        lemma_ceil_div(odd as int, w);
        lemma_fundamental_div_mod(odd as int, w);
        assert forall|i: int| 0 <= i < bits@.len() * word_bits() implies #[trigger] bit_at(
            bits@,
            i,
        ) == (i < odd) by {
            lemma_index_split(i, len as int);
            let wi = i / w;
            let ci = (i % w) as usize;
            if trailing_bits != 0 && wi == len - 1 {
                lemma_low_mask_bit(trailing_bits, ci);
                assert(len - 1 == o / w);
                assert((i < o) == (ci < t)) by (nonlinear_arith)
                    requires
                        i == w * wi + ci,
                        o == w * (o / w) + t,
                        wi == o / w,
                ;
            } else {
                lemma_all_ones_bit(ci);
                assert(i < o) by (nonlinear_arith)
                    requires
                        i == w * wi + ci,
                        0 <= ci < w,
                        o == w * (o / w) + t,
                        0 <= t < w,
                        0 <= wi < len,
                        len == o / w + (if t != 0 { 1int } else { 0int }),
                        t != 0 ==> wi != len - 1,
                ;
            }
        }
    }
}

/// Creates the benchmark state for the primes up to `n`.
pub fn setup(n: u64) -> (r: Box<PrimeSieveData>)
    requires
        odd_count(n as nat) <= usize::MAX,
    ensures
        r.wf(),
        r.upper() == n,
        r.count() == 0,
        r.largest() == 0,
        forall|i: int| 0 <= i < odd_count(n as nat) ==> #[trigger] r.marks()[i],
        r.bitset() == Seq::new(words_for(odd_count(n as nat)), |i: int| usize::MAX),
{
    let odd_count = if n < 3 {
        0
    } else {
        ((n - 3) / 2 + 1) as usize
    };
    let words = bit_words(odd_count);
    let r = Box::new(
        PrimeSieveData { n, bits: vec![usize::MAX; words], prime_count: 0, largest_prime: 0 },
    );
    proof {
        assert(r.bits@ =~= Seq::new(words as nat, |i: int| usize::MAX));
        lemma_word_bits();
        lemma_max_is_all_ones();
        lemma_ceil_div(odd_count as int, word_bits() as int);
        assert forall|i: int| 0 <= i < odd_count implies #[trigger] bit_at(r.bits@, i) by {
            lemma_index_split(i, words as int);
            let w = word_bits() as int;
            let o = odd_count as int;
            lemma_fundamental_div_mod(o, w);
            assert(i / w < words) by (nonlinear_arith)
                requires
                    i == w * (i / w) + i % w,
                    0 <= i % w < w,
                    i < o,
                    o == w * (o / w) + o % w,
                    0 <= o % w < w,
                    words == o / w + (if o % w != 0 { 1int } else { 0int }),
                    w > 0,
            ;
            lemma_all_ones_bit((i % w) as usize);
        }
    }
    r
}


/// Crosses off, for every odd `p` in `3..=limit` that is still marked, the odd
/// multiples of `p` from `p * p` up to `n`.
fn cross_off(bits: &mut Vec<usize>, n: u64, odd: usize, limit: u64)
    requires
        3 <= n,
        odd == odd_count(n as nat),
        limit <= n,
        limit <= 0x1_0000_0000,
        old(bits)@.len() == words_for(odd as nat),
        forall|i: int|
            0 <= i < old(bits)@.len() * word_bits() ==> #[trigger] bit_at(old(bits)@, i) == (i
                < odd),
    ensures
        final(bits)@.len() == old(bits)@.len(),
        forall|i: int|
            0 <= i < odd ==> #[trigger] bit_at(final(bits)@, i) == sieve_keeps(
                odd_at(i as nat),
                limit as nat,
            ),
        forall|i: int|
            odd <= i < final(bits)@.len() * word_bits() ==> !#[trigger] bit_at(final(bits)@, i),
{
    proof {
        lemma_word_bits();
        lemma_ceil_div(odd as int, word_bits() as int);
        assert forall|i: int| 0 <= i < odd implies #[trigger] bit_at(bits@, i) == kept_below(
            odd_at(i as nat),
            3,
        ) by {
            let w = word_bits() as int;
            let o = odd as int;
            lemma_fundamental_div_mod(o, w);
            assert(o <= bits@.len() * w) by (nonlinear_arith)
                requires
                    bits@.len() == o / w + (if o % w != 0 { 1int } else { 0int }),
                    o == w * (o / w) + o % w,
                    0 <= o % w < w,
                    w > 0,
            ;
        }
    }
    let len = bits.len();
    let mut p: u64 = 3;
    while p <= limit
        invariant
            3 <= p,
            p <= limit + 2 || p == 3,
            p % 2 == 1,
            3 <= n,
            odd == odd_count(n as nat),
            limit <= n,
            limit <= 0x1_0000_0000,
            bits@.len() == len,
            len == words_for(odd as nat),
            odd <= len * word_bits(),
            forall|i: int|
                0 <= i < odd ==> #[trigger] bit_at(bits@, i) == kept_below(odd_at(i as nat), p as nat),
            forall|i: int| odd <= i < len * word_bits() ==> !#[trigger] bit_at(bits@, i),
        decreases limit + 2 - p,
    {
        let p_index = ((p - 3) / 2) as usize;
        assert(p_index < odd);
        let marked = bit_get(bits.as_slice(), p_index);
        assert(odd_at(p_index as nat) == p);
        if marked {
            assert(p * p <= 0xffff_ffff * 0xffff_ffff) by (nonlinear_arith)
                requires
                    p <= 0xffff_ffff,
            ;
            let mut multiple: u64 = p * p;
            let step: u64 = p * 2;
            let ghost mut q: nat = p as nat;
            let ghost mut bound: nat = (p * p) as nat;
            let mut done = false;
            let ghost before = bits@;
            proof {
                lemma_odd_product(p as nat, p as nat);
                assert(p * p >= 9) by (nonlinear_arith)
                    requires
                        p >= 3,
                ;
            }
            while !done && multiple <= n
                invariant
                    3 <= p <= limit,
                    p % 2 == 1,
                    odd == odd_count(n as nat),
                    bits@.len() == len,
                    odd <= len * word_bits(),
                    step == 2 * p,
                    q % 2 == 1,
                    multiple == p * q,
                    multiple % 2 == 1,
                    multiple >= 9,
                    !done ==> bound == multiple,
                    done ==> bound > n,
                    bound >= p * p,
                    forall|i: int|
                        0 <= i < odd ==> #[trigger] bit_at(bits@, i) == (bit_at(before, i) && !(
                        odd_at(i as nat) % (p as nat) == 0 && p * p <= odd_at(i as nat) && odd_at(
                            i as nat,
                        ) < bound)),
                    forall|i: int| odd <= i < len * word_bits() ==> !#[trigger] bit_at(bits@, i),
                decreases n - multiple, (if done { 0int } else { 1int }),
            {
                let idx = ((multiple - 3) / 2) as usize;
                assert(odd_at(idx as nat) == multiple);
                let ghost prev = bits@;
                bit_clear(bits.as_mut_slice(), idx);
                proof {
                    assert forall|i: int| 0 <= i < odd implies #[trigger] bit_at(bits@, i) == (
                    bit_at(before, i) && !(odd_at(i as nat) % (p as nat) == 0 && p * p <= odd_at(
                        i as nat,
                    ) && odd_at(i as nat) < multiple + step)) by {
                        let v = odd_at(i as nat);
                        if v % (p as nat) == 0 && p * p <= v && multiple <= v && v < multiple
                            + step {
                            lemma_next_odd_multiple(p as nat, q, v);
                        }
                        if i == idx {
                            lemma_multiple_mod(q, p as nat);
                        }
                    }
                    bound = (multiple + step) as nat;
                }
                if n - multiple < step {
                    done = true;
                } else {
                    multiple = multiple + step;
                    proof {
                        q = q + 2;
                        assert(multiple == p * q) by (nonlinear_arith)
                            requires
                                multiple == (p * (q - 2)) + 2 * p,
                        ;
                        lemma_odd_product(p as nat, q);
                    }
                }
            }
            proof {
                assert forall|i: int| 0 <= i < odd implies #[trigger] bit_at(bits@, i)
                    == kept_below(odd_at(i as nat), (p + 2) as nat) by {
                    lemma_kept_below_step(odd_at(i as nat), p as nat);
                }
            }
        } else {
            proof {
                assert forall|i: int| 0 <= i < odd implies #[trigger] bit_at(bits@, i)
                    == kept_below(odd_at(i as nat), (p + 2) as nat) by {
                    lemma_kept_below_composite(odd_at(i as nat), p as nat);
                }
            }
        }
        p = p + 2;
    }
    proof {
        assert forall|i: int| 0 <= i < odd implies #[trigger] bit_at(bits@, i) == sieve_keeps(
            odd_at(i as nat),
            limit as nat,
        ) by {
            lemma_kept_below_done(odd_at(i as nat), p as nat, limit as nat);
        }
    }
}


/// Runs the sieve over `3..=n`, crossing off with the odd numbers up to `limit`,
/// and records how many primes it found and the largest of them.
///
/// The benchmark takes `limit` to be the square root of `n`; with the exact integer
/// square root the counts are those of the primes up to `n`.
pub fn run(data: &mut PrimeSieveData, limit: u64)
    requires
        old(data).wf(),
        limit <= 0x1_0000_0000,
        old(data).upper() >= 3 ==> limit <= old(data).upper(),
    ensures
        final(data).wf(),
        final(data).upper() == old(data).upper(),
        final(data).count() == sieve_count(old(data).upper(), limit as nat),
        final(data).largest() == sieve_largest(old(data).upper(), limit as nat),
        forall|i: int|
            0 <= i < odd_count(old(data).upper()) ==> #[trigger] final(data).marks()[i]
                == sieve_keeps(odd_at(i as nat), limit as nat),
        is_isqrt(old(data).upper(), limit as nat) ==> final(data).count() == prime_count_upto(
            old(data).upper(),
        ) && final(data).largest() == largest_prime_upto(old(data).upper()),
        final(data).bitset().len() == old(data).bitset().len(),
        forall|i: int|
            odd_count(old(data).upper()) <= i < final(data).bitset().len() * word_bits() ==> !#[trigger] bit_at(final(data).bitset(), i),
        is_isqrt(old(data).upper(), limit as nat) ==> forall|i: int|
            0 <= i < odd_count(old(data).upper()) ==> #[trigger] final(data).marks()[i]
                == is_prime(odd_at(i as nat)),
{
    let n = data.n;
    let odd = if n < 3 {
        0
    } else {
        ((n - 3) / 2 + 1) as usize
    };
    reset_bits(&mut data.bits, odd);
    if n >= 2 {
        data.prime_count = 1;
        data.largest_prime = 2;
    } else {
        data.prime_count = 0;
        data.largest_prime = 0;
    }
    proof {
        if is_isqrt(n as nat, limit as nat) {
            lemma_sieve_finds_primes(n as nat, limit as nat);
        }
    }
    if n < 3 {
        return;
    }
    cross_off(&mut data.bits, n, odd, limit);
    proof {
        if is_isqrt(n as nat, limit as nat) {
            assert forall|i: int| 0 <= i < odd implies #[trigger] sieve_keeps(odd_at(i as nat), limit as nat)
                == is_prime(odd_at(i as nat)) by {
                lemma_keeps_iff_prime(odd_at(i as nat), n as nat, limit as nat);
            }
        }
    }
    let ghost base_count: nat = 1;
    let ghost base_largest: nat = 2;
    let mut index: usize = 0;
    while index < odd
        invariant
            3 <= n,
            data.n == n,
            odd == odd_count(n as nat),
            data.bits@.len() == words_for(odd as nat),
            odd <= data.bits@.len() * word_bits(),
            forall|i: int|
                0 <= i < odd ==> #[trigger] bit_at(data.bits@, i) == sieve_keeps(
                    odd_at(i as nat),
                    limit as nat,
                ),
            forall|i: int|
                odd <= i < data.bits@.len() * word_bits() ==> !#[trigger] bit_at(data.bits@, i),
            index <= odd,
            data.prime_count == 1 + kept_count(limit as nat, index as nat),
            data.largest_prime == last_kept(limit as nat, index as nat, 2),
            kept_count(limit as nat, index as nat) <= index,
            odd_count(n as nat) <= usize::MAX,
        decreases odd - index,
    {
        if bit_get(data.bits.as_slice(), index) {
            data.prime_count = data.prime_count + 1;
            data.largest_prime = index as u64 * 2 + 3;
        }
        index = index + 1;
    }
}

/// The upper bound of the sieve.
pub fn upper_bound(data: &PrimeSieveData) -> (r: u64)
    ensures
        r == data.upper(),
{
    data.n
}

/// Number of primes found during the last run.
pub fn len_primes(data: &PrimeSieveData) -> (r: u64)
    ensures
        r == data.count(),
{
    data.prime_count
}

/// Largest prime found during the last run.
pub fn largest_prime(data: &PrimeSieveData) -> (r: u64)
    ensures
        r == data.largest(),
{
    data.largest_prime
}

} // verus!
