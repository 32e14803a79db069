//! Hash map benchmark: a `hashbrown` map from `u64` to `u64`, filled and then
//! exercised by a stream of lookups and inserts drawn from a generator.
use vstd::prelude::*;
use crate::lcg::{lcg_step, lcg_state, LCG_MULTIPLIER};

verus! {

// ---------------------------------------------------------------------------
// The map, behind trusted items
// ---------------------------------------------------------------------------

#[verifier::external_type_specification]
#[verifier::external_body]
pub struct ExRandomState(foldhash::fast::RandomState);

/// Calls `<foldhash::fast::RandomState as Default>::default`, which draws a
/// random seed; nothing is promised of the result.
#[verifier::external_body]
pub(crate) fn new_random_state() -> foldhash::fast::RandomState {
    foldhash::fast::RandomState::default()
}

/// A `hashbrown::HashMap<u64, u64>` hashed with a randomly seeded `foldhash` builder.
#[verifier::external_body]
pub struct U64Map {
    inner: hashbrown::HashMap<u64, u64, foldhash::fast::RandomState>,
}

/// The key-value pairs that a `U64Map` holds.
pub uninterp spec fn u64_map_contents(m: U64Map) -> Map<u64, u64>;

/// A size below which the map's allocations cannot overflow `isize`.
pub open spec fn map_size_limit() -> nat {
    (isize::MAX as nat) / 64
}

impl U64Map {
    /// The key-value pairs in the map.
    pub open spec fn contents(&self) -> Map<u64, u64> {
        u64_map_contents(*self)
    }

    /// Calls `hashbrown::HashMap::with_capacity_and_hasher`: the new map is empty.
    #[verifier::external_body]
    fn with_capacity_and_hasher(capacity: usize, hasher: foldhash::fast::RandomState) -> (r: U64Map)
        requires
            capacity <= map_size_limit(),
        ensures
            u64_map_contents(r) =~= Map::empty(),
    {
        U64Map { inner: hashbrown::HashMap::with_capacity_and_hasher(capacity, hasher) }
    }

    /// Calls `hashbrown::HashMap::insert`: afterwards `key` maps to `value`, every other
    /// key is unchanged, and the result is the value `key` had before, if any.
    #[verifier::external_body]
    fn insert(&mut self, key: u64, value: u64) -> (r: Option<u64>)
        requires
            u64_map_contents(*old(self)).len() < map_size_limit(),
            u64_map_contents(*old(self)).dom().finite(),
        ensures
            u64_map_contents(*final(self)) == u64_map_contents(*old(self)).insert(key, value),
            r == u64_map_contents(*old(self)).get(key),
    {
        self.inner.insert(key, value)
    }

    /// Calls `hashbrown::HashMap::len`: the number of pairs.
    #[verifier::external_body]
    fn len(&self) -> (r: usize)
        ensures
            r == u64_map_contents(*self).len(),
    {
        self.inner.len()
    }

    /// Calls `hashbrown::HashMap::get`: the value stored under `key`, if any.
    #[verifier::external_body]
    fn get(&self, key: u64) -> (r: Option<u64>)
        ensures
            r == u64_map_contents(*self).get(key),
    {
        self.inner.get(&key).copied()
    }

    /// Calls `hashbrown::HashMap::iter` and copies out each pair. The order in which
    /// the pairs come depends on the random seed of the hasher and is left unsaid:
    /// every pair of the map comes exactly once.
    #[verifier::external_body]
    fn entries(&self) -> (r: Vec<(u64, u64)>)
        ensures
            lists_entries(r@, u64_map_contents(*self)),
    {
        self.inner.iter().map(|(k, v)| (*k, *v)).collect()
    }
}

/// `s` lists every entry of `m` exactly once, in some order.
pub open spec fn lists_entries(s: Seq<(u64, u64)>, m: Map<u64, u64>) -> bool {
    &&& forall|i: int| 0 <= i < s.len() ==> #[trigger] m.dom().contains(s[i].0) && m[s[i].0] == s[i].1
    &&& forall|k: u64| m.dom().contains(k) ==> exists|i: int| 0 <= i < s.len() && #[trigger] s[i].0 == k
    &&& forall|i: int, j: int| 0 <= i < j < s.len() ==> s[i].0 != s[j].0
}


// ---------------------------------------------------------------------------
// The benchmark
// ---------------------------------------------------------------------------

/// Increment of the generator that drives this benchmark (Numerical Recipes).
pub const LCG_INCREMENT: u64 = 1442695040888963407;

/// Key looked up to miss: a drawn key with these bits flipped.
pub const MISS_MASK: u64 = 0x9e3779b97f4a7c15;

/// The state of this benchmark's generator after `k` steps from `seed`.
pub open spec fn gen_state(seed: u64, k: nat) -> u64 {
    lcg_state(seed, LCG_INCREMENT, k)
}

/// Advances the generator and returns its new state.
pub fn lcg(state: &mut u64) -> (r: u64)
    ensures
        *final(state) == lcg_step(*old(state), LCG_INCREMENT),
        r == *final(state),
{
    *state = state.wrapping_mul(LCG_MULTIPLIER).wrapping_add(LCG_INCREMENT);
    *state
}

/// The map that `setup` fills: `count` pairs, the `i`-th drawn as key then value.
pub open spec fn filled_map(seed: u64, count: nat) -> Map<u64, u64>
    decreases count,
{
    if count == 0 {
        Map::empty()
    } else {
        filled_map(seed, (count - 1) as nat).insert(
            gen_state(seed, (2 * count - 1) as nat),
            gen_state(seed, (2 * count) as nat),
        )
    }
}

/// One operation of the benchmark on the map `m`, with the generator in state `s`:
/// the new map and the new state.
pub open spec fn op_step(m: Map<u64, u64>, s: u64) -> (Map<u64, u64>, u64) {
    let s1 = lcg_step(s, LCG_INCREMENT);
    let s2 = lcg_step(s1, LCG_INCREMENT);
    if s1 % 4 == 2 {
        let s3 = lcg_step(s2, LCG_INCREMENT);
        (m.insert(s2, s3), s3)
    } else {
        (m, s2)
    }
}

/// `k` operations of the benchmark from map `m` and generator state `s`.
pub open spec fn run_ops(m: Map<u64, u64>, s: u64, k: nat) -> (Map<u64, u64>, u64)
    decreases k,
{
    if k == 0 {
        (m, s)
    } else {
        let prev = run_ops(m, s, (k - 1) as nat);
        op_step(prev.0, prev.1)
    }
}

/// The pairs that `k` operations from state `s` insert, the later insert of a key winning.
pub open spec fn inserted_by(s: u64, k: nat) -> Map<u64, u64> {
    run_ops(Map::empty(), s, k).0
}

/// Running the operations on `m` gives `m` overwritten by what the operations insert.
pub proof fn lemma_run_ops_overwrites(m: Map<u64, u64>, s: u64, k: nat)
    ensures
        run_ops(m, s, k).0 == m.union_prefer_right(inserted_by(s, k)),
        run_ops(m, s, k).1 == run_ops(Map::empty(), s, k).1,
    decreases k,
{
    if k > 0 {
        lemma_run_ops_overwrites(m, s, (k - 1) as nat);
        let prev = run_ops(m, s, (k - 1) as nat);
        let prev_e = run_ops(Map::empty(), s, (k - 1) as nat);
        let s1 = lcg_step(prev.1, LCG_INCREMENT);
        let s2 = lcg_step(s1, LCG_INCREMENT);
        if s1 % 4 == 2 {
            let s3 = lcg_step(s2, LCG_INCREMENT);
            assert(prev.0.insert(s2, s3) =~= m.union_prefer_right(prev_e.0.insert(s2, s3)));
        }
    }
}

/// A run of the benchmark is idempotent: running it a second time from the same seed
/// leaves the map as the first run left it.
pub proof fn lemma_run_ops_idempotent(m: Map<u64, u64>, s: u64, k: nat)
    ensures
        run_ops(run_ops(m, s, k).0, s, k).0 == run_ops(m, s, k).0,
{
    lemma_run_ops_overwrites(m, s, k);
    lemma_run_ops_overwrites(run_ops(m, s, k).0, s, k);
    assert(m.union_prefer_right(inserted_by(s, k)).union_prefer_right(inserted_by(s, k))
        =~= m.union_prefer_right(inserted_by(s, k)));
}


/// Rotates `x` left by 7 bits.
pub open spec fn rotl7(x: u64) -> u64 {
    (x << 7u64) | (x >> 57u64)
}

/// The checksum that `result` folds over the entries `s`, in the order given.
pub open spec fn checksum_of(s: Seq<(u64, u64)>) -> u64
    decreases s.len(),
{
    if s.len() == 0 {
        0
    } else {
        rotl7(checksum_of(s.drop_last()).wrapping_add(s.last().0 ^ s.last().1))
    }
}

/// Folds the entries in the order given: add `key ^ value` (wrapping), then rotate
/// left by 7 bits.
pub fn checksum(entries: &Vec<(u64, u64)>) -> (r: u64)
    ensures
        r == checksum_of(entries@),
{
    let mut acc: u64 = 0;
    let mut i: usize = 0;
    while i < entries.len()
        invariant
            i <= entries@.len(),
            acc == checksum_of(entries@.take(i as int)),
        decreases entries@.len() - i,
    {
        let (k, v) = entries[i];
        let sum = acc.wrapping_add(k ^ v);
        acc = (sum << 7u64) | (sum >> 57u64);
        proof {
            assert(entries@.take(i + 1).drop_last() =~= entries@.take(i as int));
        }
        i = i + 1;
    }
    proof {
        assert(entries@.take(i as int) =~= entries@);
    }
    acc
}

/// State of the hash map benchmark.
pub struct Data {
    map: U64Map,
    len_iterations: usize,
    seed: u64,
}

impl Data {
    /// The map holds finitely many pairs.
    pub closed spec fn wf(&self) -> bool {
        self.map.contents().dom().finite()
    }

    /// The pairs in the map.
    pub closed spec fn contents(&self) -> Map<u64, u64> {
        self.map.contents()
    }

    /// The seed of the operations' generator.
    pub closed spec fn seed_value(&self) -> u64 {
        self.seed
    }

    /// The number of operations per run.
    pub closed spec fn iterations(&self) -> nat {
        self.len_iterations as nat
    }

    pub fn seed(&self) -> (r: u64)
        ensures
            r == self.seed_value(),
    {
        self.seed
    }

    /// Number of pairs in the map.
    pub fn map_len(&self) -> (r: usize)
        ensures
            r == self.contents().len(),
    {
        self.map.len()
    }

    pub fn len_iterations(&self) -> (r: usize)
        ensures
            r == self.iterations(),
    {
        self.len_iterations
    }
}

/// Creates the map with room for `2 * size` pairs and fills it with `max(size, 1)`
/// pairs drawn from the generator seeded with `size`.
pub fn setup(size: usize) -> (r: Box<Data>)
    requires
        size <= map_size_limit() / 2,
    ensures
        r.wf(),
        r.seed_value() == size as u64,
        r.iterations() == (if size >= 1 { size as nat } else { 1nat }),
        r.contents() == filled_map(size as u64, r.iterations()),
        r.contents().len() <= r.iterations(),
{
    let seed = size as u64;
    let mut state = seed;
    let mut map = U64Map::with_capacity_and_hasher(size * 2, new_random_state());
    let len_iterations = if size >= 1 {
        size
    } else {
        1
    };
    let len = len_iterations;
    let mut i: usize = 0;
    while i < len
        invariant
            i <= len,
            len <= map_size_limit() / 2 + 1,
            state == gen_state(seed, 2 * i as nat),
            map.contents() == filled_map(seed, i as nat),
            map.contents().dom().finite(),
            map.contents().len() <= i,
        decreases len - i,
    {
        let k = lcg(&mut state);
        let v = lcg(&mut state);
        map.insert(k, v);
        i = i + 1;
        proof {
            assert(gen_state(seed, (2 * i - 1) as nat) == k);
            assert(gen_state(seed, 2 * i as nat) == v);
        }
    }
    Box::new(Data { map, seed, len_iterations })
}

/// Runs `len_iterations` operations with the generator seeded anew from `seed`:
/// a quarter of them insert a drawn pair; the others look up a drawn key, or a drawn
/// key with some bits flipped.
pub fn run(data: &mut Data)
    requires
        old(data).wf(),
        old(data).contents().len() + old(data).iterations() < map_size_limit(),
    ensures
        final(data).wf(),
        final(data).seed_value() == old(data).seed_value(),
        final(data).iterations() == old(data).iterations(),
        final(data).contents() == run_ops(
            old(data).contents(),
            old(data).seed_value(),
            old(data).iterations(),
        ).0,
        final(data).contents() == old(data).contents().union_prefer_right(
            inserted_by(old(data).seed_value(), old(data).iterations()),
        ),
{
    let ghost m0 = data.map.contents();
    let seed = data.seed();
    let mut state = seed;
    let n = data.len_iterations();
    let mut i: usize = 0;
    while i < n
        invariant
            i <= n,
            n == data.len_iterations,
            seed == data.seed,
            m0.dom().finite(),
            m0.len() + n < map_size_limit(),
            data.map.contents().dom().finite(),
            data.map.contents().len() <= m0.len() + i,
            (data.map.contents(), state) == run_ops(m0, seed, i as nat),
        decreases n - i,
    {
        let op = lcg(&mut state) % 4;
        let key = lcg(&mut state);
        if op == 0 || op == 1 {
            let _ = data.map.get(key);
        } else if op == 2 {
            let value = lcg(&mut state);
            data.map.insert(key, value);
        } else {
            let missing_key = key ^ MISS_MASK;
            let _ = data.map.get(missing_key);
        }
        i = i + 1;
    }
    proof {
        lemma_run_ops_overwrites(m0, seed, n as nat);
    }
}

/// Folds the map's entries, in the order the map hands them out, into a checksum.
/// That order depends on the hasher's random seed: the result is the checksum of
/// the entries listed in some order, each exactly once.
pub fn result(data: &Data) -> (r: u64)
    ensures
        exists|s: Seq<(u64, u64)>| lists_entries(s, data.contents()) && r == checksum_of(s),
{
    let entries = data.map.entries();
    checksum(&entries)
}


// ---------------------------------------------------------------------------
// Laws over the generator draws
// ---------------------------------------------------------------------------

/// One operation, in terms of the generator's draws from state `s`: when the first draw
/// is 2 modulo 4, the second draw becomes a key mapped to the third draw and the state
/// moves on by three draws; otherwise the map is unchanged and the state moves on by
/// two draws (a lookup).
pub proof fn lemma_operation_draws(m: Map<u64, u64>, s: u64)
    ensures
        lcg_step(s, LCG_INCREMENT) % 4 == 2 ==> op_step(m, s) == (
            m.insert(
                lcg_step(lcg_step(s, LCG_INCREMENT), LCG_INCREMENT),
                lcg_step(lcg_step(lcg_step(s, LCG_INCREMENT), LCG_INCREMENT), LCG_INCREMENT),
            ),
            lcg_step(lcg_step(lcg_step(s, LCG_INCREMENT), LCG_INCREMENT), LCG_INCREMENT),
        ),
        lcg_step(s, LCG_INCREMENT) % 4 != 2 ==> op_step(m, s) == (
            m,
            lcg_step(lcg_step(s, LCG_INCREMENT), LCG_INCREMENT),
        ),
{
}

/// A run is its operations one after the other, each starting where the last one left
/// the map and the generator.
pub proof fn lemma_run_ops_steps(m: Map<u64, u64>, s: u64, k: nat)
    ensures
        run_ops(m, s, 0) == (m, s),
        run_ops(m, s, k + 1) == op_step(run_ops(m, s, k).0, run_ops(m, s, k).1),
{
}

/// What `setup` fills in, over the generator's draws: pair `i` maps draw `2i + 1` to
/// draw `2i + 2`; every such key is in the map, and each key holds the value of the
/// last pair that drew it.
pub proof fn lemma_filled_map_draws(seed: u64, count: nat)
    ensures
        forall|i: nat| i < count ==> #[trigger] filled_map(seed, count).dom().contains(gen_state(seed, 2 * i + 1)),
        forall|k: u64| #[trigger] filled_map(seed, count).dom().contains(k) ==> exists|i: nat| {
            &&& i < count
            &&& #[trigger] gen_state(seed, 2 * i + 1) == k
            &&& filled_map(seed, count)[k] == gen_state(seed, 2 * i + 2)
            &&& forall|j: nat| i < j < count ==> #[trigger] gen_state(seed, 2 * j + 1) != k
        },
        filled_map(seed, count).dom().finite(),
        filled_map(seed, count).len() <= count,
    decreases count,
{
    if count > 0 {
        let c = (count - 1) as nat;
        lemma_filled_map_draws(seed, c);
        let prev = filled_map(seed, c);
        let key = gen_state(seed, 2 * c + 1);
        let val = gen_state(seed, 2 * c + 2);
        assert((2 * count - 1) as nat == 2 * c + 1);
        assert((2 * count) as nat == 2 * c + 2);
        assert(filled_map(seed, count) == prev.insert(key, val));
        assert forall|i: nat| i < count implies #[trigger] filled_map(seed, count).dom().contains(
            gen_state(seed, 2 * i + 1),
        ) by {
            if i < c {
                assert(prev.dom().contains(gen_state(seed, 2 * i + 1)));
            }
        }
        assert forall|k: u64| #[trigger] filled_map(seed, count).dom().contains(k) implies exists|
            i: nat,
        | {
            &&& i < count
            &&& #[trigger] gen_state(seed, 2 * i + 1) == k
            &&& filled_map(seed, count)[k] == gen_state(seed, 2 * i + 2)
            &&& forall|j: nat| i < j < count ==> #[trigger] gen_state(seed, 2 * j + 1) != k
        } by {
            if k == key {
                assert(gen_state(seed, 2 * c + 1) == k);
            } else {
                assert(prev.dom().contains(k));
                let i = choose|i: nat| {
                    &&& i < c
                    &&& #[trigger] gen_state(seed, 2 * i + 1) == k
                    &&& prev[k] == gen_state(seed, 2 * i + 2)
                    &&& forall|j: nat| i < j < c ==> #[trigger] gen_state(seed, 2 * j + 1) != k
                };
                assert forall|j: nat| i < j < count implies #[trigger] gen_state(seed, 2 * j + 1) != k by {
                    if j == c {
                    }
                }
            }
        }
    }
}

/// The checksum folds the entries from the first on: none gives 0, and one more entry
/// `(k, v)` adds `k ^ v` (wrapping) to the checksum so far and rotates the sum left by
/// 7 bits.
pub proof fn lemma_checksum_fold(s: Seq<(u64, u64)>, k: u64, v: u64)
    ensures
        checksum_of(Seq::empty()) == 0,
        checksum_of(s.push((k, v))) == (checksum_of(s).wrapping_add(k ^ v) << 7u64) | (
        checksum_of(s).wrapping_add(k ^ v) >> 57u64),
{
    assert(s.push((k, v)).drop_last() =~= s);
}

} // verus!
