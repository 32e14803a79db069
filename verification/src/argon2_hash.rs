//! Password hashing benchmark: Argon2id (version 0x13) over a pseudo-random
//! password and salt, with the memory cost taken from the benchmark size.
use vstd::prelude::*;
use crate::lcg::{lcg_state, LCG_MULTIPLIER};

verus! {

// ---------------------------------------------------------------------------
// Argon2, behind a trusted item
// ---------------------------------------------------------------------------

/// The parameters that `argon2::Params::new` accepts (argon2 0.5): at least 8 KiB and at
/// least 8 KiB per lane of memory, at least one pass, between 1 and `2^24 - 1` lanes,
/// and an output of 4 to `2^32 - 1` bytes.
pub open spec fn params_accepted(m_cost: u32, t_cost: u32, p_cost: u32, output_len: nat) -> bool {
    &&& m_cost >= 8
    &&& m_cost >= p_cost * 8
    &&& t_cost >= 1
    &&& 1 <= p_cost <= 0xFF_FFFF
    &&& 4 <= output_len <= 0xFFFF_FFFF
}

/// The inputs that `argon2::Argon2::hash_password_into` accepts besides valid parameters:
/// a password of at most `2^32 - 1` bytes and a salt of 8 to `2^32 - 1` bytes.
pub open spec fn inputs_accepted(password_len: nat, salt_len: nat) -> bool {
    password_len <= 0xFFFF_FFFF && 8 <= salt_len <= 0xFFFF_FFFF
}

/// The Argon2id (version 0x13) hash of `password` with `salt` under the given costs,
/// `output_len` bytes long.
pub uninterp spec fn argon2id_digest(
    m_cost: u32,
    t_cost: u32,
    p_cost: u32,
    password: Seq<u8>,
    salt: Seq<u8>,
    output_len: nat,
) -> Seq<u8>;

/// Builds `argon2::Params::new(m_cost, t_cost, p_cost, Some(output_len))`, then
/// `argon2::Argon2::new(Argon2id, V0x13, params)`, and calls its `hash_password_into`.
/// Claimed of that code: it succeeds exactly when the parameters are accepted, `out` is
/// `output_len` bytes long and password and salt have accepted lengths; on success
/// `out` holds the hash, otherwise `out` is untouched (every check comes before the
/// first write). It allocates about `m_cost` KiB of memory blocks; `requires` keeps
/// that size within `isize`, where the allocation would panic.
#[verifier::external_body]
fn argon2id_hash_into(
    m_cost: u32,
    t_cost: u32,
    p_cost: u32,
    output_len: usize,
    password: &[u8],
    salt: &[u8],
    out: &mut [u8; 32],
) -> (ok: bool)
    requires
        p_cost <= 0x1FFF_FFFF,
        m_cost * 1024 <= isize::MAX,
    ensures
        ok == (params_accepted(m_cost, t_cost, p_cost, output_len as nat) && old(out)@.len()
            == output_len && inputs_accepted(password@.len(), salt@.len())),
        ok ==> final(out)@ == argon2id_digest(m_cost, t_cost, p_cost, password@, salt@, output_len as nat),
        !ok ==> final(out)@ == old(out)@,
{
    match argon2::Params::new(m_cost, t_cost, p_cost, Some(output_len)) {
        Ok(params) => argon2::Argon2::new(argon2::Algorithm::Argon2id, argon2::Version::V0x13, params)
            .hash_password_into(password, salt, out.as_mut_slice())
            .is_ok(),
        Err(_) => false,
    }
}

// ---------------------------------------------------------------------------
// The benchmark
// ---------------------------------------------------------------------------

/// Flips the bits of the size to seed the salt's generator.
pub const SALT_SEED_MASK: u64 = 0x9e3779b97f4a7c15;

/// Number of passes.
pub const T_COST: u32 = 3;

/// Number of lanes.
pub const P_COST: u32 = 1;

/// Length of the digest in bytes.
pub const OUTPUT_LEN: usize = 32;

/// The bytes that `fill_lcg` writes: byte `i` is bits 32..40 of the generator's state
/// after `i + 1` steps.
pub open spec fn lcg_bytes(seed: u64, len: nat) -> Seq<u8> {
    Seq::new(len, |i: int| (lcg_state(seed, 1, (i + 1) as nat) >> 32u64) as u8)
}

/// Fills `buf` from the generator with increment 1 seeded with `state`.
pub fn fill_lcg(buf: &mut [u8], state: u64)
    ensures
        final(buf)@ == lcg_bytes(state, old(buf)@.len()),
{
    let mut s = state;
    let n = buf.len();
    let mut i: usize = 0;
    while i < n
        invariant
            n == buf@.len(),
            i <= n,
            s == lcg_state(state, 1, i as nat),
            forall|j: int| 0 <= j < i ==> buf@[j] == lcg_bytes(state, n as nat)[j],
        decreases n - i,
    {
        s = s.wrapping_mul(LCG_MULTIPLIER).wrapping_add(1);
        buf[i] = (s >> 32u64) as u8;
        i = i + 1;
    }
    proof {
        assert(buf@ =~= lcg_bytes(state, n as nat));
    }
}

/// The cost parameters of the hash, as plain values.
pub struct Argon2Params {
    pub m_cost: u32,
    pub t_cost: u32,
    pub p_cost: u32,
    pub output_len: usize,
}

/// State of the benchmark.
pub struct Data {
    password: Vec<u8>,
    salt: Vec<u8>,
    digest: [u8; 32],
    params: Argon2Params,
}

impl Data {
    /// The parameters are accepted, the digest has their output length and the password
    /// and salt have accepted lengths.
    pub closed spec fn wf(&self) -> bool {
        &&& params_accepted(
            self.params.m_cost,
            self.params.t_cost,
            self.params.p_cost,
            self.params.output_len as nat,
        )
        &&& self.params.p_cost <= 0x1FFF_FFFF
        &&& self.params.output_len == 32
        &&& inputs_accepted(self.password@.len(), self.salt@.len())
    }

    pub closed spec fn password_bytes(&self) -> Seq<u8> {
        self.password@
    }

    pub closed spec fn salt_bytes(&self) -> Seq<u8> {
        self.salt@
    }

    pub closed spec fn digest_bytes(&self) -> Seq<u8> {
        self.digest@
    }

    pub closed spec fn costs(&self) -> (u32, u32, u32) {
        (self.params.m_cost, self.params.t_cost, self.params.p_cost)
    }

    /// The memory cost in KiB.
    pub fn memory_cost(&self) -> (r: u32)
        ensures
            r == self.costs().0,
    {
        self.params.m_cost
    }
}

/// Builds the benchmark state: a 32-byte password from the generator seeded with
/// `size`, a 16-byte salt from the generator seeded with `size ^ SALT_SEED_MASK`, and a
/// memory cost of `size` KiB (truncated to 32 bits), 3 passes, 1 lane, a 32-byte digest.
pub fn setup(size: usize) -> (r: Box<Data>)
    requires
        params_accepted(size as u32, T_COST, P_COST, OUTPUT_LEN as nat),
    ensures
        r.wf(),
        r.password_bytes() == lcg_bytes(size as u64, 32),
        r.salt_bytes() == lcg_bytes((size as u64) ^ SALT_SEED_MASK, 16),
        r.digest_bytes() == Seq::new(32, |i: int| 0u8),
        r.costs() == (size as u32, T_COST, P_COST),
{
    let mut password = vec![0u8; 32];
    let mut salt = vec![0u8; 16];
    fill_lcg(password.as_mut_slice(), size as u64);
    fill_lcg(salt.as_mut_slice(), (size as u64) ^ SALT_SEED_MASK);
    let params = Argon2Params {
        m_cost: size as u32,
        t_cost: T_COST,
        p_cost: P_COST,
        output_len: OUTPUT_LEN,
    };
    let r = Box::new(Data { password, salt, digest: [0u8; 32], params });
    proof {
        assert(r.digest@ =~= Seq::new(32, |i: int| 0u8));
    }
    r
}

/// Hashes the password with the salt into the digest.
pub fn run(data: &mut Data)
    requires
        old(data).wf(),
        old(data).costs().0 * 1024 <= isize::MAX,
    ensures
        final(data).wf(),
        final(data).password_bytes() == old(data).password_bytes(),
        final(data).salt_bytes() == old(data).salt_bytes(),
        final(data).costs() == old(data).costs(),
        final(data).digest_bytes() == argon2id_digest(
            old(data).costs().0,
            old(data).costs().1,
            old(data).costs().2,
            old(data).password_bytes(),
            old(data).salt_bytes(),
            32,
        ),
{
    let ok = argon2id_hash_into(
        data.params.m_cost,
        data.params.t_cost,
        data.params.p_cost,
        data.params.output_len,
        data.password.as_slice(),
        data.salt.as_slice(),
        &mut data.digest,
    );
    assert(ok);
}

/// The value of `s` read as a big-endian number.
pub open spec fn be_value(s: Seq<u8>) -> nat
    decreases s.len(),
{
    if s.len() == 0 {
        0
    } else {
        be_value(s.drop_last()) * 256 + s.last() as nat
    }
}

/// `256^k`.
pub open spec fn pow256(k: nat) -> nat
    decreases k,
{
    if k == 0 {
        1
    } else {
        256 * pow256((k - 1) as nat)
    }
}

proof fn lemma_be_value_bound(s: Seq<u8>)
    ensures
        be_value(s) < pow256(s.len()),
    decreases s.len(),
{
    if s.len() > 0 {
        lemma_be_value_bound(s.drop_last());
        let a = be_value(s.drop_last());
        let p = pow256((s.len() - 1) as nat);
        assert(a * 256 + s.last() < 256 * p) by (nonlinear_arith)
            requires
                a < p,
                s.last() < 256,
        ;
    }
}

proof fn lemma_pow256_monotone(a: nat, b: nat)
    requires
        a <= b,
    ensures
        pow256(a) <= pow256(b),
    decreases b,
{
    if a < b {
        lemma_pow256_monotone(a, (b - 1) as nat);
    }
}

/// The first 8 bytes of the digest, read as a big-endian number.
pub fn output(data: &Data) -> (r: u64)
    ensures
        r == be_value(data.digest_bytes().take(8)),
{
    let mut acc: u64 = 0;
    let mut i: usize = 0;
    proof {
        reveal_with_fuel(pow256, 9);
    }
    while i < 8
        invariant
            i <= 8,
            data.digest@.len() == 32,
            acc == be_value(data.digest@.take(i as int)),
            pow256(8) == 0x1_0000_0000_0000_0000,
        decreases 8 - i,
    {
        proof {
            lemma_be_value_bound(data.digest@.take(i + 1));
            assert(data.digest@.take(i + 1).drop_last() =~= data.digest@.take(i as int));
            lemma_pow256_monotone((i + 1) as nat, 8);
        }
        acc = acc * 256 + data.digest[i] as u64;
        i = i + 1;
    }
    acc
}

} // verus!
