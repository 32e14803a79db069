//! Compression benchmark: raw deflate of an input buffer into a pre-sized output
//! buffer with `miniz_oxide`'s compressor, reused (reset, not reallocated) on
//! every run.
use vstd::prelude::*;
use miniz_oxide::deflate;

verus! {

// ---------------------------------------------------------------------------
// The compressor, behind trusted items
// ---------------------------------------------------------------------------

#[verifier::external_type_specification]
#[verifier::external_body]
pub struct ExCompressorOxide(miniz_oxide::deflate::core::CompressorOxide);

/// `NUM_PROBES`: the number of match probes for each level 0 to 10.
pub open spec fn num_probes(level: int) -> u32 {
    if level == 0 {
        0
    } else if level == 1 {
        1
    } else if level == 2 {
        6
    } else if level == 3 {
        32
    } else if level == 4 {
        16
    } else if level == 5 {
        32
    } else if level == 6 {
        128
    } else if level == 7 {
        256
    } else if level == 8 {
        512
    } else if level == 9 {
        768
    } else {
        1500
    }
}

/// The flags that `create_comp_flags_from_zip_params` computes from a zlib level,
/// window bits and strategy: the probe count of the level (negative levels count as
/// 6, levels above 10 as 10), greedy parsing up to level 3, a zlib header for positive
/// window bits, raw blocks only at level 0, and the strategy's flag otherwise.
pub open spec fn zip_params_flags(level: i32, window_bits: i32, strategy: i32) -> u32 {
    let index = if level >= 0 {
        if level < 10 { level as int } else { 10int }
    } else {
        6int
    };
    let greedy: u32 = if level <= 3 { 0x4000 } else { 0 };
    let probes = num_probes(index) | greedy;
    let flags = if window_bits > 0 { probes | 0x1000 } else { probes };
    if level == 0 {
        flags | 0x8_0000
    } else if strategy == 1 {
        flags | 0x2_0000
    } else if strategy == 2 {
        flags & !0xFFFu32
    } else if strategy == 4 {
        flags | 0x4_0000
    } else if strategy == 3 {
        flags | 0x1_0000
    } else {
        flags
    }
}

/// Calls `miniz_oxide::deflate::core::create_comp_flags_from_zip_params`.
#[verifier::external_body]
fn comp_flags_from_zip_params(level: i32, window_bits: i32, strategy: i32) -> (r: u32)
    ensures
        r == zip_params_flags(level, window_bits, strategy),
{
    deflate::core::create_comp_flags_from_zip_params(level, window_bits, strategy)
}

/// The flags a compressor was made with; `reset` keeps them.
pub uninterp spec fn compressor_flags(c: deflate::core::CompressorOxide) -> u32;

/// The raw deflate stream (RFC 1951, no zlib header unless the flags ask for one) that
/// a freshly made or reset compressor with `flags` produces for all of `input` when
/// told to finish.
pub uninterp spec fn deflate_stream(flags: u32, input: Seq<u8>) -> Seq<u8>;

/// Calls `miniz_oxide::deflate::core::CompressorOxide::new`: a compressor with `flags`.
#[verifier::external_body]
fn new_compressor(flags: u32) -> (r: deflate::core::CompressorOxide)
    ensures
        compressor_flags(r) == flags,
{
    deflate::core::CompressorOxide::new(flags)
}

/// The status that `compress` reports.
#[derive(PartialEq, Eq, Structural, Clone, Copy, Debug)]
pub enum DeflateStatus {
    /// Usage error.
    BadParam,
    /// The output did not fit into the output buffer.
    PutBufFailed,
    /// Compression succeeded and more input can follow.
    Okay,
    /// Compression succeeded and the deflate stream was ended.
    Done,
}

/// Calls `CompressorOxide::reset`, which rebuilds every part of the state but the
/// flags, then `miniz_oxide::deflate::core::compress` with `TDEFLFlush::Finish`.
/// Claimed: the returned positions lie within the buffers and the output buffer keeps
/// its length; the stream ends (`Done`) exactly when the whole deflate stream of the
/// input fits into the output buffer, and then all input is consumed and the output
/// starts with that stream. What is written when it does not fit is left unsaid.
#[verifier::external_body]
fn reset_and_compress(
    compressor: &mut deflate::core::CompressorOxide,
    input: &[u8],
    output: &mut [u8],
) -> (r: (DeflateStatus, usize, usize))
    ensures
        compressor_flags(*final(compressor)) == compressor_flags(*old(compressor)),
        final(output)@.len() == old(output)@.len(),
        r.1 <= input@.len(),
        r.2 <= old(output)@.len(),
        (r.0 == DeflateStatus::Done) == (deflate_stream(compressor_flags(*old(compressor)), input@).len() <= old(output)@.len()),
        r.0 == DeflateStatus::Done ==> r.1 == input@.len() && r.2 == deflate_stream(compressor_flags(*old(compressor)), input@).len() && final(output)@.take(r.2 as int) == deflate_stream(compressor_flags(*old(compressor)), input@),
{
    compressor.reset();
    let flush = deflate::core::TDEFLFlush::Finish;
    let (status, consumed, written) = deflate::core::compress(compressor, input, output, flush);
    let status = match status {
        deflate::core::TDEFLStatus::BadParam => DeflateStatus::BadParam,
        deflate::core::TDEFLStatus::PutBufFailed => DeflateStatus::PutBufFailed,
        deflate::core::TDEFLStatus::Okay => DeflateStatus::Okay,
        deflate::core::TDEFLStatus::Done => DeflateStatus::Done,
    };
    (status, consumed, written)
}

// ---------------------------------------------------------------------------
// The benchmark
// ---------------------------------------------------------------------------

/// Compression level (zlib scale).
pub const LEVEL: i32 = 6;

/// State of the compression benchmark.
pub struct Data {
    /// The uncompressed input.
    input: Vec<u8>,
    /// The compressed output, pre-sized so that a run never has to grow it.
    output: Vec<u8>,
    /// Reusable compressor state, reset on every run.
    compressor: deflate::core::CompressorOxide,
    /// Number of bytes written to `output` by the most recent run.
    compressed_len: usize,
}

/// Output capacity for `size` input bytes, chosen above the few bytes of block overhead
/// per 64 KiB by which deflate expands incompressible data. The contracts do not rest on
/// that choice: `run` reports `Done` exactly when the stream fits.
pub open spec fn output_capacity(size: nat) -> nat {
    size + size / 16 + 64
}

impl Data {
    pub closed spec fn input_bytes(&self) -> Seq<u8> {
        self.input@
    }

    pub closed spec fn output_len(&self) -> nat {
        self.output@.len()
    }

    pub closed spec fn written(&self) -> nat {
        self.compressed_len as nat
    }

    /// The output buffer.
    pub closed spec fn output_bytes(&self) -> Seq<u8> {
        self.output@
    }

    /// The flags the compressor was made with.
    pub closed spec fn flags(&self) -> u32 {
        compressor_flags(self.compressor)
    }

    /// The last run wrote no more than the output buffer holds.
    pub closed spec fn wf(&self) -> bool {
        self.compressed_len <= self.output@.len()
    }

    /// The input buffer, for the host to fill.
    pub fn input(&mut self) -> (r: &mut [u8])
        ensures
            r@ == old(self).input_bytes(),
            final(self).input_bytes() == final(r)@,
            final(self).output_len() == old(self).output_len(),
            final(self).output_bytes() == old(self).output_bytes(),
            final(self).written() == old(self).written(),
            final(self).flags() == old(self).flags(),
            final(self).wf() == old(self).wf(),
    {
        self.input.as_mut_slice()
    }

    /// Number of bytes the last run wrote to the output buffer.
    pub fn bytes_written(&self) -> (r: usize)
        ensures
            r == self.written(),
    {
        self.compressed_len
    }

    /// The input buffer, for reading.
    pub fn input_slice(&self) -> (r: &[u8])
        ensures
            r@ == self.input_bytes(),
    {
        self.input.as_slice()
    }

    /// How many bytes compression saved in the last run.
    pub fn len_compressed(&self) -> (r: usize)
        requires
            self.written() <= self.input_bytes().len(),
        ensures
            r == self.input_bytes().len() - self.written(),
    {
        self.input.len() - self.compressed_len
    }
}

/// Allocates a zeroed input of `size` bytes, an output of `size + size / 16 + 64`
/// bytes and a compressor at level 6 producing a raw deflate stream.
pub fn setup(size: usize) -> (r: Box<Data>)
    requires
        output_capacity(size as nat) <= usize::MAX,
    ensures
        r.wf(),
        r.flags() == zip_params_flags(LEVEL, 0, 0),
        r.flags() == 128,
        r.input_bytes() == Seq::new(size as nat, |i: int| 0u8),
        r.output_len() == output_capacity(size as nat),
        r.written() == 0,
{
    let capacity = size + size / 16 + 64;
    let flags = comp_flags_from_zip_params(LEVEL, 0, 0);
    let r = Box::new(
        Data {
            input: vec![0u8; size],
            output: vec![0u8; capacity],
            compressor: new_compressor(flags),
            compressed_len: 0,
        },
    );
    proof {
        assert(r.input@ =~= Seq::new(size as nat, |i: int| 0u8));
        assert(128u32 | 0u32 == 128u32) by (bit_vector);
    }
    r
}

/// Records what a call of the compressor reported, `(status, consumed, written)`:
/// the number of bytes written becomes the compressed length, and the status is
/// handed back. The buffers are left as they are.
pub fn record_run(data: &mut Data, reported: (DeflateStatus, usize, usize)) -> (status: DeflateStatus)
    requires
        reported.2 <= old(data).output_len(),
    ensures
        status == reported.0,
        final(data).written() == reported.2,
        final(data).wf(),
        final(data).input_bytes() == old(data).input_bytes(),
        final(data).output_len() == old(data).output_len(),
        final(data).output_bytes() == old(data).output_bytes(),
        final(data).flags() == old(data).flags(),
{
    let (status, _consumed, written) = reported;
    data.compressed_len = written;
    status
}

/// Resets the compressor and deflates the whole input into the output buffer,
/// recording how many bytes were written (through `record_run`). Returns the
/// compressor's status: `Done` exactly when the raw deflate stream of the input fits
/// into the output buffer, and then the output starts with that stream and its length
/// is recorded.
pub fn run(data: &mut Data) -> (status: DeflateStatus)
    requires
        old(data).wf(),
    ensures
        final(data).wf(),
        final(data).input_bytes() == old(data).input_bytes(),
        final(data).output_len() == old(data).output_len(),
        final(data).flags() == old(data).flags(),
        final(data).written() <= final(data).output_len(),
        (status == DeflateStatus::Done) == (deflate_stream(old(data).flags(), old(data).input_bytes()).len() <= old(data).output_len()),
        status == DeflateStatus::Done ==> final(data).written() == deflate_stream(old(data).flags(), old(data).input_bytes()).len()
            && final(data).output_bytes().take(final(data).written() as int) == deflate_stream(old(data).flags(), old(data).input_bytes()),
{
    let reported = reset_and_compress(
        &mut data.compressor,
        data.input.as_slice(),
        data.output.as_mut_slice(),
    );
    record_run(data, reported)
}


/// The output buffer that `setup` allocates exceeds the input by a sixteenth of it plus
/// 64 bytes, room for deflate's block overhead on incompressible data.
pub proof fn lemma_output_capacity_room(size: nat)
    ensures
        output_capacity(size) >= size + size / 16 + 64,
        output_capacity(size) > size,
{
}

} // verus!
