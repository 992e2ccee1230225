//! LZ4 compression of large payloads.
//!
//! Small payloads are passed through: below the threshold the overhead is
//! greater than what is saved. Whether a payload is compressed is known to the
//! framing layer, not to the payload itself. A compressed payload begins with
//! its original size, four bytes, little-endian.

use crate::error::{VectisError, VectisErrorView, VectisResult};
use crate::float::F64;
use crate::gc;
use crate::wire;
use vstd::prelude::*;

verus! {

/// The length from which payloads are compressed.
pub const COMPRESS_THRESHOLD: usize = 200;

/// The length of a run of 0xFF bytes from which on the length that it spells
/// out could overflow 32 bits.
pub const RUN: usize = 16_843_009;

/// The same on a machine of 32 bits, where the length is added to a position.
pub const NARROW_RUN: usize = 8_421_504;

/// The length up to which a payload, once compressed, can be decompressed on
/// every machine.
pub const SURE_LENGTH: usize = 7_600_000;

/// The length of a run of 0xFF bytes that could make a length overflow on this
/// machine.
pub open spec fn run_limit() -> int {
    if usize::MAX > u32::MAX {
        RUN as int
    } else {
        NARROW_RUN as int
    }
}

/// What `lz4_flex::decompress_size_prepended` makes of a compressed payload:
/// the original, or the text of the error.
pub uninterp spec fn lz4_decompressed(data: Seq<u8>) -> Result<Seq<u8>, Seq<char>>;

/// Whether `packed` is a payload in compressed form: it begins with the lower
/// 32 bits of the payload's length, is no longer than the buffer that is set
/// aside for it, and, where the length fits in the header, is undone by the
/// decompressor.
pub open spec fn packs(data: Seq<u8>, packed: Seq<u8>) -> bool {
    &&& packed.len() >= 4
    &&& packed.take(4) == wire::le((data.len() % 0x1_0000_0000) as nat, 4)
    &&& packed.len() <= data.len() * 110 / 100 + 24
    &&& data.len() <= u32::MAX ==> restores(packed, data)
}

/// Calls `lz4_flex::compress_prepend_size`. Its result is taken to begin with
/// the length of the payload, to be no longer than the buffer that it sets
/// aside, and, for a length that fits in the header, to be undone by
/// `lz4_flex::decompress_size_prepended`. Which of the blocks that stand for
/// the payload it is depends on the machine's word size, and is not stated. A
/// payload so long that the size of the buffer overflows is left out.
#[verifier::external_body]
fn lz4_compress(data: &[u8]) -> (out: Vec<u8>)
    requires
        data@.len() * 110 + 2400 <= usize::MAX,
    ensures
        packs(data@, out@),
{
    lz4_flex::compress_prepend_size(data)
}

/// Whether the `n` bytes from `i` on are all 0xFF.
pub open spec fn full_run(data: Seq<u8>, i: int, n: int) -> bool {
    forall|j: int| i <= j < i + n ==> #[trigger] data[j] == 255u8
}

/// Whether no run of 0xFF bytes is so long that a length in the block, which
/// such a run spells out, could overflow.
pub open spec fn short_runs(data: Seq<u8>) -> bool {
    forall|i: int| 0 <= i && i + run_limit() <= data.len() ==> !#[trigger] full_run(data, i, run_limit())
}

/// Whether bytes can be handed to the decompressor: the size in their header
/// can be allocated, and no length in them overflows.
pub open spec fn decompressible(data: Seq<u8>) -> bool {
    &&& data.len() >= 4 ==> wire::le_value(data.take(4)) <= isize::MAX
    &&& short_runs(data)
}

/// Whether the decompressor restores `data` from `packed`.
pub open spec fn restores(packed: Seq<u8>, data: Seq<u8>) -> bool {
    match lz4_decompressed(packed) {
        Ok(bytes) => bytes == data,
        Err(_) => false,
    }
}

/// Calls `lz4_flex::decompress_size_prepended`, and hands on the text of its
/// error. The outcome is taken to depend on the bytes alone. Bytes whose
/// header asks for more than can be allocated, or that spell out a length
/// that overflows, are left out.
#[verifier::external_body]
fn lz4_decompress(data: &[u8]) -> (outcome: Result<Vec<u8>, String>)
    requires
        decompressible(data@),
    ensures
        match lz4_decompressed(data@) {
            Ok(bytes) => outcome matches Ok(v) && v@ == bytes,
            Err(message) => outcome matches Err(t) && t@ == message,
        },
{
    match lz4_flex::decompress_size_prepended(data) {
        Ok(bytes) => Ok(bytes),
        Err(e) => Err(e.to_string()),
    }
}

/// Compresses a payload from [`COMPRESS_THRESHOLD`] bytes on; a shorter one is
/// handed back as it is. What was compressed is restored by [`decompress`].
pub fn compress(data: &[u8]) -> (out: Vec<u8>)
    requires
        data@.len() * 110 + 2400 <= usize::MAX,
    ensures
        compresses_to(data@, out@),
        data@.len() >= COMPRESS_THRESHOLD && data@.len() <= u32::MAX && out@.len() < run_limit() ==> decompressible(
            out@,
        ),
        COMPRESS_THRESHOLD <= data@.len() <= SURE_LENGTH ==> decompressible(out@),
{
    if data.len() >= COMPRESS_THRESHOLD {
        let out = lz4_compress(data);
        proof {
            if data@.len() <= u32::MAX {
                wire::lemma_spans();
                wire::lemma_le_round_trip(data@.len(), 4, seq![]);
                assert(wire::le(data@.len(), 4) + Seq::<u8>::empty() =~= wire::le(data@.len(), 4));
                assert(wire::le(data@.len(), 4).take(4) =~= wire::le(data@.len(), 4));
                assert(data@.len() % 0x1_0000_0000 == data@.len());
                assert(data@.len() <= SURE_LENGTH ==> out@.len() < run_limit());
            }
        }
        return out;
    }
    let out = wire::copy_range(data, 0, data.len());
    proof {
        assert(out@ =~= data@);
    }
    out
}

/// What [`decompress`] gives for an outcome of the decompressor: where the
/// bytes are fewer than what [`compress`] compresses, and are no block either,
/// they were never compressed, and are handed back.
pub open spec fn restored(data: Seq<u8>, outcome: Result<Seq<u8>, Seq<char>>) -> Result<Seq<u8>, VectisErrorView> {
    match outcome {
        Ok(bytes) => Ok(bytes),
        Err(message) => if data.len() < COMPRESS_THRESHOLD {
            Ok(data)
        } else {
            Err(VectisErrorView::DecodingError("lz4 decompress: "@ + message))
        },
    }
}

/// What [`decompress`] returns for an outcome of the decompressor.
pub fn decompression_result(data: &[u8], outcome: Result<Vec<u8>, String>) -> (result: VectisResult<Vec<u8>>)
    ensures
        match restored(
            data@,
            match outcome {
                Ok(bytes) => Ok(bytes@),
                Err(message) => Err(message@),
            },
        ) {
            Ok(bytes) => result matches Ok(v) && v@ == bytes,
            Err(error) => result matches Err(e) && e@ == error,
        },
{
    match outcome {
        Ok(bytes) => Ok(bytes),
        Err(message) => {
            if data.len() < COMPRESS_THRESHOLD {
                return Ok(wire::copy_range(data, 0, data.len()));
            }
            let mut text = String::new();
            text.append("lz4 decompress: ");
            text.append(message.as_str());
            proof {
                assert(text@ =~= "lz4 decompress: "@ + message@);
            }
            Err(VectisError::DecodingError(text))
        },
    }
}

/// Decompresses what [`compress`] has given. Bytes that were too few to be
/// compressed come back unchanged, unless they happen to be a block themselves:
/// the framing layer tells those apart.
pub fn decompress(data: &[u8]) -> (result: VectisResult<Vec<u8>>)
    requires
        decompressible(data@),
    ensures
        match restored(data@, lz4_decompressed(data@)) {
            Ok(bytes) => result matches Ok(v) && v@ == bytes,
            Err(error) => result matches Err(e) && e@ == error,
        },
{
    decompression_result(data, lz4_decompress(data))
}

/// What [`compress`] may give for a payload.
pub open spec fn compresses_to(data: Seq<u8>, out: Seq<u8>) -> bool {
    if data.len() < COMPRESS_THRESHOLD {
        out == data
    } else {
        packs(data, out)
    }
}

/// What was compressed is restored; so is what was too short for that, unless
/// it happens to be a block itself.
pub proof fn law_compression_round_trip(data: Seq<u8>, out: Seq<u8>)
    requires
        compresses_to(data, out),
        data.len() <= u32::MAX,
        data.len() < COMPRESS_THRESHOLD ==> lz4_decompressed(data) is Err,
    ensures
        restored(out, lz4_decompressed(out)) == Ok::<Seq<u8>, VectisErrorView>(data),
{
}

/// Whether bytes can be handed to [`decompress`].
pub fn is_decompressible(data: &[u8]) -> (yes: bool)
    ensures
        yes == decompressible(data@),
{
    if data.len() >= 4 {
        proof {
            assert(data@.skip(0) =~= data@);
        }
        match wire::decode_u32_at(data, 0) {
            Some((size, _)) => {
                if size as u64 > isize::MAX as u64 {
                    return false;
                }
            },
            None => {},
        }
    }
    let limit: usize = if usize::MAX as u64 > u32::MAX as u64 { RUN } else { NARROW_RUN };
    let mut run: usize = 0;
    let mut i: usize = 0;
    while i < data.len()
        invariant
            i <= data@.len(),
            limit == run_limit(),
            run <= i,
            run < limit,
            full_run(data@, i - run, run as int),
            run < i ==> data@[i - run - 1] != 255u8,
            forall|k: int| 0 <= k && k + limit <= i ==> !#[trigger] full_run(data@, k, limit as int),
        decreases data@.len() - i,
    {
        let ghost before = run;
        if data[i] == 255 {
            run += 1;
        } else {
            run = 0;
        }
        if run >= limit {
            assert(full_run(data@, i + 1 - limit, limit as int));
            return false;
        }
        proof {
            assert forall|k: int| 0 <= k && k + limit <= i + 1 implies !#[trigger] full_run(data@, k, limit as int) by {
                if k + limit == i + 1 {
                    if data@[i as int] != 255u8 {
                        assert(data@[k + limit - 1] != 255u8);
                    } else {
                        assert(i - before - 1 >= k);
                        assert(data@[i - before - 1] != 255u8);
                    }
                }
            }
        }
        i += 1;
    }
    true
}

/// Whether payloads are compressed at all.
pub fn is_compression_available() -> (yes: bool)
    ensures
        yes,
{
    true
}

/// The sizes of a payload before and after compression.
#[derive(Debug, Clone, Copy, PartialEq, Eq, Structural)]
pub struct CompressionStats {
    pub original_bytes: usize,
    pub compressed_bytes: usize,
}

impl CompressionStats {
    /// The compressed size as a share of the original one, by the given
    /// division; 1 for an empty payload.
    pub fn ratio<R: Fn(usize, usize) -> F64>(&self, divide: &R) -> (share: F64)
        requires
            gc::well_defined(*divide),
        ensures
            share == (if self.original_bytes == 0 {
                F64 { bits: 0x3ff0_0000_0000_0000 }
            } else {
                gc::quotient(*divide)(self.compressed_bytes, self.original_bytes)
            }),
    {
        if self.original_bytes == 0 {
            return F64 { bits: 0x3ff0_0000_0000_0000 };
        }
        let share = divide(self.compressed_bytes, self.original_bytes);
        proof {
            assert(call_ensures(
                *divide,
                (self.compressed_bytes, self.original_bytes),
                gc::quotient(*divide)(self.compressed_bytes, self.original_bytes),
            ));
        }
        share
    }
}

/// Compresses a payload, and gives its sizes.
pub fn compress_with_stats(data: &[u8]) -> (result: (Vec<u8>, CompressionStats))
    requires
        data@.len() * 110 + 2400 <= usize::MAX,
    ensures
        compresses_to(data@, result.0@),
        COMPRESS_THRESHOLD <= data@.len() <= SURE_LENGTH ==> decompressible(result.0@),
        result.1.original_bytes == data@.len(),
        result.1.compressed_bytes == result.0@.len(),
{
    let compressed = compress(data);
    let stats = CompressionStats { original_bytes: data.len(), compressed_bytes: compressed.len() };
    (compressed, stats)
}

/// Short payloads are left as they are, and longer ones are led by their length.
/// What cannot be decompressed is taken for a payload that was left as it is
/// where it is as short as that, and is refused otherwise.
pub proof fn law_short_payloads_stay(
    data: Seq<u8>,
    out: Seq<u8>,
    outcome: Result<Seq<u8>, Seq<char>>,
)
    requires
        compresses_to(data, out),
    ensures
        data.len() < 200 ==> out == data,
        200 <= data.len() <= u32::MAX ==> out.len() >= 4 && wire::le_value(out.take(4)) == data.len(),
        outcome is Ok ==> restored(data, outcome) == Ok::<Seq<u8>, VectisErrorView>(outcome->Ok_0),
        outcome is Err && data.len() < 200 ==> restored(data, outcome) == Ok::<Seq<u8>, VectisErrorView>(data),
        outcome is Err && data.len() >= 200 ==> restored(data, outcome) == Err::<Seq<u8>, VectisErrorView>(
            VectisErrorView::DecodingError("lz4 decompress: "@ + outcome->Err_0),
        ),
{
    if 200 <= data.len() <= u32::MAX {
        wire::lemma_spans();
        wire::law_fixed_width_numbers_are_bytes(seq![], data.len(), 4);
        wire::lemma_le_round_trip(data.len(), 4, seq![]);
        let b = wire::le(data.len(), 4);
        assert((b + Seq::<u8>::empty()).take(4) =~= b);
    }
}

} // verus!
