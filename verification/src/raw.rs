//! The raw Snappy block compressor of the `snap` crate.
use vstd::prelude::*;

verus! {

/// `snap::Error`, carried through unopened.
#[verifier::external_type_specification]
#[verifier::external_body]
pub struct ExSnapError(snap::Error);

/// What `snap::raw::Encoder::compress` writes for `input`: one raw Snappy block.
pub uninterp spec fn raw_compressed(input: Seq<u8>) -> Seq<u8>;

/// What `snap::raw::Decoder::decompress_vec` makes of `block`, `None` where it reports an error.
pub uninterp spec fn raw_decompressed(block: Seq<u8>) -> Option<Seq<u8>>;

/// The error that `snap::raw::Encoder::compress` reports where it refuses `input_len` bytes of
/// input with `output_len` bytes of room: it depends on the two lengths alone.
pub uninterp spec fn refusal(input_len: int, output_len: int) -> snap::Error;

/// The largest size to which `len` bytes can grow under compression, 0 where that exceeds
/// what the raw format admits.
pub open spec fn max_compressed_len(len: int) -> int {
    let max = 32 + len + len / 6;
    if max > 0xffff_ffff {
        0
    } else {
        max
    }
}

/// `snap::raw::max_compress_len` is `32 + len + len / 6`, or 0 where that exceeds `u32::MAX`.
pub assume_specification[ snap::raw::max_compress_len ](input_len: usize) -> (max: usize)
    ensures
        max == max_compressed_len(input_len as int),
;

/// Compresses `input` to the front of `output` by `snap::raw::Encoder::compress` on a new
/// encoder, and returns the number of bytes that the block takes.
///
/// Believed of that function: it succeeds exactly when the bound on the compressed size is not
/// 0 and `output` has room for it; the block is a function of `input` alone and no longer than
/// the bound; `snap::raw::Decoder::decompress_vec` gives `input` back from it; an error is settled
/// by the lengths of `input` and `output`, and leaves `output` as it was. Nothing is said of the
/// bytes of `output` behind the block, nor of what is inside an error.
#[verifier::external_body]
pub(crate) fn compress(input: &[u8], output: &mut [u8]) -> (r: Result<usize, snap::Error>)
    ensures
        final(output)@.len() == old(output)@.len(),
        r is Ok <==> 0 < max_compressed_len(input@.len() as int) <= old(output)@.len(),
        r matches Ok(n) ==> {
            &&& n <= max_compressed_len(input@.len() as int)
            &&& n == raw_compressed(input@).len()
            &&& final(output)@.take(n as int) == raw_compressed(input@)
            &&& raw_decompressed(final(output)@.take(n as int)) == Some(input@)
        },
        r matches Err(error) ==> {
            &&& error == refusal(input@.len() as int, old(output)@.len() as int)
            &&& final(output)@ == old(output)@
        },
{
    snap::raw::Encoder::new().compress(input, output)
}

} // verus!
