//! Making one frame.
use vstd::prelude::*;

use crate::buffer::{write_copy_of_slice, PartialBuffer, WriteBuffer};
use crate::crc32c::{crc32c_masked, crc32c_of};
use crate::format::{
    chunk_type_of, frame, frame_prefix, law_prefix_layout, payload_len_of, restorable, u32_to_le,
    ChunkType, FrameHeader,
};
use crate::raw::{compress, max_compressed_len, raw_compressed, refusal};

verus! {

/// Why a frame could not be made.
#[derive(Debug)]
pub enum EncodeError {
    /// The compressor refused the data.
    Compression(snap::Error),
}

/// A frame but for its payload.
#[derive(Debug)]
pub struct Chunk {
    pub chunk_type: ChunkType,
    /// Payload length only (the length in the frame header counts the checksum in).
    pub payload_len: usize,
    /// Frame header and checksum.
    pub header: [u8; 8],
}

impl Chunk {
    /// This is the chunk for `data`, whose compressed form takes `compressed_len` bytes.
    pub open spec fn describes(self, data: Seq<u8>, compressed_len: int) -> bool {
        &&& self.chunk_type == chunk_type_of(data.len() as int, compressed_len)
        &&& self.payload_len == payload_len_of(data.len() as int, compressed_len)
        &&& self.header@ == frame_prefix(data, compressed_len)
    }
}

/// Decides how `input` is stored, given that its compressed form takes `compressed_len` bytes.
pub fn chunk_for(input: &[u8], compressed_len: usize) -> (chunk: Chunk)
    requires
        input@.len() + 4 <= usize::MAX,
    ensures
        chunk.describes(input@, compressed_len as int),
{
    let checksum: u32 = crc32c_masked(input);
    let (chunk_type, payload_len): (ChunkType, usize) = if compressed_len >= input.len() - (
    input.len() / 8) {
        (ChunkType::Uncompressed, input.len())
    } else {
        (ChunkType::Compressed, compressed_len)
    };

    // The length counts the four bytes of the checksum in.
    let header = FrameHeader { chunk_type, data_frame_length: (payload_len + 4) as u64 };
    let raw_header: [u8; 4] = header.to_bytes();
    let raw_checksum: [u8; 4] = u32_to_le(checksum);
    let header: [u8; 8] = [
        raw_header[0],
        raw_header[1],
        raw_header[2],
        raw_header[3],
        raw_checksum[0],
        raw_checksum[1],
        raw_checksum[2],
        raw_checksum[3],
    ];
    assert(header@ =~= frame_prefix(input@, compressed_len as int));
    Chunk { chunk_type, payload_len, header }
}

/// Compresses `input` to the front of `output` and decides how it is stored.
pub fn prepare_frame(input: &[u8], output: &mut [u8]) -> (r: Result<Chunk, EncodeError>)
    ensures
        final(output)@.len() == old(output)@.len(),
        r is Ok <==> 0 < max_compressed_len(input@.len() as int) <= old(output)@.len(),
        r matches Ok(chunk) ==> {
            &&& chunk.describes(input@, raw_compressed(input@).len() as int)
            &&& raw_compressed(input@).len() <= old(output)@.len()
            &&& final(output)@.take(raw_compressed(input@).len() as int) == raw_compressed(input@)
            &&& restorable(input@)
        },
        r matches Err(error) ==> {
            &&& error == EncodeError::Compression(
                refusal(input@.len() as int, old(output)@.len() as int),
            )
            &&& final(output)@ == old(output)@
        },
{
    match compress(input, output) {
        Ok(n) => Ok(chunk_for(input, n)),
        Err(error) => Err(EncodeError::Compression(error)),
    }
}

/// How many more bytes fit in `output`.
pub(crate) fn spare_len(output: &WriteBuffer<'_>) -> (n: usize)
    requires
        output.wf(),
    ensures
        n == output.spare(),
{
    output.capacity() - output.written_len()
}

/// Empties `buf`, which keeps its allocation.
pub(crate) fn clear_for_reuse(buf: &mut PartialBuffer<Vec<u8>>)
    ensures
        final(buf).wf(),
        final(buf).source()@ == Seq::<u8>::empty(),
        final(buf).position() == 0,
{
    buf.get_mut().clear();
    buf.reset();
}

/// Makes the frame for `block` but for writing it. A compressed payload is left in `out_buf`,
/// which is otherwise left empty.
pub(crate) fn compress_into(out_buf: &mut PartialBuffer<Vec<u8>>, block: &[u8]) -> (r: Result<
    Chunk,
    EncodeError,
>)
    ensures
        final(out_buf).wf(),
        final(out_buf).position() == 0,
        r is Ok <==> 0 < max_compressed_len(block@.len() as int),
        r matches Ok(chunk) ==> {
            &&& chunk.describes(block@, raw_compressed(block@).len() as int)
            &&& final(out_buf).source()@ == match chunk.chunk_type {
                ChunkType::Compressed => raw_compressed(block@),
                ChunkType::Uncompressed => Seq::<u8>::empty(),
            }
            &&& restorable(block@)
        },
        r matches Err(error) ==> {
            &&& error == EncodeError::Compression(refusal(block@.len() as int, 0))
            &&& final(out_buf).source()@ == Seq::<u8>::empty()
        },
{
    clear_for_reuse(out_buf);
    let out = out_buf.get_mut();
    let max_compressed: usize = snap::raw::max_compress_len(block.len());
    out.resize(max_compressed, 0);

    match prepare_frame(block, out.as_mut_slice()) {
        Ok(chunk) => {
            match chunk.chunk_type {
                ChunkType::Compressed => out.truncate(chunk.payload_len),
                ChunkType::Uncompressed => out.clear(),
            }
            Ok(chunk)
        },
        Err(error) => {
            out.clear();
            Err(error)
        },
    }
}

/// Writes the frame for `input` to `output`, which has room for the compressor to work in.
///
/// The compressor works in the spare room of `output`: what that holds behind the frame
/// afterwards is left open. It is given the room that it may take, which is none where it refuses
/// the data.
pub fn write_frame(input: &[u8], output: &mut WriteBuffer<'_>) -> (r: Result<(), EncodeError>)
    requires
        old(output).wf(),
        old(output).spare() >= 8 + max_compressed_len(input@.len() as int),
    ensures
        r is Ok <==> 0 < max_compressed_len(input@.len() as int),
        r is Ok ==> old(output).extended(frame(input@), final(output)) && restorable(input@),
        r matches Err(error) ==> {
            &&& error == EncodeError::Compression(refusal(input@.len() as int, 0))
            &&& old(output).extended(Seq::empty(), final(output))
            &&& final(output).buffer@ == old(output).buffer@
        },
        final(final(output).buffer)@ == final(old(output).buffer)@,
{
    assert(output.buffer.len() == output.cap());
    let required: usize = 8 + snap::raw::max_compress_len(input.len());
    let start: usize = output.index;
    let (_, unwritten) = output.buffer.split_at_mut(start);
    let (room, _) = unwritten.split_at_mut(required);
    let (head, payload) = room.split_at_mut(8);

    let chunk = match prepare_frame(input, payload) {
        Ok(chunk) => chunk,
        Err(error) => {
            assert(output.buffer@ =~= old(output).buffer@);
            assert(output@ =~= old(output)@ + Seq::<u8>::empty());
            return Err(error);
        },
    };
    write_copy_of_slice(head, &chunk.header);
    // Data that is stored as it is takes the place of its compressed form.
    if let ChunkType::Uncompressed = chunk.chunk_type {
        let (plain, _) = payload.split_at_mut(input.len());
        write_copy_of_slice(plain, input);
    }
    output.index = start + 8 + chunk.payload_len;
    if output.initialized < output.index {
        output.initialized = output.index;
    }
    assert(output@ =~= old(output)@ + frame(input@));
    Ok(())
}

/// What a chunk says of `data`, whose compressed form takes `compressed_len` bytes. It is a
/// compressed one exactly where that saves more than an eighth of the data, rounded down, and its
/// payload is as long as what is stored. Its header reads back as the type, the length modulo 2^24
/// of the checksum and the payload, and the masked checksum of the data.
pub proof fn law_chunk(chunk: Chunk, data: Seq<u8>, compressed_len: int)
    requires
        compressed_len >= 0,
        chunk.describes(data, compressed_len),
    ensures
        ({
            let p = chunk.header@;
            let sum = p[4] + 256 * p[5] + 65536 * p[6] + 16777216 * p[7];
            let rotated = ((sum - 0xa282_ead8) % 0x1_0000_0000) as u32;
            &&& if compressed_len < data.len() - data.len() as int / 8 {
                &&& chunk.chunk_type is Compressed
                &&& chunk.payload_len == compressed_len
                &&& p[0] == 0x00
            } else {
                &&& chunk.chunk_type is Uncompressed
                &&& chunk.payload_len == data.len()
                &&& p[0] == 0x01
            }
            &&& p[1] + 256 * p[2] + 65536 * p[3] == (chunk.payload_len + 4) % 16777216
            &&& (rotated << 15) | (rotated >> 17) == crc32c_of(data)
        }),
{
    law_prefix_layout(data, compressed_len);
}

} // verus!
