//! The Snappy framing format: what a stream identifier, a frame header and a frame are.
use vstd::prelude::*;

use crate::crc32c::{crc32c_masked_of, crc32c_of, law_mask_comes_off};
use crate::raw::{raw_compressed, raw_decompressed};

verus! {

/// The most data that one frame stands for.
pub const MAX_BLOCK_SIZE: usize = 65536;

/// The most room that writing one frame takes: header, checksum, and the compressor's bound for
/// a whole block.
pub const MAX_DATA_FRAME_SIZE: usize = 76498;

/// The most room that writing the stream identifier and one frame takes.
pub const MAX_FRAME_SIZE: usize = 76508;

/// The stream identifier, with which every stream begins.
pub const STREAM_FRAME: [u8; 10] = [0xff, 0x06, 0x00, 0x00, 0x73, 0x4e, 0x61, 0x50, 0x70, 0x59];

/// How the payload of a data frame is stored.
#[derive(Clone, Copy, Debug, PartialEq, Eq, Structural)]
pub enum ChunkType {
    Compressed,
    Uncompressed,
}

impl ChunkType {
    /// The byte by which a frame names its type.
    pub open spec fn code(self) -> u8 {
        match self {
            ChunkType::Compressed => 0x00,
            ChunkType::Uncompressed => 0x01,
        }
    }

    /// The byte by which a frame names its type.
    pub fn to_byte(self) -> (byte: u8)
        ensures
            byte == self.code(),
    {
        match self {
            ChunkType::Compressed => 0x00,
            ChunkType::Uncompressed => 0x01,
        }
    }
}

/// The low 24 bits of `n`, lowest byte first.
pub open spec fn u24_le(n: int) -> Seq<u8> {
    seq![(n % 256) as u8, ((n / 256) % 256) as u8, ((n / 65536) % 256) as u8]
}

/// The bytes of `n`, lowest first.
pub open spec fn u32_le(n: u32) -> Seq<u8> {
    seq![
        (n as int % 256) as u8,
        ((n as int / 256) % 256) as u8,
        ((n as int / 65536) % 256) as u8,
        (n as int / 16777216) as u8,
    ]
}

/// The bytes of `n`, lowest first.
pub fn u32_to_le(n: u32) -> (bytes: [u8; 4])
    ensures
        bytes@ == u32_le(n),
{
    [
        (n % 256) as u8,
        ((n / 256) % 256) as u8,
        ((n / 65536) % 256) as u8,
        (n / 16777216) as u8,
    ]
}

/// The first four bytes of a frame.
#[derive(Clone, Copy, Debug)]
pub struct FrameHeader {
    pub chunk_type: ChunkType,
    /// The length of what follows the header. The format has room for its low 24 bits.
    pub data_frame_length: u64,
}

impl FrameHeader {
    /// The header as it stands in a stream: the type, then the length.
    pub open spec fn bytes(self) -> Seq<u8> {
        seq![self.chunk_type.code()] + u24_le(self.data_frame_length as int)
    }

    /// The header as it stands in a stream.
    pub fn to_bytes(self) -> (bytes: [u8; 4])
        ensures
            bytes@ == self.bytes(),
    {
        let len: u64 = self.data_frame_length;
        [
            self.chunk_type.to_byte(),
            (len % 256) as u8,
            ((len / 256) % 256) as u8,
            ((len / 65536) % 256) as u8,
        ]
    }
}

/// Data is stored compressed where that saves more than an eighth of it, rounded down.
pub open spec fn chunk_type_of(len: int, compressed_len: int) -> ChunkType {
    if compressed_len >= len - len / 8 {
        ChunkType::Uncompressed
    } else {
        ChunkType::Compressed
    }
}

/// How long the payload is: the data or its compressed form.
pub open spec fn payload_len_of(len: int, compressed_len: int) -> int {
    match chunk_type_of(len, compressed_len) {
        ChunkType::Compressed => compressed_len,
        ChunkType::Uncompressed => len,
    }
}

/// What precedes the payload of the frame for `data`: the header, whose length counts the
/// checksum in, and the masked checksum of `data`.
pub open spec fn frame_prefix(data: Seq<u8>, compressed_len: int) -> Seq<u8> {
    let len = data.len() as int;
    seq![chunk_type_of(len, compressed_len).code()]
        + u24_le(payload_len_of(len, compressed_len) + 4)
        + u32_le(crc32c_masked_of(data))
}

/// The frame for `data`, whose compressed form is `compressed`.
pub open spec fn frame_with(data: Seq<u8>, compressed: Seq<u8>) -> Seq<u8> {
    frame_prefix(data, compressed.len() as int) + match chunk_type_of(
        data.len() as int,
        compressed.len() as int,
    ) {
        ChunkType::Compressed => compressed,
        ChunkType::Uncompressed => data,
    }
}

/// The frame for `data`.
pub open spec fn frame(data: Seq<u8>) -> Seq<u8> {
    frame_with(data, raw_compressed(data))
}

/// The compressed form of `data` decompresses to `data`.
pub open spec fn restorable(data: Seq<u8>) -> bool {
    raw_decompressed(raw_compressed(data)) == Some(data)
}

/// Block `i` of `data`, counted from 0.
pub open spec fn block_at(data: Seq<u8>, i: int) -> Seq<u8> {
    data.subrange(i * MAX_BLOCK_SIZE, (i + 1) * MAX_BLOCK_SIZE)
}

/// How many whole blocks `data` holds.
pub open spec fn block_count(data: Seq<u8>) -> int {
    data.len() as int / MAX_BLOCK_SIZE as int
}

/// The frames for the first `count` blocks of `data`, one behind the other.
pub open spec fn block_frames(data: Seq<u8>, count: int) -> Seq<u8>
    decreases count,
{
    if count <= 0 {
        Seq::empty()
    } else {
        block_frames(data, count - 1) + frame(block_at(data, count - 1))
    }
}

/// The four bytes of a number read back as the number, lowest first.
pub proof fn law_u32_reads_back(n: u32)
    ensures
        u32_le(n).len() == 4,
        u32_le(n)[0] + 256 * u32_le(n)[1] + 65536 * u32_le(n)[2] + 16777216 * u32_le(n)[3] == n,
{
}

/// Three bytes read back as the low 24 bits of the number, lowest first.
proof fn lemma_u24_reads_back(n: int)
    requires
        n >= 0,
    ensures
        u24_le(n).len() == 3,
        u24_le(n)[0] + 256 * u24_le(n)[1] + 65536 * u24_le(n)[2] == n % 16777216,
{
}

/// What precedes a payload, byte by byte: the type, the length modulo 2^24 of the checksum and the
/// payload, lowest byte first, and the masked checksum of the data, lowest byte first.
pub proof fn law_prefix_layout(data: Seq<u8>, compressed_len: int)
    requires
        compressed_len >= 0,
    ensures
        ({
            let p = frame_prefix(data, compressed_len);
            let sum = p[4] + 256 * p[5] + 65536 * p[6] + 16777216 * p[7];
            let rotated = ((sum - 0xa282_ead8) % 0x1_0000_0000) as u32;
            let squeezed = compressed_len < data.len() - data.len() as int / 8;
            let len = if squeezed {
                compressed_len
            } else {
                data.len() as int
            };
            &&& p.len() == 8
            &&& p[0] == if squeezed {
                0x00u8
            } else {
                0x01u8
            }
            &&& p[1] + 256 * p[2] + 65536 * p[3] == (len + 4) % 16777216
            &&& (rotated << 15) | (rotated >> 17) == crc32c_of(data)
        }),
{
    let p = frame_prefix(data, compressed_len);
    let len = payload_len_of(data.len() as int, compressed_len);
    let length = u24_le(len + 4);
    let field = u32_le(crc32c_masked_of(data));
    lemma_u24_reads_back(len + 4);
    law_u32_reads_back(crc32c_masked_of(data));
    law_mask_comes_off(data);
    assert(p[1] == length[0] && p[2] == length[1] && p[3] == length[2]);
    assert(p[4] == field[0] && p[5] == field[1] && p[6] == field[2] && p[7] == field[3]);
}

/// A header is the type byte and three bytes that read back, lowest first, as the low 24 bits of
/// the length.
pub proof fn law_header_reads_back(header: FrameHeader)
    ensures
        header.bytes().len() == 4,
        header.chunk_type is Compressed <==> header.bytes()[0] == 0x00,
        header.chunk_type is Uncompressed <==> header.bytes()[0] == 0x01,
        header.chunk_type.code() == header.bytes()[0],
        header.bytes()[1] + 256 * header.bytes()[2] + 65536 * header.bytes()[3]
            == header.data_frame_length as int % 16777216,
{
}

/// What a frame is, byte by byte. Where compressing saves more than an eighth of the data, rounded
/// down, the frame has the type 0 and carries the compressed form; otherwise it has the type 1 and
/// carries the data. Three bytes give the length of what follows them, modulo 2^24, lowest first.
/// Four more give the masked checksum of the data, lowest first.
pub proof fn law_frame_layout(data: Seq<u8>)
    ensures
        ({
            let compressed = raw_compressed(data);
            let f = frame(data);
            let sum = f[4] + 256 * f[5] + 65536 * f[6] + 16777216 * f[7];
            let rotated = ((sum - 0xa282_ead8) % 0x1_0000_0000) as u32;
            &&& if compressed.len() < data.len() - data.len() as int / 8 {
                &&& f[0] == 0x00
                &&& f.len() == 8 + compressed.len()
                &&& f.skip(8) == compressed
            } else {
                &&& f[0] == 0x01
                &&& f.len() == 8 + data.len()
                &&& f.skip(8) == data
            }
            &&& f[1] + 256 * f[2] + 65536 * f[3] == (f.len() - 4) % 16777216
            &&& (rotated << 15) | (rotated >> 17) == crc32c_of(data)
        }),
{
    let compressed = raw_compressed(data);
    let f = frame(data);
    let p = frame_prefix(data, compressed.len() as int);
    law_prefix_layout(data, compressed.len() as int);
    assert(forall|i: int| 0 <= i < 8 ==> f[i] == p[i]);
    if compressed.len() < data.len() - data.len() as int / 8 {
        assert(f.skip(8) =~= compressed);
    } else {
        assert(f.skip(8) =~= data);
    }
}

} // verus!
