//! The CRC-32C checksum, and the masked form of it that frames carry.
use vstd::prelude::*;

verus! {

/// The Castagnoli polynomial, lowest order coefficient in the highest bit.
pub const POLYNOMIAL: u32 = 0x82f6_3b78;

/// What masking adds to the rotated checksum.
pub const MASK_DELTA: u32 = 0xa282_ead8;

/// The checksum register after one more bit: a shift towards the low end, and a subtraction of
/// the polynomial where a 1 falls out.
pub open spec fn shift_bit(register: u32) -> u32 {
    if register & 1 == 1 {
        (register >> 1) ^ POLYNOMIAL
    } else {
        register >> 1
    }
}

/// The register after four bits.
pub open spec fn shift_nibble(register: u32) -> u32 {
    shift_bit(shift_bit(shift_bit(shift_bit(register))))
}

/// The register after the eight bits of `byte`, lowest bit first.
pub open spec fn shift_byte(register: u32, byte: u8) -> u32 {
    shift_nibble(shift_nibble(register ^ (byte as u32)))
}

/// The register after all of `data`, from all ones.
pub open spec fn register_after(data: Seq<u8>) -> u32
    decreases data.len(),
{
    if data.len() == 0 {
        0xffff_ffff
    } else {
        shift_byte(register_after(data.drop_last()), data.last())
    }
}

/// The CRC-32C of `data`.
pub open spec fn crc32c_of(data: Seq<u8>) -> u32 {
    !register_after(data)
}

/// A checksum as frames carry it: rotated right by 15 bits, plus a constant, modulo 2^32.
pub open spec fn masked(sum: u32) -> u32 {
    ((((sum >> 15) | (sum << 17)) + MASK_DELTA) % 0x1_0000_0000) as u32
}

/// The masked CRC-32C of `data`.
pub open spec fn crc32c_masked_of(data: Seq<u8>) -> u32 {
    masked(crc32c_of(data))
}

/// Entry `i` is the register `i` after four bits.
const NIBBLES: [u32; 16] = [
    0x0000_0000, 0x105e_c76f, 0x20bd_8ede, 0x30e3_49b1,
    0x417b_1dbc, 0x5125_dad3, 0x61c6_9362, 0x7198_540d,
    0x82f6_3b78, 0x92a8_fc17, 0xa24b_b5a6, 0xb215_72c9,
    0xc38d_26c4, 0xd3d3_e1ab, 0xe330_a81a, 0xf36e_6f75,
];

proof fn lemma_nibbles(i: int)
    requires
        0 <= i < 16,
    ensures
        NIBBLES[i] == shift_nibble(i as u32),
{
    assert({
        &&& shift_nibble(0) == 0x0000_0000u32
        &&& shift_nibble(1) == 0x105e_c76fu32
        &&& shift_nibble(2) == 0x20bd_8edeu32
        &&& shift_nibble(3) == 0x30e3_49b1u32
        &&& shift_nibble(4) == 0x417b_1dbcu32
        &&& shift_nibble(5) == 0x5125_dad3u32
        &&& shift_nibble(6) == 0x61c6_9362u32
        &&& shift_nibble(7) == 0x7198_540du32
        &&& shift_nibble(8) == 0x82f6_3b78u32
        &&& shift_nibble(9) == 0x92a8_fc17u32
        &&& shift_nibble(10) == 0xa24b_b5a6u32
        &&& shift_nibble(11) == 0xb215_72c9u32
        &&& shift_nibble(12) == 0xc38d_26c4u32
        &&& shift_nibble(13) == 0xd3d3_e1abu32
        &&& shift_nibble(14) == 0xe330_a81au32
        &&& shift_nibble(15) == 0xf36e_6f75u32
    }) by (bit_vector);
}

/// Shifting is linear: the low four bits can be shifted apart from the rest.
proof fn lemma_nibble_split(register: u32)
    ensures
        shift_nibble(register) == (register >> 4) ^ shift_nibble(register & 15),
        register & 15 < 16,
{
    assert(shift_nibble(register) == (register >> 4) ^ shift_nibble(register & 15)) by (bit_vector);
    assert(register & 15 < 16) by (bit_vector);
}

/// The register after four bits, by table.
fn step_nibble(register: u32) -> (r: u32)
    ensures
        r == shift_nibble(register),
{
    proof {
        lemma_nibble_split(register);
        lemma_nibbles((register & 15) as int);
    }
    (register >> 4) ^ NIBBLES[(register & 15) as usize]
}

/// Computes the CRC-32C of `data`.
pub fn crc32c(data: &[u8]) -> (sum: u32)
    ensures
        sum == crc32c_of(data@),
{
    let mut register: u32 = 0xffff_ffff;
    for i in 0..data.len()
        invariant
            register == register_after(data@.take(i as int)),
    {
        assert(data@.take(i + 1).drop_last() =~= data@.take(i as int));
        register = step_nibble(step_nibble(register ^ (data[i] as u32)));
    }
    assert(data@.take(data@.len() as int) =~= data@);
    !register
}

/// Computes the masked CRC-32C of `data`.
pub fn crc32c_masked(data: &[u8]) -> (sum: u32)
    ensures
        sum == crc32c_masked_of(data@),
{
    let sum: u32 = crc32c(data);
    ((sum >> 15) | (sum << 17)).wrapping_add(MASK_DELTA)
}

/// The checksum of no data is 0. One more byte changes the complement of the checksum as a division
/// by the Castagnoli polynomial does: the byte is added to it, and each of eight times a bit falls
/// out at the low end, for which the polynomial is subtracted where it is a 1.
pub proof fn law_crc32c(data: Seq<u8>, byte: u8)
    ensures
        crc32c_of(Seq::empty()) == 0,
        ({
            let step = |r: u32|
                if r & 1 == 1 {
                    (r >> 1) ^ 0x82f6_3b78u32
                } else {
                    r >> 1
                };
            let start = !crc32c_of(data) ^ (byte as u32);
            !crc32c_of(data.push(byte)) == step(
                step(step(step(step(step(step(step(start))))))),
            )
        }),
{
    let before = register_after(data);
    let after = register_after(data.push(byte));
    assert(data.push(byte).drop_last() =~= data);
    assert(!(!before) == before) by (bit_vector);
    assert(!(!after) == after) by (bit_vector);
    assert(!0xffff_ffffu32 == 0u32) by (bit_vector);
}

/// Different registers, or different bytes, are still told apart after a byte.
proof fn lemma_bytes_told_apart(r: u32, s: u32, x: u8, y: u8)
    requires
        r != s && x == y || r == s && x != y,
    ensures
        shift_byte(r, x) != shift_byte(s, y),
{
    let u: u32 = r ^ (x as u32);
    let v: u32 = s ^ (y as u32);
    assert(u != v) by (bit_vector)
        requires
            r != s && x == y || r == s && x != y,
            u == r ^ (x as u32),
            v == s ^ (y as u32),
    ;
    let (u4, v4) = (shift_nibble(u), shift_nibble(v));
    assert(shift_nibble(u) != shift_nibble(v)) by (bit_vector)
        requires
            u != v,
    ;
    assert(shift_nibble(u4) != shift_nibble(v4)) by (bit_vector)
        requires
            u4 != v4,
    ;
}

/// Data of one length that differ in one byte, wherever that is, have different checksums.
pub proof fn law_changed_byte_shows(a: Seq<u8>, b: Seq<u8>, at: int)
    requires
        a.len() == b.len(),
        0 <= at < a.len(),
        a[at] != b[at],
        forall|i: int| 0 <= i < a.len() && i != at ==> a[i] == b[i],
    ensures
        crc32c_of(a) != crc32c_of(b),
    decreases a.len(),
{
    let (r, s) = (register_after(a.drop_last()), register_after(b.drop_last()));
    if at == a.len() - 1 {
        assert(a.drop_last() =~= b.drop_last());
    } else {
        law_changed_byte_shows(a.drop_last(), b.drop_last(), at);
        assert(r != s);
    }
    lemma_bytes_told_apart(r, s, a.last(), b.last());
    let (u, v) = (register_after(a), register_after(b));
    assert(!u != !v) by (bit_vector)
        requires
            u != v,
    ;
}

/// What masking does is undone by subtracting its constant modulo 2^32 and rotating left by 15
/// bits.
pub proof fn law_mask_comes_off(data: Seq<u8>)
    ensures
        ({
            let rotated = ((crc32c_masked_of(data) - 0xa282_ead8) % 0x1_0000_0000) as u32;
            (rotated << 15) | (rotated >> 17) == crc32c_of(data)
        }),
{
    let sum = crc32c_of(data);
    let rotated = (sum >> 15) | (sum << 17);
    assert((rotated << 15) | (rotated >> 17) == sum) by (bit_vector)
        requires
            rotated == (sum >> 15) | (sum << 17),
    ;
    assert((crc32c_masked_of(data) - 0xa282_ead8) % 0x1_0000_0000 == rotated as int);
}

} // verus!
