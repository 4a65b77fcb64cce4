use snappy_codec::crc32c::{crc32c, crc32c_masked};

#[test]
fn crc32c_of_the_nine_digits() {
    assert_eq!(crc32c(b"123456789"), 0xe306_9283);
    assert_eq!(crc32c(b""), 0);
}

#[test]
fn masked_crc32c_rotates_and_adds() {
    assert_eq!(crc32c_masked(b""), 0xa282_ead8);
    assert_eq!(
        crc32c_masked(b"123456789"),
        0xe306_9283_u32.rotate_right(15).wrapping_add(0xa282_ead8)
    );
}
