use snappy_codec::{
    chunk_for, prepare_frame, write_frame, ChunkType, EncodeError, FrameHeader, WriteBuffer,
    MAX_BLOCK_SIZE, MAX_DATA_FRAME_SIZE, MAX_FRAME_SIZE, STREAM_FRAME,
};

#[test]
fn sizes_follow_the_compressor() {
    assert_eq!(
        MAX_DATA_FRAME_SIZE,
        8 + snap::raw::max_compress_len(MAX_BLOCK_SIZE)
    );
    assert_eq!(MAX_FRAME_SIZE, STREAM_FRAME.len() + MAX_DATA_FRAME_SIZE);
    assert_eq!(&STREAM_FRAME, b"\xff\x06\x00\x00sNaPpY");
}

#[test]
fn header_holds_the_low_bytes_of_the_length() {
    let header = FrameHeader {
        chunk_type: ChunkType::Compressed,
        data_frame_length: 0x0102_0304,
    };
    assert_eq!(header.to_bytes(), [0x00, 0x04, 0x03, 0x02]);
    let header = FrameHeader {
        chunk_type: ChunkType::Uncompressed,
        data_frame_length: 65540,
    };
    assert_eq!(header.to_bytes(), [0x01, 0x04, 0x00, 0x01]);
}

#[test]
fn an_eighth_has_to_be_saved() {
    let data = [7u8; 16];
    let stored = chunk_for(&data, 14);
    assert_eq!(stored.chunk_type, ChunkType::Uncompressed);
    assert_eq!(stored.payload_len, 16);
    assert_eq!(stored.header[..4], [0x01, 20, 0, 0]);
    let squeezed = chunk_for(&data, 13);
    assert_eq!(squeezed.chunk_type, ChunkType::Compressed);
    assert_eq!(squeezed.payload_len, 13);
    assert_eq!(squeezed.header[..4], [0x00, 17, 0, 0]);
    assert_eq!(stored.header[4..], squeezed.header[4..]);
}

#[test]
fn no_data_is_stored_as_it_is() {
    let chunk = chunk_for(&[], 1);
    assert_eq!(chunk.chunk_type, ChunkType::Uncompressed);
    assert_eq!(chunk.payload_len, 0);
    assert_eq!(chunk.header, [0x01, 4, 0, 0, 0xd8, 0xea, 0x82, 0xa2]);
}

#[test]
fn prepared_block_decompresses() {
    let data = vec![b'a'; 1000];
    let mut room = vec![0u8; snap::raw::max_compress_len(data.len())];
    let chunk = prepare_frame(&data, &mut room).unwrap();
    assert_eq!(chunk.chunk_type, ChunkType::Compressed);
    assert!(chunk.payload_len < 875);
    let block = &room[..chunk.payload_len];
    assert_ne!(block, &data[..chunk.payload_len]);
    assert_eq!(
        snap::raw::Decoder::new().decompress_vec(block).unwrap(),
        data
    );
}

#[test]
fn short_room_for_compression_is_an_error() {
    let mut room = [9u8; 34];
    let EncodeError::Compression(error) = prepare_frame(b"abc", &mut room).unwrap_err();
    assert!(matches!(
        error,
        snap::Error::BufferTooSmall { given: 34, min: 35 }
    ));
    assert_eq!(room, [9u8; 34]);
}

#[test]
fn small_frame_stands_behind_what_was_written() {
    let mut storage = [0u8; 100];
    let mut output = WriteBuffer::new_uninitialized(&mut storage);
    write_frame(b"123456789", &mut output).unwrap();
    write_frame(b"", &mut output).unwrap();
    let sum = 0xe306_9283_u32.rotate_right(15).wrapping_add(0xa282_ead8);
    let mut expected = vec![0x01, 13, 0, 0];
    expected.extend_from_slice(&sum.to_le_bytes());
    expected.extend_from_slice(b"123456789");
    expected.extend_from_slice(&[0x01, 4, 0, 0, 0xd8, 0xea, 0x82, 0xa2]);
    assert_eq!(output.written(), expected.as_slice());
    assert_eq!(output.initialized_len(), expected.len());
    assert_eq!(&storage[..expected.len()], expected.as_slice());
}

#[test]
fn initialized_storage_stays_initialized() {
    let mut storage = [5u8; 100];
    let mut output = WriteBuffer::new_initialized(&mut storage);
    assert_eq!(output.initialized_len(), 100);
    write_frame(b"abc", &mut output).unwrap();
    assert_eq!(output.written_len(), 11);
    assert_eq!(output.initialized_len(), 100);
    assert_eq!(output.capacity(), 100);
}
