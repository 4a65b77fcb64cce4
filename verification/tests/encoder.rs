use snappy_codec::{
    write_frame, EncodeV2, PartialBuffer, SnappyEncoder, WriteBuffer, MAX_BLOCK_SIZE,
    MAX_DATA_FRAME_SIZE, MAX_FRAME_SIZE, STREAM_FRAME,
};
use std::io::Read;

fn incompressible_block() -> Vec<u8> {
    let mut state = 0x4d59_5df4_d0f3_3173_u64;

    (0..MAX_BLOCK_SIZE)
        .map(|_| {
            state ^= state << 13;
            state ^= state >> 7;
            state ^= state << 17;
            state as u8
        })
        .collect()
}

#[test]
fn test_write_frame_compressed_uninitialized_output() {
    let input = vec![0; MAX_BLOCK_SIZE];
    let mut storage = vec![0u8; MAX_DATA_FRAME_SIZE];
    let mut output = WriteBuffer::new_uninitialized(&mut storage);

    write_frame(&input, &mut output).unwrap();

    assert_eq!(output.initialized_len(), output.written_len());

    let mut framed = Vec::with_capacity(STREAM_FRAME.len() + output.written_len());
    framed.extend_from_slice(&STREAM_FRAME);
    framed.extend_from_slice(output.written());

    let mut decoded = Vec::new();
    snap::read::FrameDecoder::new(framed.as_slice())
        .read_to_end(&mut decoded)
        .unwrap();

    assert_eq!(decoded, input);
}

#[test]
fn test_write_frame_uncompressed_uninitialized_output() {
    let input = incompressible_block();

    let mut storage = vec![0u8; MAX_DATA_FRAME_SIZE];
    let mut output = WriteBuffer::new_uninitialized(&mut storage);

    write_frame(&input, &mut output).unwrap();

    assert_eq!(output.initialized_len(), output.written_len());
    assert_eq!(output.written()[0], 0x01);

    let mut framed = Vec::with_capacity(STREAM_FRAME.len() + output.written_len());
    framed.extend_from_slice(&STREAM_FRAME);
    framed.extend_from_slice(output.written());

    let mut decoded = Vec::new();
    snap::read::FrameDecoder::new(framed.as_slice())
        .read_to_end(&mut decoded)
        .unwrap();

    assert_eq!(decoded, input);
}

#[test]
fn test_encode_full_block_directly_to_uninitialized_output() {
    let input = vec![0; MAX_BLOCK_SIZE];
    let mut input_buffer = PartialBuffer::new(input.as_slice());

    let mut storage = vec![0u8; MAX_FRAME_SIZE];
    let mut output = WriteBuffer::new_uninitialized(&mut storage);
    let mut encoder = SnappyEncoder::new();

    encoder.encode(&mut input_buffer, &mut output).unwrap();

    assert!(input_buffer.unwritten().is_empty());
    assert_eq!(output.initialized_len(), output.written_len());
    assert_eq!(encoder.in_buf().get_ref().capacity(), 0);
    assert_eq!(encoder.out_buf().get_ref().capacity(), 0);

    let mut decoded = Vec::new();
    snap::read::FrameDecoder::new(output.written())
        .read_to_end(&mut decoded)
        .unwrap();

    assert_eq!(decoded, input);
}

#[test]
fn test_encode_incompressible_full_block_directly_to_uninitialized_output() {
    let input = incompressible_block();
    let mut input_buffer = PartialBuffer::new(input.as_slice());

    let mut storage = vec![0u8; MAX_FRAME_SIZE];
    let mut output = WriteBuffer::new_uninitialized(&mut storage);
    let mut encoder = SnappyEncoder::new();

    encoder.encode(&mut input_buffer, &mut output).unwrap();

    assert!(input_buffer.unwritten().is_empty());
    assert_eq!(output.initialized_len(), output.written_len());
    assert_eq!(output.written()[STREAM_FRAME.len()], 0x01);
    assert_eq!(encoder.in_buf().get_ref().capacity(), 0);
    assert_eq!(encoder.out_buf().get_ref().capacity(), 0);

    let mut decoded = Vec::new();
    snap::read::FrameDecoder::new(output.written())
        .read_to_end(&mut decoded)
        .unwrap();

    assert_eq!(decoded, input);
}

#[test]
fn test_encode_full_block_directly_to_internal_output() {
    let mut encoder = SnappyEncoder::new();
    let mut encoded = Vec::new();

    {
        let input = vec![0; MAX_BLOCK_SIZE];
        let mut input_buffer = PartialBuffer::new(input.as_slice());
        let mut storage = vec![0u8; STREAM_FRAME.len() + 1];
        let mut output = WriteBuffer::new_uninitialized(&mut storage);

        encoder.encode(&mut input_buffer, &mut output).unwrap();

        assert!(input_buffer.unwritten().is_empty());
        assert_eq!(output.initialized_len(), output.written_len());
        encoded.extend_from_slice(output.written());
    }

    assert_eq!(encoded[STREAM_FRAME.len()], 0x00);
    assert_eq!(encoder.in_buf().get_ref().capacity(), 0);
    assert!(encoder.out_buf().get_ref().capacity() > 0);

    let mut empty_input = PartialBuffer::new(&[][..]);

    {
        let mut storage = vec![0u8; MAX_DATA_FRAME_SIZE];
        let mut output = WriteBuffer::new_uninitialized(&mut storage);

        encoder.encode(&mut empty_input, &mut output).unwrap();

        assert_eq!(output.initialized_len(), output.written_len());
        encoded.extend_from_slice(output.written());
    }

    let mut decoded = Vec::new();
    snap::read::FrameDecoder::new(encoded.as_slice())
        .read_to_end(&mut decoded)
        .unwrap();

    assert_eq!(decoded, vec![0; MAX_BLOCK_SIZE]);
}

#[test]
fn test_encode_incompressible_full_block_directly_to_internal_output() {
    let expected = incompressible_block();
    let mut encoder = SnappyEncoder::new();
    let mut encoded = Vec::new();

    {
        let input = expected.clone();
        let mut input_buffer = PartialBuffer::new(input.as_slice());
        let mut storage = vec![0u8; STREAM_FRAME.len() + 1];
        let mut output = WriteBuffer::new_uninitialized(&mut storage);

        encoder.encode(&mut input_buffer, &mut output).unwrap();

        assert!(input_buffer.unwritten().is_empty());
        assert_eq!(output.initialized_len(), output.written_len());
        encoded.extend_from_slice(output.written());
    }

    assert_eq!(encoded[STREAM_FRAME.len()], 0x01);
    assert!(encoder.in_buf().get_ref().capacity() > 0);
    assert!(encoder.out_buf().get_ref().capacity() > 0);

    let mut empty_input = PartialBuffer::new(&[][..]);

    {
        let mut storage = vec![0u8; MAX_DATA_FRAME_SIZE];
        let mut output = WriteBuffer::new_uninitialized(&mut storage);

        encoder.encode(&mut empty_input, &mut output).unwrap();

        assert_eq!(output.initialized_len(), output.written_len());
        encoded.extend_from_slice(output.written());
    }

    let mut decoded = Vec::new();
    snap::read::FrameDecoder::new(encoded.as_slice())
        .read_to_end(&mut decoded)
        .unwrap();

    assert_eq!(decoded, expected);
}

#[test]
fn test_encode_owned_full_block_directly_to_output() {
    let mut encoder = SnappyEncoder::new();
    let mut encoded = Vec::new();

    {
        let mut input = PartialBuffer::new(&[][..]);
        let mut storage = vec![0u8; STREAM_FRAME.len() + 1];
        let mut output = WriteBuffer::new_uninitialized(&mut storage);

        encoder.encode(&mut input, &mut output).unwrap();
        encoded.extend_from_slice(output.written());
    }

    {
        let input = vec![0; MAX_BLOCK_SIZE - 1];
        let mut input = PartialBuffer::new(input.as_slice());
        let mut storage: [u8; 0] = [];
        let mut output = WriteBuffer::new_uninitialized(&mut storage);

        encoder.encode(&mut input, &mut output).unwrap();

        assert!(input.unwritten().is_empty());
        assert_eq!(output.written_len(), 0);
        assert_eq!(encoder.out_buf().get_ref().capacity(), 0);
    }

    {
        let input = [0];
        let mut input = PartialBuffer::new(input.as_slice());
        let mut storage = vec![0u8; MAX_DATA_FRAME_SIZE];
        let mut output = WriteBuffer::new_uninitialized(&mut storage);

        encoder.encode(&mut input, &mut output).unwrap();

        assert!(input.unwritten().is_empty());
        assert_eq!(output.initialized_len(), output.written_len());
        encoded.extend_from_slice(output.written());
    }

    assert!(encoder.in_buf().get_ref().is_empty());
    assert_eq!(encoder.out_buf().get_ref().capacity(), 0);

    let mut decoded = Vec::new();
    snap::read::FrameDecoder::new(encoded.as_slice())
        .read_to_end(&mut decoded)
        .unwrap();

    assert_eq!(decoded, vec![0; MAX_BLOCK_SIZE]);
}

#[test]
fn test_flush_owned_partial_block_directly_to_output() {
    let expected = vec![0; MAX_BLOCK_SIZE / 2];
    let mut encoder = SnappyEncoder::new();
    let mut encoded = Vec::new();

    {
        let mut input = PartialBuffer::new(expected.as_slice());
        let mut storage = vec![0u8; STREAM_FRAME.len() + 1];
        let mut output = WriteBuffer::new_uninitialized(&mut storage);

        encoder.encode(&mut input, &mut output).unwrap();

        assert!(input.unwritten().is_empty());
        assert_eq!(output.initialized_len(), output.written_len());
        encoded.extend_from_slice(output.written());
    }

    assert_eq!(encoder.out_buf().get_ref().capacity(), 0);

    let frame_capacity = 8 + snap::raw::max_compress_len(expected.len());

    {
        let mut storage = vec![0u8; frame_capacity];
        let mut output = WriteBuffer::new_uninitialized(&mut storage);

        let flushed = encoder.flush(&mut output).unwrap();

        assert!(flushed);
        assert_eq!(output.initialized_len(), output.written_len());
        encoded.extend_from_slice(output.written());
    }

    assert!(encoder.in_buf().get_ref().is_empty());
    assert_eq!(encoder.out_buf().get_ref().capacity(), 0);
    // Repeated flushes without new input must not emit another frame.
    {
        let mut storage = vec![0u8; 9];
        let mut output = WriteBuffer::new_uninitialized(&mut storage);

        assert!(encoder.flush(&mut output).unwrap());
        assert_eq!(output.written_len(), 0);
    }

    let mut decoded = Vec::new();
    snap::read::FrameDecoder::new(encoded.as_slice())
        .read_to_end(&mut decoded)
        .unwrap();

    assert_eq!(decoded, expected);
}

#[test]
fn test_flush_owned_partial_block_with_short_output() {
    let expected = vec![0; MAX_BLOCK_SIZE / 2];
    let mut encoder = SnappyEncoder::new();
    let mut encoded = Vec::new();

    {
        let mut input = PartialBuffer::new(expected.as_slice());
        let mut storage = vec![0u8; STREAM_FRAME.len() + 1];
        let mut output = WriteBuffer::new_uninitialized(&mut storage);

        encoder.encode(&mut input, &mut output).unwrap();

        assert!(input.unwritten().is_empty());
        encoded.extend_from_slice(output.written());
    }

    let required = 8 + snap::raw::max_compress_len(expected.len());

    {
        let mut storage = vec![0u8; required - 1];
        let mut output = WriteBuffer::new_uninitialized(&mut storage);

        assert!(encoder.flush(&mut output).unwrap());
        assert_eq!(output.initialized_len(), output.written_len());
        encoded.extend_from_slice(output.written());
    }

    assert!(encoder.out_buf().get_ref().capacity() > 0);

    {
        let mut storage: [u8; 0] = [];
        let mut output = WriteBuffer::new_uninitialized(&mut storage);

        assert!(encoder.flush(&mut output).unwrap());
        assert_eq!(output.written_len(), 0);
    }

    let mut decoded = Vec::new();
    snap::read::FrameDecoder::new(encoded.as_slice())
        .read_to_end(&mut decoded)
        .unwrap();

    assert_eq!(decoded, expected);
}

#[test]
fn test_encode_first_frame_one_byte_below_direct_output_boundary() {
    let input = vec![0; MAX_BLOCK_SIZE];
    let mut input_buffer = PartialBuffer::new(input.as_slice());

    let mut storage = vec![0u8; MAX_FRAME_SIZE - 1];
    let mut output = WriteBuffer::new_uninitialized(&mut storage);
    let mut encoder = SnappyEncoder::new();

    encoder.encode(&mut input_buffer, &mut output).unwrap();

    assert!(input_buffer.unwritten().is_empty());
    assert_eq!(output.initialized_len(), output.written_len());
    assert_eq!(encoder.in_buf().get_ref().capacity(), 0);
    assert!(encoder.out_buf().get_ref().capacity() > 0);

    let mut decoded = Vec::new();
    snap::read::FrameDecoder::new(output.written())
        .read_to_end(&mut decoded)
        .unwrap();

    assert_eq!(decoded, input);
}

#[test]
fn test_encode_later_frame_one_byte_below_direct_output_boundary() {
    let mut encoder = SnappyEncoder::new();
    let mut encoded = Vec::new();

    {
        let mut input = PartialBuffer::new(&[][..]);
        let mut storage = vec![0u8; STREAM_FRAME.len() + 1];
        let mut output = WriteBuffer::new_uninitialized(&mut storage);

        encoder.encode(&mut input, &mut output).unwrap();
        encoded.extend_from_slice(output.written());
    }

    {
        let input = vec![0; MAX_BLOCK_SIZE - 1];
        let mut input = PartialBuffer::new(input.as_slice());
        let mut storage: [u8; 0] = [];
        let mut output = WriteBuffer::new_uninitialized(&mut storage);

        encoder.encode(&mut input, &mut output).unwrap();

        assert!(input.unwritten().is_empty());
        assert_eq!(encoder.out_buf().get_ref().capacity(), 0);
    }

    {
        let input = [0];
        let mut input = PartialBuffer::new(input.as_slice());
        let mut storage = vec![0u8; MAX_DATA_FRAME_SIZE - 1];
        let mut output = WriteBuffer::new_uninitialized(&mut storage);

        encoder.encode(&mut input, &mut output).unwrap();

        assert!(input.unwritten().is_empty());
        assert_eq!(output.initialized_len(), output.written_len());
        encoded.extend_from_slice(output.written());
    }

    assert!(encoder.out_buf().get_ref().capacity() > 0);

    let mut decoded = Vec::new();
    snap::read::FrameDecoder::new(encoded.as_slice())
        .read_to_end(&mut decoded)
        .unwrap();

    assert_eq!(decoded, vec![0; MAX_BLOCK_SIZE]);
}
