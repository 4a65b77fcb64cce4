use snappy_codec::{
    write_frame, EncodeV2, PartialBuffer, SnappyEncoder, WriteBuffer, MAX_BLOCK_SIZE, STREAM_FRAME,
};
use std::io::Read;

const EMPTY_FRAME: [u8; 8] = [0x01, 4, 0, 0, 0xd8, 0xea, 0x82, 0xa2];

fn noise(len: usize) -> Vec<u8> {
    let mut state = 0x9e37_79b9_7f4a_7c15_u64;
    (0..len)
        .map(|i| {
            state ^= state << 13;
            state ^= state >> 7;
            state ^= state << 17;
            // Every other block compresses well.
            if (i / MAX_BLOCK_SIZE) % 2 == 0 {
                state as u8
            } else {
                (i / 100) as u8
            }
        })
        .collect()
}

fn decoded(stream: &[u8]) -> Vec<u8> {
    let mut data = Vec::new();
    snap::read::FrameDecoder::new(stream)
        .read_to_end(&mut data)
        .unwrap();
    data
}

/// Offers all of `data`, `cut` bytes at a time, with `room` bytes of room at a time.
fn feed(encoder: &mut SnappyEncoder, data: &[u8], cut: usize, room: usize) -> Vec<u8> {
    let mut stream = Vec::new();
    for piece in data.chunks(cut) {
        let mut input = PartialBuffer::new(piece);
        loop {
            let mut storage = vec![0u8; room];
            let mut output = WriteBuffer::new_uninitialized(&mut storage);
            encoder.encode(&mut input, &mut output).unwrap();
            assert_eq!(output.initialized_len(), output.written_len());
            stream.extend_from_slice(output.written());
            if input.unwritten().is_empty() {
                break;
            }
            assert!(output.has_no_spare_space());
        }
    }
    stream
}

fn drain(encoder: &mut SnappyEncoder, room: usize) -> Vec<u8> {
    let mut stream = Vec::new();
    loop {
        let mut storage = vec![0u8; room];
        let mut output = WriteBuffer::new_uninitialized(&mut storage);
        let done = encoder.finish(&mut output).unwrap();
        stream.extend_from_slice(output.written());
        if done {
            return stream;
        }
        assert!(output.has_no_spare_space());
    }
}

#[test]
fn stream_does_not_depend_on_the_cuts() {
    let data = noise(3 * MAX_BLOCK_SIZE + 1234);
    let mut whole = SnappyEncoder::new();
    let mut expected = feed(&mut whole, &data, data.len(), 400_000);
    assert_eq!(whole.in_buf().get_ref().len(), 1234);
    expected.extend_from_slice(&drain(&mut whole, 400_000));
    assert_eq!(decoded(&expected), data);
    for (cut, room) in [(1000, 77), (MAX_BLOCK_SIZE + 1, 76497), (40_000, 76498)] {
        let mut encoder = SnappyEncoder::new();
        let mut stream = feed(&mut encoder, &data, cut, room);
        stream.extend_from_slice(&drain(&mut encoder, room));
        assert_eq!(stream, expected);
    }
}

#[test]
fn flushed_prefix_decodes() {
    let data = noise(2 * MAX_BLOCK_SIZE);
    let mut encoder = SnappyEncoder::new();
    let mut stream = Vec::new();
    for end in [10, 70_000, data.len()] {
        let start = decoded_len(&stream);
        stream.extend_from_slice(&feed(&mut encoder, &data[start..end], 5000, 100));
        stream.extend_from_slice(&drain(&mut encoder, 13));
        assert_eq!(decoded(&stream), &data[..end]);
    }
}

fn decoded_len(stream: &[u8]) -> usize {
    if stream.is_empty() {
        0
    } else {
        decoded(stream).len()
    }
}

#[test]
fn new_encoder_flushes_an_identifier_and_an_empty_frame() {
    let mut encoder = SnappyEncoder::new();
    let stream = drain(&mut encoder, 50);
    assert_eq!(stream[..10], STREAM_FRAME);
    assert_eq!(stream[10..], EMPTY_FRAME);
    assert_eq!(decoded(&stream), Vec::<u8>::new());
}

#[test]
fn small_input_is_gathered_and_then_stored() {
    let mut encoder = SnappyEncoder::new();
    assert_eq!(feed(&mut encoder, b"123456789", 4, 64), STREAM_FRAME);
    assert_eq!(encoder.in_buf().get_ref().as_slice(), b"123456789");
    let sum = 0xe306_9283_u32.rotate_right(15).wrapping_add(0xa282_ead8);
    let mut expected = vec![0x01, 13, 0, 0];
    expected.extend_from_slice(&sum.to_le_bytes());
    expected.extend_from_slice(b"123456789");
    assert_eq!(drain(&mut encoder, 3), expected);
}

#[test]
fn identifier_that_fills_the_room_holds_input_up() {
    let mut encoder = SnappyEncoder::new();
    let mut input = PartialBuffer::new(&b"abc"[..]);
    {
        let mut storage = [0u8; 4];
        let mut output = WriteBuffer::new_uninitialized(&mut storage);
        encoder.encode(&mut input, &mut output).unwrap();
        assert_eq!(output.written(), &STREAM_FRAME[..4]);
    }
    {
        let mut storage = [0u8; 6];
        let mut output = WriteBuffer::new_uninitialized(&mut storage);
        encoder.encode(&mut input, &mut output).unwrap();
        assert_eq!(output.written(), &STREAM_FRAME[4..]);
        assert_eq!(input.unwritten(), b"abc");
    }
    {
        let mut storage = [0u8; 0];
        let mut output = WriteBuffer::new_uninitialized(&mut storage);
        encoder.encode(&mut input, &mut output).unwrap();
        assert!(input.unwritten().is_empty());
    }
}

#[test]
fn flush_is_held_up_by_the_identifier() {
    let mut encoder = SnappyEncoder::new();
    let mut storage = [0u8; 10];
    let mut output = WriteBuffer::new_uninitialized(&mut storage);
    assert!(!encoder.flush(&mut output).unwrap());
    assert_eq!(output.written(), STREAM_FRAME);
    assert_eq!(drain(&mut encoder, 8), EMPTY_FRAME);
}

#[test]
fn input_stops_behind_a_pending_frame() {
    let data = noise(MAX_BLOCK_SIZE + 500);
    let mut encoder = SnappyEncoder::new();
    let mut input = PartialBuffer::new(data.as_slice());
    let mut storage = [0u8; 20];
    let mut output = WriteBuffer::new_uninitialized(&mut storage);
    encoder.encode(&mut input, &mut output).unwrap();
    assert!(output.has_no_spare_space());
    assert_eq!(input.unwritten().len(), 500);
}

#[test]
fn done_flush_is_done_once() {
    let mut encoder = SnappyEncoder::new();
    feed(&mut encoder, b"abc", 3, 64);
    drain(&mut encoder, 64);
    let mut storage = [0u8; 64];
    let mut output = WriteBuffer::new_uninitialized(&mut storage);
    assert!(encoder.flush(&mut output).unwrap());
    assert!(encoder.finish(&mut output).unwrap());
    let mut nothing = PartialBuffer::new(&[][..]);
    encoder.encode(&mut nothing, &mut output).unwrap();
    assert!(encoder.flush(&mut output).unwrap());
    assert_eq!(output.written_len(), 0);
}

#[test]
fn flush_behind_a_whole_block_adds_an_empty_frame() {
    let data = vec![0u8; MAX_BLOCK_SIZE];
    let mut encoder = SnappyEncoder::new();
    let mut stream = feed(&mut encoder, &data, data.len(), 80_000);
    assert_eq!(drain(&mut encoder, 40), EMPTY_FRAME);
    stream.extend_from_slice(&EMPTY_FRAME);
    assert_eq!(decoded(&stream), data);
}

#[test]
fn flush_of_a_pending_frame_adds_nothing() {
    let data = vec![0u8; MAX_BLOCK_SIZE];
    let mut encoder = SnappyEncoder::new();
    let mut stream = feed(&mut encoder, &data, data.len(), 11);
    stream.extend_from_slice(&drain(&mut encoder, 80_000));
    assert_eq!(decoded(&stream), data);
    assert!(!stream.ends_with(&EMPTY_FRAME));
}

#[test]
fn default_is_new() {
    assert_eq!(
        drain(&mut SnappyEncoder::default(), 100),
        drain(&mut SnappyEncoder::new(), 100)
    );
}

/// An encoder that has written the stream identifier and nothing else.
fn started() -> SnappyEncoder {
    let mut encoder = SnappyEncoder::new();
    let mut storage = [0u8; 11];
    let mut output = WriteBuffer::new_uninitialized(&mut storage);
    encoder
        .encode(&mut PartialBuffer::new(&[][..]), &mut output)
        .unwrap();
    assert_eq!(output.written(), STREAM_FRAME);
    encoder
}

#[test]
fn identifier_that_just_fits_leaves_the_encoder_buffering() {
    let started = format!("{:?}", started());
    assert!(started.contains("Buffering"));
    {
        let mut encoder = SnappyEncoder::new();
        let mut storage = [0u8; 10];
        let mut output = WriteBuffer::new_uninitialized(&mut storage);
        encoder
            .encode(&mut PartialBuffer::new(&b"abc"[..]), &mut output)
            .unwrap();
        assert_eq!(output.written(), STREAM_FRAME);
        assert_eq!(format!("{:?}", encoder), started);
    }
    {
        let mut encoder = SnappyEncoder::new();
        let mut storage = [0u8; 10];
        let mut output = WriteBuffer::new_uninitialized(&mut storage);
        assert!(!encoder.flush(&mut output).unwrap());
        assert_eq!(output.written(), STREAM_FRAME);
        assert_eq!(format!("{:?}", encoder), started);
    }
    {
        let mut encoder = SnappyEncoder::new();
        let mut storage = [0u8; 9];
        let mut output = WriteBuffer::new_uninitialized(&mut storage);
        assert!(!encoder.flush(&mut output).unwrap());
        assert!(format!("{:?}", encoder).contains("InitStream"));
    }
}

#[test]
fn staged_block_comes_out_as_one_written_at_once() {
    for block in [vec![7u8; MAX_BLOCK_SIZE], noise(MAX_BLOCK_SIZE)] {
        let mut direct = started();
        let expected = feed(&mut direct, &block, MAX_BLOCK_SIZE, 76498);
        assert_eq!(direct.out_buf().get_ref().len(), 0);
        for room in [3, 8, 1000] {
            let mut staged = started();
            let mut input = PartialBuffer::new(block.as_slice());
            let mut stream = Vec::new();
            loop {
                let mut storage = vec![0u8; room];
                let mut output = WriteBuffer::new_uninitialized(&mut storage);
                staged.encode(&mut input, &mut output).unwrap();
                assert!(input.unwritten().is_empty());
                stream.extend_from_slice(output.written());
                if !output.has_no_spare_space() {
                    break;
                }
            }
            assert_eq!(stream, expected);
            assert_eq!(staged.in_buf().get_ref().len(), 0);
            assert_eq!(staged.out_buf().get_ref().len(), 0);
        }
    }
}

#[test]
fn staged_payload_is_in_one_buffer_or_the_other() {
    let mut storage = [0u8; 0];
    let mut output = WriteBuffer::new_uninitialized(&mut storage);

    let block = noise(MAX_BLOCK_SIZE);
    let mut stored = started();
    stored
        .encode(&mut PartialBuffer::new(block.as_slice()), &mut output)
        .unwrap();
    assert_eq!(stored.in_buf().unwritten(), block);
    assert_eq!(stored.out_buf().get_ref().len(), 0);

    let block = vec![7u8; MAX_BLOCK_SIZE];
    let mut compressed = started();
    compressed
        .encode(&mut PartialBuffer::new(block.as_slice()), &mut output)
        .unwrap();
    assert_eq!(
        compressed.out_buf().unwritten(),
        snap::raw::Encoder::new().compress_vec(&block).unwrap()
    );
}

#[test]
fn flush_leaves_nothing_in_the_buffers() {
    for room in [7, 400_000] {
        let mut encoder = SnappyEncoder::new();
        feed(&mut encoder, &noise(MAX_BLOCK_SIZE + 5000), 3000, room);
        drain(&mut encoder, room);
        assert_eq!(encoder.in_buf().get_ref().len(), 0);
        assert_eq!(encoder.out_buf().get_ref().len(), 0);
        let done = format!("{:?}", encoder);
        assert_eq!(drain(&mut encoder, room), []);
        assert_eq!(format!("{:?}", encoder), done);
    }
}

#[test]
fn finished_stream_is_settled_by_the_input() {
    let data = noise(2 * MAX_BLOCK_SIZE + 9);
    let mut expected = STREAM_FRAME.to_vec();
    for block in data.chunks(MAX_BLOCK_SIZE) {
        let mut storage = vec![0u8; 76498];
        let mut output = WriteBuffer::new_uninitialized(&mut storage);
        write_frame(block, &mut output).unwrap();
        expected.extend_from_slice(output.written());
    }
    for (cut, room) in [(data.len(), 400_000), (9999, 5), (MAX_BLOCK_SIZE, 76498)] {
        let mut encoder = SnappyEncoder::new();
        let mut stream = feed(&mut encoder, &data, cut, room);
        stream.extend_from_slice(&drain(&mut encoder, room));
        assert_eq!(stream, expected);
    }

    let mut nothing = STREAM_FRAME.to_vec();
    nothing.extend_from_slice(&EMPTY_FRAME);
    assert_eq!(drain(&mut SnappyEncoder::new(), 3), nothing);
}

#[test]
fn pieces_do_not_matter_behind_a_flush() {
    let data = noise(2 * MAX_BLOCK_SIZE + 77);
    let mut streams = Vec::new();
    for (cut, room) in [(data.len(), 400_000), (123, 1000)] {
        let mut encoder = started();
        feed(&mut encoder, b"abc", 3, 100);
        drain(&mut encoder, 100);
        let mut stream = feed(&mut encoder, &data, cut, room);
        assert_eq!(encoder.in_buf().unwritten(), &data[2 * MAX_BLOCK_SIZE..]);
        stream.extend_from_slice(&drain(&mut encoder, room));
        streams.push(stream);
    }
    assert_eq!(streams[0], streams[1]);
}

#[test]
fn writing_at_once_leaves_the_buffers_alone() {
    let data = noise(3 * MAX_BLOCK_SIZE);
    let mut encoder = SnappyEncoder::new();
    feed(&mut encoder, &data, data.len(), 400_000);
    assert_eq!(encoder.in_buf().get_ref().capacity(), 0);
    assert_eq!(encoder.out_buf().get_ref().capacity(), 0);
    feed(&mut encoder, b"abc", 3, 0);
    assert!(encoder.in_buf().get_ref().capacity() >= MAX_BLOCK_SIZE);
    assert_eq!(drain(&mut encoder, 100).len(), 11);
    assert_eq!(encoder.out_buf().get_ref().capacity(), 0);
}

#[test]
fn no_more_than_a_frame_is_pending() {
    for block in [vec![7u8; MAX_BLOCK_SIZE], noise(MAX_BLOCK_SIZE)] {
        let mut encoder = started();
        let mut storage = [0u8; 0];
        let mut output = WriteBuffer::new_uninitialized(&mut storage);
        encoder
            .encode(&mut PartialBuffer::new(block.as_slice()), &mut output)
            .unwrap();
        assert!(encoder.out_buf().unwritten().len() <= MAX_BLOCK_SIZE);
        assert!(drain(&mut encoder, 80_000).len() <= 8 + MAX_BLOCK_SIZE);
    }
}
