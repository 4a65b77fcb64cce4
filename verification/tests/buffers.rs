use snappy_codec::{PartialBuffer, WriteBuffer};

#[test]
fn partial_buffer_moves_and_returns() {
    let mut buffer = PartialBuffer::new(vec![1u8, 2, 3]);
    buffer.advance(2);
    assert_eq!(buffer.unwritten(), [3]);
    buffer.get_mut().push(4);
    assert_eq!(buffer.unwritten(), [3, 4]);
    buffer.reset();
    assert_eq!(buffer.unwritten(), [1, 2, 3, 4]);
    assert_eq!(buffer.get_ref().len(), 4);
}

#[test]
fn copy_passes_on_what_fits() {
    let mut source = PartialBuffer::new([1u8, 2, 3, 4, 5]);
    let mut storage = [0u8; 3];
    let mut output = WriteBuffer::new_uninitialized(&mut storage);
    assert_eq!(output.copy_unwritten_from(&mut source), 3);
    assert!(output.has_no_spare_space());
    assert_eq!(output.copy_unwritten_from(&mut source), 0);
    assert_eq!(output.written(), [1, 2, 3]);
    assert_eq!(source.unwritten(), [4, 5]);
    assert_eq!(storage, [1, 2, 3]);

    let mut storage = [9u8; 4];
    let mut output = WriteBuffer::new_initialized(&mut storage);
    assert_eq!(output.copy_unwritten_from(&mut source), 2);
    assert_eq!(output.written_len(), 2);
    assert_eq!(output.initialized_len(), 4);
    assert_eq!(storage, [4, 5, 9, 9]);
}
