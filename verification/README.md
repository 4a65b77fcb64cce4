# snappy_codec

A streaming encoder for the Snappy framing format, verified with Verus.

`SnappyEncoder` is given its input and the room for its output a piece at a time. It cuts the
input into blocks of 64 KiB, compresses each with the `snap` crate, and writes a frame with a
checksum for each. A flush makes a frame of whatever has been gathered.

- `src/format.rs` says what a frame is, `src/crc32c.rs` what its checksum is.
- `src/raw.rs` holds all that is taken on trust: the block compressor of `snap`.
- `src/frame.rs` makes frames; `src/encoder.rs` is the encoder.
- `src/buffer.rs` holds the buffers that are read and filled over several calls.
- `src/model.rs` states what the operations of the encoder do, `src/laws.rs` what follows: that
  a reader gets back from the stream what went into it, that the frames do not depend on how
  input and room are cut up (but for an empty frame that a flush may add behind a whole number of
  blocks), and that the operations use the room they are given.
- `src/progress.rs` holds the steps of the proof that the encoder does what the model says.
- `app/` runs the encoder on uninitialized storage, with the errors of `std::io`.
