//! A streaming encoder for the Snappy framing format.
//!
//! [`SnappyEncoder`] takes its input from a [`PartialBuffer`] and writes to a [`WriteBuffer`], a
//! piece at a time. What its operations do is stated in [`model`], over what [`format`] says a
//! frame is; what follows for whole streams is stated in [`laws`].
pub mod buffer;
pub mod codec;
pub mod crc32c;
pub mod encoder;
pub mod format;
pub mod frame;
pub mod laws;
pub mod model;
pub mod progress;
pub mod raw;

pub use crate::buffer::{AsBytes, PartialBuffer, WriteBuffer};
pub use crate::codec::EncodeV2;
pub use crate::encoder::SnappyEncoder;
pub use crate::format::{
    ChunkType, FrameHeader, MAX_BLOCK_SIZE, MAX_DATA_FRAME_SIZE, MAX_FRAME_SIZE, STREAM_FRAME,
};
pub use crate::frame::{chunk_for, prepare_frame, write_frame, Chunk, EncodeError};
