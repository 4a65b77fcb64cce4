//! The streaming encoder.
use vstd::prelude::*;

use crate::buffer::{lemma_advanced_twice, lemma_extended_twice, PartialBuffer, WriteBuffer};
use crate::codec::EncodeV2;
use crate::format::{
    chunk_type_of, frame, frame_prefix, ChunkType, MAX_BLOCK_SIZE, MAX_DATA_FRAME_SIZE,
    STREAM_FRAME,
};
use crate::frame::{clear_for_reuse, compress_into, spare_len, write_frame, Chunk, EncodeError};
use crate::model::{
    block_step, drained, encoded, encodes_at_once, flush_step, flushed, flushes_at_once,
    frame_step, min, EncoderView, Phase,
};
use crate::progress::{
    encoding, flushing, lemma_at_once_block, lemma_at_once_start, lemma_encoding_block,
    lemma_encoding_drain, lemma_encoding_flushed, lemma_encoding_identifier, lemma_encoding_start,
    lemma_flushing_block, lemma_flushing_done, lemma_flushing_drain, lemma_flushing_identifier,
    lemma_flushing_start,
};
use crate::raw::raw_compressed;

verus! {

#[derive(Debug)]
enum State {
    /// The stream identifier still has bytes to write.
    InitStream(PartialBuffer<[u8; 10]>),
    /// Accumulating caller input until a full block or flush.
    Buffering,
    /// Draining a pending uncompressed frame (the payload is owned by `in_buf`).
    UncompressCopy(PartialBuffer<[u8; 8]>),
    /// Draining a pending compressed frame (the payload is owned by `out_buf`).
    CompressCopy(PartialBuffer<[u8; 8]>),
    /// All pending data emitted; new input returns to `Buffering`.
    Flushed,
}

impl Chunk {
    /// The state in which this chunk is drained: compressed payloads drain from `out_buf`,
    /// uncompressed payloads drain from `in_buf`.
    fn pending_state(&self) -> (state: State)
        ensures
            match self.chunk_type {
                ChunkType::Compressed => state matches State::CompressCopy(header)
                    && header.wf() && header.rest() == self.header@,
                ChunkType::Uncompressed => state matches State::UncompressCopy(header)
                    && header.wf() && header.rest() == self.header@,
            },
    {
        match self.chunk_type {
            ChunkType::Compressed => State::CompressCopy(PartialBuffer::new(self.header)),
            ChunkType::Uncompressed => State::UncompressCopy(PartialBuffer::new(self.header)),
        }
    }
}

/// Passes on what is left of a frame, header first, and returns whether nothing is left.
fn write_frame_parts(
    header: &mut PartialBuffer<[u8; 8]>,
    payload: &mut PartialBuffer<Vec<u8>>,
    output: &mut WriteBuffer<'_>,
) -> (done: bool)
    requires
        old(header).wf(),
        old(payload).wf(),
        old(output).wf(),
    ensures
        ({
            let n = min(old(output).spare(), old(header).rest().len() as int);
            let m = min(old(output).spare() - n, old(payload).rest().len() as int);
            &&& old(header).advanced(n, final(header))
            &&& old(payload).advanced(m, final(payload))
            &&& old(output).extended(
                old(header).rest().take(n) + old(payload).rest().take(m),
                final(output),
            )
            &&& done <==> n == old(header).rest().len() && m == old(payload).rest().len()
        }),
        final(final(output).buffer)@ == final(old(output).buffer)@,
{
    let ghost h = header.rest();
    let ghost p = payload.rest();
    assert(p.skip(0) =~= p);
    if !header.unwritten().is_empty() {
        output.copy_unwritten_from(header);
        if !header.unwritten().is_empty() {
            return false;
        }
    }
    assert(h.take(h.len() as int) =~= h);
    assert(old(output).extended(h, &*output));

    if !payload.unwritten().is_empty() {
        let ghost mid_output = *output;
        output.copy_unwritten_from(payload);
        proof {
            let m = min(mid_output.spare(), p.len() as int);
            lemma_extended_twice(old(output), &mid_output, &*output, h, p.take(m));
        }
        payload.unwritten().is_empty()
    } else {
        true
    }
}

/// Passing on two parts, one behind the other, is passing on the two joined.
proof fn lemma_joined(h: Seq<u8>, p: Seq<u8>, spare: int)
    requires
        spare >= 0,
    ensures
        ({
            let n = min(spare, h.len() as int);
            let m = min(spare - n, p.len() as int);
            let k = min(spare, (h + p).len() as int);
            &&& h.take(n) + p.take(m) == (h + p).take(k)
            &&& h.skip(n) + p.skip(m) == (h + p).skip(k)
            &&& n == h.len() && m == p.len() <==> k == (h + p).len()
        }),
{
    let n = min(spare, h.len() as int);
    let m = min(spare - n, p.len() as int);
    let k = min(spare, (h + p).len() as int);
    assert(h.take(n) + p.take(m) =~= (h + p).take(k));
    assert(h.skip(n) + p.skip(m) =~= (h + p).skip(k));
}

/// Passes on what is left of the stream identifier. Returns whether the encoder may go on: there
/// was nothing left, or room is left behind it.
fn write_stream_identifier(buffer: &mut PartialBuffer<[u8; 10]>, output: &mut WriteBuffer<'_>) -> (
    go_on: bool)
    requires
        old(buffer).wf(),
        old(output).wf(),
    ensures
        ({
            let n = min(old(output).spare(), old(buffer).rest().len() as int);
            &&& old(buffer).advanced(n, final(buffer))
            &&& old(output).extended(old(buffer).rest().take(n), final(output))
        }),
        go_on <==> old(buffer).rest().len() == 0 || old(buffer).rest().len() < old(
            output,
        ).spare(),
        final(final(output).buffer)@ == final(old(output).buffer)@,
{
    if !buffer.unwritten().is_empty() {
        output.copy_unwritten_from(buffer);
        if output.has_no_spare_space() {
            return false;
        }
    } else {
        assert(old(buffer).rest().skip(0) =~= old(buffer).rest());
    }
    true
}

/// Encodes a stream of bytes to the Snappy framing format, over as many calls as its input and
/// the room for its output take.
#[derive(Debug)]
pub struct SnappyEncoder {
    state: State,
    in_buf: PartialBuffer<Vec<u8>>,
    out_buf: PartialBuffer<Vec<u8>>,
}

impl View for SnappyEncoder {
    type V = EncoderView;

    closed spec fn view(&self) -> EncoderView {
        match self.state {
            State::InitStream(identifier) => EncoderView {
                phase: Phase::Identifier,
                pending: identifier.rest(),
                block: self.in_buf.source()@,
            },
            State::Buffering => EncoderView {
                phase: Phase::Buffering,
                pending: Seq::empty(),
                block: self.in_buf.source()@,
            },
            State::UncompressCopy(header) => EncoderView {
                phase: Phase::Draining,
                pending: header.rest() + self.in_buf.rest(),
                block: Seq::empty(),
            },
            State::CompressCopy(header) => EncoderView {
                phase: Phase::Draining,
                pending: header.rest() + self.out_buf.rest(),
                block: Seq::empty(),
            },
            State::Flushed => EncoderView {
                phase: Phase::Flushed,
                pending: Seq::empty(),
                block: self.in_buf.source()@,
            },
        }
    }
}

impl SnappyEncoder {
    /// The parts of the encoder fit together: neither buffer ever holds more than a block, and the
    /// output buffer holds nothing but a compressed payload that is drained.
    spec fn parts_wf(&self) -> bool {
        &&& self.in_buf.wf()
        &&& self.out_buf.wf()
        &&& self.in_buf.source()@.len() <= MAX_BLOCK_SIZE
        &&& self.out_buf.source()@.len() <= MAX_BLOCK_SIZE
        &&& !(self.state is CompressCopy) ==> self.out_buf.source()@.len() == 0
        &&& match self.state {
            State::InitStream(identifier) => {
                &&& identifier.wf()
                &&& identifier.source() == STREAM_FRAME
                &&& self.in_buf.source()@.len() == 0
            },
            State::Buffering => {
                &&& self.in_buf.position() == 0
                &&& self.in_buf.source()@.len() < MAX_BLOCK_SIZE
            },
            State::UncompressCopy(header) => header.wf(),
            State::CompressCopy(header) => header.wf(),
            State::Flushed => self.in_buf.source()@.len() == 0,
        }
    }

    /// All of the frame for `block` waits to be drained: its header and checksum in the state, its
    /// payload in the buffer from which that drains.
    spec fn stages(&self, block: Seq<u8>) -> bool {
        let compressed = raw_compressed(block);
        let prefix = frame_prefix(block, compressed.len() as int);
        match self.state {
            State::UncompressCopy(header) => {
                &&& chunk_type_of(block.len() as int, compressed.len() as int) is Uncompressed
                &&& header.rest() == prefix
                &&& header.rest().len() == 8
                &&& self.in_buf.rest() == block
            },
            State::CompressCopy(header) => {
                &&& chunk_type_of(block.len() as int, compressed.len() as int) is Compressed
                &&& header.rest() == prefix
                &&& header.rest().len() == 8
                &&& self.out_buf.rest() == compressed
            },
            _ => false,
        }
    }

    /// A frame that waits to be drained is pending.
    proof fn lemma_stages(&self, block: Seq<u8>)
        requires
            self.stages(block),
        ensures
            self@ == (EncoderView {
                phase: Phase::Draining,
                pending: frame(block),
                block: Seq::empty(),
            }),
    {
    }

    /// Writes the frame for `block`, a whole one with no input gathered before it, where there is
    /// room for any frame, else stages it.
    fn frame_input(&mut self, block: &[u8], output: &mut WriteBuffer<'_>) -> (r: Result<
        (),
        EncodeError,
    >)
        requires
            old(self).parts_wf(),
            old(self).state is Buffering,
            old(self)@.block.len() == 0,
            block@.len() == MAX_BLOCK_SIZE,
            old(output).wf(),
        ensures
            final(self).parts_wf(),
            r is Ok,
            frame_step(
                final(self)@,
                block@,
                old(output).spare(),
                final(output)@.skip(old(output)@.len() as int),
            ),
            if final(self)@.phase is Draining {
                final(self).stages(block@)
            } else {
                *final(self) == *old(self)
            },
            old(output).extended(final(output)@.skip(old(output)@.len() as int), final(output)),
            final(final(output).buffer)@ == final(old(output).buffer)@,
    {
        if spare_len(output) >= MAX_DATA_FRAME_SIZE {
            write_frame(block, output)?;
            assert(output@.skip(old(output)@.len() as int) =~= frame(block@));
            assert(self@.block =~= Seq::empty());
        } else {
            let chunk = compress_into(&mut self.out_buf, block)?;
            // A payload that stays as it is drains from the input buffer.
            if let ChunkType::Uncompressed = chunk.chunk_type {
                self.in_buf.get_mut().extend_from_slice(block);
                assert(self.in_buf.source()@ =~= block@);
                assert(block@.skip(0) =~= block@);
            }
            self.state = chunk.pending_state();
            assert(self.out_buf.source()@.skip(0) =~= self.out_buf.source()@);
            proof {
                self.lemma_stages(block@);
            }
            assert(output@.skip(old(output)@.len() as int) =~= Seq::empty());
        }
        Ok(())
    }

    /// Writes the frame for the input gathered, a whole block, where there is room for any frame,
    /// else stages it.
    fn frame_gathered(&mut self, output: &mut WriteBuffer<'_>) -> (r: Result<(), EncodeError>)
        requires
            old(self).in_buf.wf(),
            old(self).in_buf.position() == 0,
            old(self).in_buf.source()@.len() == MAX_BLOCK_SIZE,
            old(self).out_buf.wf(),
            old(self).out_buf.source()@.len() == 0,
            old(self).state is Buffering,
            old(output).wf(),
        ensures
            final(self).parts_wf(),
            r is Ok,
            frame_step(
                final(self)@,
                old(self)@.block,
                old(output).spare(),
                final(output)@.skip(old(output)@.len() as int),
            ),
            if final(self)@.phase is Draining {
                final(self).stages(old(self)@.block)
            } else {
                final(self).out_buf == old(self).out_buf
            },
            old(output).extended(final(output)@.skip(old(output)@.len() as int), final(output)),
            final(final(output).buffer)@ == final(old(output).buffer)@,
    {
        let ghost block = self@.block;
        if spare_len(output) >= MAX_DATA_FRAME_SIZE {
            write_frame(self.in_buf.get_ref().as_slice(), output)?;
            clear_for_reuse(&mut self.in_buf);
            assert(output@.skip(old(output)@.len() as int) =~= frame(block));
        } else {
            let chunk = compress_into(&mut self.out_buf, self.in_buf.get_ref().as_slice())?;
            self.state = chunk.pending_state();
            assert(block.skip(0) =~= block);
            assert(self.out_buf.source()@.skip(0) =~= self.out_buf.source()@);
            proof {
                self.lemma_stages(block);
            }
            assert(output@.skip(old(output)@.len() as int) =~= Seq::empty());
        }
        Ok(())
    }

    /// Makes one unit of progress from `Buffering`. Emits or stages at most one
    /// block, or accumulates caller input. Returns `false` when more input is
    /// needed before another frame can be produced.
    fn encode_block(&mut self, input: &mut PartialBuffer<&[u8]>, output: &mut WriteBuffer<'_>) -> (
        r: Result<bool, EncodeError>)
        requires
            old(self).parts_wf(),
            old(self).state is Buffering,
            old(input).wf(),
            old(output).wf(),
        ensures
            final(self).parts_wf(),
            r is Ok,
            r matches Ok(framed) ==> block_step(
                old(self)@,
                final(self)@,
                old(input).rest(),
                final(input).position() - old(input).position(),
                old(output).spare(),
                final(output)@.skip(old(output)@.len() as int),
                framed,
            ),
            if final(self)@.phase is Draining {
                final(self).stages(
                    old(self)@.block + old(input).rest().take(
                        MAX_BLOCK_SIZE - old(self)@.block.len(),
                    ),
                )
            } else {
                final(self).out_buf == old(self).out_buf
            },
            r matches Ok(framed) ==> framed && !(final(self)@.phase is Draining) && old(
                self,
            )@.block.len() == 0 ==> *final(self) == *old(self),
            old(input).rest().len() == 0 ==> *final(self) == *old(self),
            old(input).advanced(final(input).position() - old(input).position(), final(input)),
            old(output).extended(final(output)@.skip(old(output)@.len() as int), final(output)),
            final(final(output).buffer)@ == final(old(output).buffer)@,
    {
        let ghost avail = input.rest();

        // A whole block of input, with none gathered before it, is framed where it stands.
        if self.in_buf.get_ref().is_empty() && input.unwritten().len() >= MAX_BLOCK_SIZE {
            let block = vstd::slice::slice_subrange(input.unwritten(), 0, MAX_BLOCK_SIZE);
            self.frame_input(block, output)?;
            input.advance(MAX_BLOCK_SIZE);
            return Ok(true);
        }
        let unwritten = input.unwritten();
        if unwritten.is_empty() {
            assert(old(self)@.block + avail =~= old(self)@.block);
            assert(avail.skip(0) =~= avail);
            assert(output@.skip(old(output)@.len() as int) =~= Seq::empty());
            return Ok(false);
        }
        let in_buf = self.in_buf.get_mut();
        let available: usize = MAX_BLOCK_SIZE - in_buf.len();
        in_buf.reserve(available);
        let boundary: usize = if available < unwritten.len() {
            available
        } else {
            unwritten.len()
        };
        in_buf.extend_from_slice(vstd::slice::slice_subrange(unwritten, 0, boundary));
        input.advance(boundary);
        assert(self.in_buf.source()@ =~= old(self)@.block + avail.take(boundary as int));

        if self.in_buf.get_ref().len() < MAX_BLOCK_SIZE {
            assert(avail.take(boundary as int) =~= avail);
            assert(output@.skip(old(output)@.len() as int) =~= Seq::empty());
            return Ok(false);
        }
        self.frame_gathered(output)?;
        Ok(true)
    }

    /// Makes the frame for the input gathered, even if that is none: writes it where there is room
    /// to make it there, else stages it.
    fn flush_block(&mut self, output: &mut WriteBuffer<'_>) -> (r: Result<(), EncodeError>)
        requires
            old(self).parts_wf(),
            old(self).state is Buffering,
            old(output).wf(),
        ensures
            final(self).parts_wf(),
            r is Ok,
            flush_step(
                old(self)@,
                final(self)@,
                old(output).spare(),
                final(output)@.skip(old(output)@.len() as int),
            ),
            if final(self)@.phase is Draining {
                final(self).stages(old(self)@.block)
            } else {
                final(self).out_buf == old(self).out_buf
            },
            old(output).extended(final(output)@.skip(old(output)@.len() as int), final(output)),
            final(final(output).buffer)@ == final(old(output).buffer)@,
    {
        let in_buf = self.in_buf.unwritten();
        let required_capacity: usize = 8 + snap::raw::max_compress_len(in_buf.len());
        let output_spare: usize = spare_len(output);
        let ghost block = self@.block;
        assert(in_buf@ =~= block);
        if output_spare >= required_capacity {
            write_frame(in_buf, output)?;
            clear_for_reuse(&mut self.in_buf);
            self.state = State::Flushed;
            assert(output@.skip(old(output)@.len() as int) =~= frame(block));
        } else {
            let chunk = compress_into(&mut self.out_buf, in_buf)?;
            self.state = chunk.pending_state();
            assert(self.out_buf.source()@.skip(0) =~= self.out_buf.source()@);
            proof {
                self.lemma_stages(block);
            }
            assert(output@.skip(old(output)@.len() as int) =~= Seq::empty());
        }
        Ok(())
    }

    /// Drains the stream identifier into `output`, and goes over to `Buffering` once it is fully
    /// written. Returns whether room is left behind it.
    fn write_pending_identifier(&mut self, output: &mut WriteBuffer<'_>) -> (go_on: bool)
        requires
            old(self).parts_wf(),
            old(self)@.valid(),
            old(self)@.phase is Identifier,
            old(output).wf(),
        ensures
            final(self).parts_wf(),
            final(self)@ == old(self)@.past_identifier(old(output).spare()),
            final(self).in_buf == old(self).in_buf,
            final(self).out_buf == old(self).out_buf,
            go_on <==> !old(self)@.held_up(old(output).spare()),
            old(output).extended(
                old(self)@.pending.take(min(old(output).spare(), old(self)@.pending.len() as int)),
                final(output),
            ),
            final(final(output).buffer)@ == final(old(output).buffer)@,
    {
        let (go_on, written): (bool, bool) = match &mut self.state {
            State::InitStream(buffer) => {
                let go_on: bool = write_stream_identifier(buffer, output);
                (go_on, buffer.unwritten().is_empty())
            },
            _ => vstd::pervasive::unreached(),
        };
        if written {
            self.state = State::Buffering;
            assert(old(self)@.pending.skip(old(self)@.pending.len() as int) =~= Seq::empty());
        }
        go_on
    }

    /// Drains the pending frame (header + payload) into `output`.
    ///
    /// Returns `true` once the frame is fully written. Both owned buffers are
    /// then cleared for reuse. The caller decides the next state.
    fn write_pending_frame(&mut self, output: &mut WriteBuffer<'_>) -> (done: bool)
        requires
            old(self).parts_wf(),
            old(self)@.phase is Draining,
            old(output).wf(),
        ensures
            final(self).parts_wf(),
            drained(
                old(self)@,
                final(self)@,
                old(output).spare(),
                old(self)@.pending.take(min(old(output).spare(), old(self)@.pending.len() as int)),
                done,
            ),
            old(output).extended(
                old(self)@.pending.take(min(old(output).spare(), old(self)@.pending.len() as int)),
                final(output),
            ),
            final(self).state is CompressCopy <==> old(self).state is CompressCopy,
            final(self).state is UncompressCopy <==> old(self).state is UncompressCopy,
            final(self).header_left() == old(self).header_left().skip(
                min(old(output).spare(), old(self).header_left().len() as int),
            ),
            done ==> final(self).in_buf.source()@ == Seq::<u8>::empty(),
            done ==> final(self).out_buf.source()@ == Seq::<u8>::empty(),
            !done ==> final(self).in_buf.source() == old(self).in_buf.source(),
            !done ==> final(self).out_buf.source() == old(self).out_buf.source(),
            final(final(output).buffer)@ == final(old(output).buffer)@,
    {
        proof {
            match &self.state {
                State::UncompressCopy(header) => {
                    lemma_joined(header.rest(), self.in_buf.rest(), output.spare());
                },
                State::CompressCopy(header) => {
                    lemma_joined(header.rest(), self.out_buf.rest(), output.spare());
                },
                _ => {},
            }
        }
        let done: bool = match &mut self.state {
            State::UncompressCopy(header) => write_frame_parts(header, &mut self.in_buf, output),
            State::CompressCopy(header) => write_frame_parts(header, &mut self.out_buf, output),
            _ => vstd::pervasive::unreached(),
        };
        if done {
            clear_for_reuse(&mut self.in_buf);
            clear_for_reuse(&mut self.out_buf);
        }
        done
    }
}

impl Default for SnappyEncoder {
    fn default() -> (r: Self)
        ensures
            r.wf(),
            r@ == (EncoderView {
                phase: Phase::Identifier,
                pending: STREAM_FRAME@,
                block: Seq::empty(),
            }),
            r.gathering().source()@ == Seq::<u8>::empty(),
            r.staging().source()@ == Seq::<u8>::empty(),
    {
        SnappyEncoder {
            state: State::InitStream(PartialBuffer::new(STREAM_FRAME)),
            in_buf: PartialBuffer::new(Vec::new()),
            out_buf: PartialBuffer::new(Vec::new()),
        }
    }
}

impl SnappyEncoder {
    /// A new encoder, with the stream identifier to write.
    pub fn new() -> (r: Self)
        ensures
            r.wf(),
            r@ == (EncoderView {
                phase: Phase::Identifier,
                pending: STREAM_FRAME@,
                block: Seq::empty(),
            }),
            r.gathering().source()@ == Seq::<u8>::empty(),
            r.staging().source()@ == Seq::<u8>::empty(),
    {
        Self::default()
    }

    /// The buffer that input is gathered in.
    pub closed spec fn gathering(&self) -> PartialBuffer<Vec<u8>> {
        self.in_buf
    }

    /// The buffer that blocks are compressed to where the output has no room for it.
    pub closed spec fn staging(&self) -> PartialBuffer<Vec<u8>> {
        self.out_buf
    }

    /// The buffer that input is gathered in. Between frames it holds the input that no frame has
    /// been made of yet.
    pub fn in_buf(&self) -> (buf: &PartialBuffer<Vec<u8>>)
        requires
            self.wf(),
        ensures
            *buf == self.gathering(),
            buf.wf(),
            buf.source()@.len() <= MAX_BLOCK_SIZE,
            !(self@.phase is Draining) ==> buf.source()@ == self@.block && buf.position() == 0,
    {
        &self.in_buf
    }

    /// The buffer that blocks are compressed to where the output has no room for it.
    pub fn out_buf(&self) -> (buf: &PartialBuffer<Vec<u8>>)
        requires
            self.wf(),
        ensures
            *buf == self.staging(),
            buf.wf(),
            buf.source()@.len() <= MAX_BLOCK_SIZE,
            !(self@.phase is Draining) ==> buf.source()@ == Seq::<u8>::empty(),
    {
        &self.out_buf
    }

    /// Whether the frame on its way out is a compressed one.
    pub closed spec fn drains_compressed(&self) -> bool {
        self.state is CompressCopy
    }

    /// What is left of the header and checksum of the frame on its way out.
    pub closed spec fn header_left(&self) -> Seq<u8> {
        match self.state {
            State::UncompressCopy(header) => header.rest(),
            State::CompressCopy(header) => header.rest(),
            _ => Seq::empty(),
        }
    }

    /// What the two buffers of an encoder hold. Neither ever holds more than a block. The one that
    /// does not gather input holds nothing but a compressed payload that is drained. Unless a frame
    /// is on its way out, the first holds the input gathered, none of it passed on. While one is,
    /// what is left of it is what is left of its header and of its payload, which is in the one
    /// buffer or the other. So no more is ever pending than the frame for a block can be long, and
    /// at first no more than the stream identifier.
    pub proof fn law_buffers(&self)
        requires
            self.wf(),
        ensures
            self@.valid(),
            self.gathering().wf(),
            self.staging().wf(),
            self.gathering().source()@.len() <= MAX_BLOCK_SIZE,
            self.staging().source()@.len() <= MAX_BLOCK_SIZE,
            self.header_left().len() <= 8,
            self@.pending.len() <= 8 + MAX_BLOCK_SIZE,
            self@.phase is Identifier ==> self@.pending.len() <= STREAM_FRAME@.len(),
            self.drains_compressed() ==> self@.phase is Draining,
            !self.drains_compressed() ==> self.staging().source()@ == Seq::<u8>::empty(),
            !(self@.phase is Draining) ==> self.gathering().source()@ == self@.block
                && self.gathering().position() == 0,
            self@.phase is Draining ==> self@.pending == self.header_left() + (
            if self.drains_compressed() {
                self.staging().rest()
            } else {
                self.gathering().rest()
            }),
    {
    }
}

impl EncodeV2 for SnappyEncoder {
    closed spec fn wf(&self) -> bool {
        self.parts_wf() && self@.valid()
    }

    /// Encodes as much of `input` as `output` has room for. Never fails.
    fn encode(
        &mut self,
        input: &mut PartialBuffer<&[u8]>,
        output: &mut WriteBuffer<'_>,
    ) -> (r: Result<(), EncodeError>)
        ensures
            r is Ok,
            final(self)@.valid(),
            encoded(
                old(self)@,
                final(self)@,
                old(input).rest(),
                final(input).position() - old(input).position(),
                old(output).spare(),
                final(output)@.skip(old(output)@.len() as int),
            ),
            old(self)@.phase is Flushed && old(input).rest().len() == 0 ==> *final(self) == *old(
                self,
            ),
            ({
                let n = final(input).position() - old(input).position();
                encodes_at_once(old(self)@, old(input).rest(), n, old(output).spare()) ==> {
                    &&& final(self).staging() == old(self).staging()
                    &&& n == 0 || old(self)@.block.len() == 0 && final(self)@.block.len() == 0
                        ==> final(self).gathering() == old(self).gathering()
                }
            }),
            old(input).advanced(final(input).position() - old(input).position(), final(input)),
            old(output).extended(final(output)@.skip(old(output)@.len() as int), final(output)),
            final(final(output).buffer)@ == final(old(output).buffer)@,
    {
        let ghost o = self@;
        let ghost avail = input.rest();
        let ghost room = output.spare();
        let ghost mut n: int = 0;
        let ghost mut w = Seq::<u8>::empty();
        proof {
            lemma_encoding_start(o, avail, room);
            lemma_at_once_start(o, avail, room);
            assert(avail.skip(0) =~= avail);
        }
        loop
            invariant
                self.wf(),
                o == old(self)@,
                avail == old(input).rest(),
                room == old(output).spare(),
                old(input).wf(),
                old(output).wf(),
                old(input).advanced(n, &*input),
                old(output).extended(w, &*output),
                final(output.buffer)@ == final(old(output).buffer)@,
                encoding(o, self@, avail, n, room, w),
                self@.phase is Flushed ==> *self == *old(self),
                o.phase is Flushed && avail.len() == 0 ==> self@.phase is Flushed,
                self@.phase is Draining ==> !encodes_at_once(o, avail, n, room),
                encodes_at_once(o, avail, n, room) ==> {
                    &&& self.out_buf == old(self).out_buf
                    &&& n == 0 || o.block.len() == 0 ==> self.in_buf == old(self).in_buf
                },
            decreases
                input.rest().len(),
                match self@.phase {
                    Phase::Buffering => 0int,
                    _ => 1,
                },
        {
            let ghost cur = self@;
            let ghost mid_input = *input;
            let ghost mid_output = *output;
            match &self.state {
                State::InitStream(_) => {
                    let go_on: bool = self.write_pending_identifier(output);
                    proof {
                        let more = cur.pending.take(min(room, cur.pending.len() as int));
                        lemma_encoding_identifier(o, cur, avail, n, room, w);
                        lemma_at_once_start(o, avail, room);
                        lemma_extended_twice(old(output), &mid_output, &*output, w, more);
                        w = more;
                    }
                    if !go_on {
                        return Ok(());
                    }
                },
                State::Buffering => {
                    let framed: bool = self.encode_block(input, output)?;
                    proof {
                        let m = input.position() - mid_input.position();
                        let more = output@.skip(mid_output@.len() as int);
                        lemma_encoding_block(o, cur, self@, avail, n, m, room, w, more, framed);
                        lemma_at_once_block(o, cur, self@, avail, n, m, room, w, more, framed);
                        lemma_extended_twice(old(output), &mid_output, &*output, w, more);
                        lemma_advanced_twice(old(input), &mid_input, &*input, n, m);
                        n = n + m;
                        w = w + more;
                    }
                    if !framed {
                        return Ok(());
                    }
                },
                State::UncompressCopy(_) | State::CompressCopy(_) => {
                    let done: bool = self.write_pending_frame(output);
                    proof {
                        let more = cur.pending.take(
                            min(mid_output.spare(), cur.pending.len() as int),
                        );
                        lemma_encoding_drain(o, cur, self@, avail, n, room, w, more, done);
                        lemma_extended_twice(old(output), &mid_output, &*output, w, more);
                        w = w + more;
                    }
                    if !done {
                        return Ok(());
                    }
                    self.state = State::Buffering;
                },
                State::Flushed => {
                    proof {
                        lemma_encoding_flushed(o, cur, avail, n, room, w);
                        lemma_extended_twice(old(output), &mid_output, &*output, w, Seq::empty());
                    }
                    if input.unwritten().is_empty() {
                        return Ok(());
                    }
                    self.state = State::Buffering;
                },
            }
        }
    }

    /// Writes out all that has been encoded. Returns whether that is done. Never fails.
    fn flush(&mut self, output: &mut WriteBuffer<'_>) -> (r: Result<bool, EncodeError>)
        ensures
            final(self)@.valid(),
            r matches Ok(done) && flushed(
                old(self)@,
                final(self)@,
                old(output).spare(),
                final(output)@.skip(old(output)@.len() as int),
                done,
            ),
            old(self)@.phase is Flushed ==> *final(self) == *old(self),
            flushes_at_once(old(self)@, old(output).spare()) ==> final(self).staging() == old(
                self,
            ).staging(),
            old(self)@.held_up(old(output).spare()) ==> final(self).gathering() == old(
                self,
            ).gathering(),
            r matches Ok(done) ==> done ==> {
                &&& final(self).gathering().source()@ == Seq::<u8>::empty()
                &&& final(self).staging().source()@ == Seq::<u8>::empty()
            },
            old(output).extended(final(output)@.skip(old(output)@.len() as int), final(output)),
            final(final(output).buffer)@ == final(old(output).buffer)@,
    {
        let ghost o = self@;
        let ghost room = output.spare();
        let ghost mut w = Seq::<u8>::empty();
        proof {
            lemma_flushing_start(o, room);
        }
        loop
            invariant
                self.wf(),
                o == old(self)@,
                room == old(output).spare(),
                old(output).wf(),
                old(output).extended(w, &*output),
                final(output.buffer)@ == final(old(output).buffer)@,
                flushing(o, self@, room, w),
                o.phase is Flushed ==> *self == *old(self),
                self@.phase is Identifier ==> *self == *old(self),
                self@.phase is Draining ==> !flushes_at_once(o, room),
                flushes_at_once(o, room) ==> self.out_buf == old(self).out_buf,
            decreases
                match self@.phase {
                    Phase::Identifier => 3int,
                    Phase::Buffering => 2,
                    Phase::Draining => 1,
                    Phase::Flushed => 0,
                },
        {
            let ghost cur = self@;
            let ghost mid_output = *output;
            match &self.state {
                State::InitStream(_) => {
                    let go_on: bool = self.write_pending_identifier(output);
                    proof {
                        let more = cur.pending.take(min(room, cur.pending.len() as int));
                        lemma_flushing_identifier(o, cur, room, w);
                        lemma_extended_twice(old(output), &mid_output, &*output, w, more);
                        w = more;
                    }
                    if !go_on {
                        return Ok(false);
                    }
                },
                State::Buffering => {
                    self.flush_block(output)?;
                    proof {
                        let more = output@.skip(mid_output@.len() as int);
                        lemma_flushing_block(o, cur, self@, room, w, more);
                        lemma_extended_twice(old(output), &mid_output, &*output, w, more);
                        w = w + more;
                    }
                },
                State::UncompressCopy(_) | State::CompressCopy(_) => {
                    let done: bool = self.write_pending_frame(output);
                    proof {
                        let more = cur.pending.take(
                            min(mid_output.spare(), cur.pending.len() as int),
                        );
                        lemma_flushing_drain(o, cur, self@, room, w, more, done);
                        lemma_extended_twice(old(output), &mid_output, &*output, w, more);
                        w = w + more;
                    }
                    if !done {
                        return Ok(false);
                    }
                    self.state = State::Flushed;
                },
                State::Flushed => {
                    proof {
                        lemma_flushing_done(o, cur, room, w);
                        lemma_extended_twice(old(output), &mid_output, &*output, w, Seq::empty());
                    }
                    return Ok(true);
                },
            }
        }
    }

    /// Ends the stream, which takes a flush. Returns whether that is done. Never fails.
    fn finish(&mut self, output: &mut WriteBuffer<'_>) -> (r: Result<bool, EncodeError>)
        ensures
            final(self)@.valid(),
            r matches Ok(done) && flushed(
                old(self)@,
                final(self)@,
                old(output).spare(),
                final(output)@.skip(old(output)@.len() as int),
                done,
            ),
            old(self)@.phase is Flushed ==> *final(self) == *old(self),
            flushes_at_once(old(self)@, old(output).spare()) ==> final(self).staging() == old(
                self,
            ).staging(),
            old(self)@.held_up(old(output).spare()) ==> final(self).gathering() == old(
                self,
            ).gathering(),
            r matches Ok(done) ==> done ==> {
                &&& final(self).gathering().source()@ == Seq::<u8>::empty()
                &&& final(self).staging().source()@ == Seq::<u8>::empty()
            },
            old(output).extended(final(output)@.skip(old(output)@.len() as int), final(output)),
            final(final(output).buffer)@ == final(old(output).buffer)@,
    {
        self.flush(output)
    }
}

} // verus!
