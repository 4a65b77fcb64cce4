//! What an encoder is seen from outside, and what its operations do to that.
use vstd::prelude::*;

use crate::format::{
    block_at, block_count, block_frames, frame, restorable, MAX_BLOCK_SIZE, MAX_DATA_FRAME_SIZE,
};
use crate::raw::max_compressed_len;

verus! {

/// What an encoder is at.
pub enum Phase {
    /// The stream identifier still has bytes to write.
    Identifier,
    /// Input is gathered.
    Buffering,
    /// A frame is on its way out.
    Draining,
    /// Everything has been written, and a frame boundary asked for.
    Flushed,
}

/// An encoder, seen from outside.
pub struct EncoderView {
    pub phase: Phase,
    /// The bytes of the stream that are settled but not written yet.
    pub pending: Seq<u8>,
    /// The input that no frame has been made of yet.
    pub block: Seq<u8>,
}

impl EncoderView {
    /// What holds of every encoder between two calls.
    pub open spec fn valid(self) -> bool {
        &&& self.block.len() < MAX_BLOCK_SIZE
        &&& self.pending.len() > 0 ==> self.block.len() == 0
        &&& match self.phase {
            Phase::Identifier => self.pending.len() > 0 && self.block.len() == 0,
            Phase::Buffering => self.pending.len() == 0,
            Phase::Draining => self.pending.len() > 0,
            Phase::Flushed => self.pending.len() == 0 && self.block.len() == 0,
        }
    }

    /// What is left of the stream identifier takes up all of `spare` bytes of room.
    pub open spec fn held_up(self, spare: int) -> bool {
        self.phase is Identifier && spare <= self.pending.len()
    }

    /// What becomes of an encoder at the stream identifier where there are `spare` bytes of room
    /// for that.
    pub open spec fn past_identifier(self, spare: int) -> EncoderView {
        EncoderView {
            phase: if spare < self.pending.len() {
                Phase::Identifier
            } else {
                Phase::Buffering
            },
            pending: self.pending.skip(min(spare, self.pending.len() as int)),
            block: self.block,
        }
    }
}

/// The smaller of the two.
pub open spec fn min(a: int, b: int) -> int {
    if a < b {
        a
    } else {
        b
    }
}

/// The frame for the whole block `block` is made, which leads to the view `f`: with `spare` bytes
/// of room, `w` is written.
///
/// That is the frame where there is room for any frame. Otherwise the frame is left pending.
pub open spec fn frame_step(f: EncoderView, block: Seq<u8>, spare: int, w: Seq<u8>) -> bool {
    &&& restorable(block)
    &&& if spare >= MAX_DATA_FRAME_SIZE {
        &&& w == frame(block)
        &&& f == EncoderView {
            phase: Phase::Buffering,
            pending: Seq::empty(),
            block: Seq::empty(),
        }
    } else {
        &&& w == Seq::<u8>::empty()
        &&& f == EncoderView {
            phase: Phase::Draining,
            pending: frame(block),
            block: Seq::empty(),
        }
    }
}

/// One unit of progress from the view `o`, which is buffering, to the view `f`: of the input
/// `avail`, `n` bytes are taken; with `spare` bytes of room, `w` is written.
///
/// Input that does not complete a block is taken in. Input that does is taken as far as that, and
/// the frame for the block is made.
pub open spec fn block_step(
    o: EncoderView,
    f: EncoderView,
    avail: Seq<u8>,
    n: int,
    spare: int,
    w: Seq<u8>,
    framed: bool,
) -> bool {
    let need = MAX_BLOCK_SIZE - o.block.len();
    if avail.len() < need {
        &&& !framed
        &&& n == avail.len()
        &&& w == Seq::<u8>::empty()
        &&& f == EncoderView {
            phase: Phase::Buffering,
            pending: Seq::empty(),
            block: o.block + avail,
        }
    } else {
        &&& framed
        &&& n == need
        &&& frame_step(f, o.block + avail.take(need), spare, w)
    }
}

/// Draining, from the view `o` to the view `f`: with `spare` bytes of room, `w` is written, and
/// `done` tells whether nothing is left pending.
pub open spec fn drained(
    o: EncoderView,
    f: EncoderView,
    spare: int,
    w: Seq<u8>,
    done: bool,
) -> bool {
    let n = min(spare, o.pending.len() as int);
    &&& w == o.pending.take(n)
    &&& f == EncoderView { pending: o.pending.skip(n), ..o }
    &&& done <==> n == o.pending.len()
}

/// Encoding, from the view `o` to the view `f`: of `input`, `n` bytes are taken; with `spare`
/// bytes of room, `w` is written.
///
/// Where the stream identifier takes all the room, no input is taken. Otherwise the bytes
/// pending before and a frame for every block that is complete with the input taken are written
/// in this order, as far as there is room, and what is left of them is pending afterwards. No
/// frame is made while anything is pending, and no input is taken beyond a frame that is left
/// pending. Without one, all input is taken.
pub open spec fn encoded(
    o: EncoderView,
    f: EncoderView,
    input: Seq<u8>,
    n: int,
    spare: int,
    w: Seq<u8>,
) -> bool {
    if o.held_up(spare) {
        &&& n == 0
        &&& w == o.pending.take(spare)
        &&& f == o.past_identifier(spare)
    } else {
        let data = o.block + input.take(n);
        let count = block_count(data);
        &&& 0 <= n <= input.len()
        &&& w + f.pending == o.pending + block_frames(data, count)
        &&& f.block == data.skip(count * MAX_BLOCK_SIZE)
        &&& forall|i: int| 0 <= i < count ==> restorable(#[trigger] block_at(data, i))
        &&& count > 0 ==> o.pending.len() + block_frames(data, count - 1).len() <= spare
        &&& if f.pending.len() > 0 {
            &&& w.len() == spare
            &&& f.block.len() == 0
            &&& f.phase is Draining
        } else {
            &&& w.len() <= spare
            &&& n == input.len()
            &&& f.phase == if o.phase is Flushed && input.len() == 0 {
                Phase::Flushed
            } else {
                Phase::Buffering
            }
        }
    }
}

/// Encoding from the view `o`, with `n` bytes of `input` taken, goes straight to the output: no
/// frame is on its way out, and each one that is made finds room for any frame in what is left of
/// `spare` bytes. Where the stream identifier takes all the room, none is made.
pub open spec fn encodes_at_once(o: EncoderView, input: Seq<u8>, n: int, spare: int) -> bool {
    let data = o.block + input.take(n);
    let count = block_count(data);
    &&& !(o.phase is Draining)
    &&& o.held_up(spare) || count == 0 || o.pending.len() + block_frames(data, count - 1).len()
        + MAX_DATA_FRAME_SIZE <= spare
}

/// What a flush of the view `o` has to write: what is pending and, unless that is a frame
/// already or a flush has been completed, a frame for the input gathered, even if that is none.
pub open spec fn flush_bytes(o: EncoderView) -> Seq<u8> {
    match o.phase {
        Phase::Identifier | Phase::Buffering => o.pending + frame(o.block),
        Phase::Draining | Phase::Flushed => o.pending,
    }
}

/// Flushing, from the view `o` to the view `f`: with `spare` bytes of room, `w` is written, and
/// `done` tells whether nothing is left.
///
/// Where the stream identifier takes all the room, nothing else happens. Otherwise as much is
/// written as there is room for, and the rest is pending afterwards.
pub open spec fn flushed(
    o: EncoderView,
    f: EncoderView,
    spare: int,
    w: Seq<u8>,
    done: bool,
) -> bool {
    if o.held_up(spare) {
        &&& !done
        &&& w == o.pending.take(spare)
        &&& f == o.past_identifier(spare)
    } else {
        let all = flush_bytes(o);
        let n = min(spare, all.len() as int);
        &&& done <==> all.len() <= spare
        &&& w == all.take(n)
        &&& f == EncoderView {
            phase: if done {
                Phase::Flushed
            } else {
                Phase::Draining
            },
            pending: all.skip(n),
            block: Seq::empty(),
        }
        &&& o.phase is Identifier || o.phase is Buffering ==> restorable(o.block)
    }
}

/// A flush of the view `o` goes straight to the output: no frame is on its way out, and the one
/// that is made, if any, finds room to be made in what is left of `spare` bytes. Where the stream
/// identifier takes all the room, none is made.
pub open spec fn flushes_at_once(o: EncoderView, spare: int) -> bool {
    &&& !(o.phase is Draining)
    &&& o.held_up(spare) || o.phase is Flushed || o.pending.len() + 8 + max_compressed_len(
        o.block.len() as int,
    ) <= spare
}

/// The first step of a flush from the view `o`, which is buffering, to the view `f`: with `spare`
/// bytes of room, `w` is written.
///
/// The frame for the input gathered is written where there is room to make it there, else left
/// pending.
pub open spec fn flush_step(o: EncoderView, f: EncoderView, spare: int, w: Seq<u8>) -> bool {
    &&& restorable(o.block)
    &&& if spare >= 8 + max_compressed_len(o.block.len() as int) {
        &&& w == frame(o.block)
        &&& f == EncoderView {
            phase: Phase::Flushed,
            pending: Seq::empty(),
            block: Seq::empty(),
        }
    } else {
        &&& w == Seq::<u8>::empty()
        &&& f == EncoderView {
            phase: Phase::Draining,
            pending: frame(o.block),
            block: Seq::empty(),
        }
    }
}

} // verus!
