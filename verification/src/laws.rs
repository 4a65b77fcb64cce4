//! What holds of an encoder over many calls, and of the streams it writes.
use vstd::prelude::*;

use crate::crc32c::crc32c_of;
use crate::format::{
    block_at, block_count, block_frames, frame, law_frame_layout, restorable, MAX_BLOCK_SIZE,
    MAX_DATA_FRAME_SIZE, MAX_FRAME_SIZE, STREAM_FRAME,
};
use crate::model::{
    block_step, drained, encoded, encodes_at_once, flush_bytes, flush_step, flushed,
    flushes_at_once, EncoderView, Phase,
};
use crate::progress::{lemma_block_frames_extend, lemma_block_frames_len};
use crate::raw::{max_compressed_len, raw_compressed, raw_decompressed};

verus! {

/// The number of which the three bytes from `at` on are the lowest 24 bits.
pub open spec fn read_u24(s: Seq<u8>, at: int) -> int {
    s[at] + 256 * s[at + 1] + 65536 * s[at + 2]
}

/// The number of which the four bytes from `at` on are the bytes, lowest first.
pub open spec fn read_u32(s: Seq<u8>, at: int) -> int {
    s[at] + 256 * s[at + 1] + 65536 * s[at + 2] + 16777216 * s[at + 3]
}

/// The checksum whose masked form is `sum`: less a constant, modulo 2^32, and rotated left by 15
/// bits.
pub open spec fn unmasked(sum: int) -> u32 {
    let rotated = ((sum - 0xa282_ead8) % 0x1_0000_0000) as u32;
    (rotated << 15) | (rotated >> 17)
}

/// The data that a chunk of type `code` with the body `body` stands for, `None` where a reader
/// has to give up on it.
pub open spec fn decode_chunk(code: u8, body: Seq<u8>) -> Option<Seq<u8>> {
    if code == 0x00 || code == 0x01 {
        let data = if code == 0x00 {
            raw_decompressed(body.skip(4))
        } else {
            Some(body.skip(4))
        };
        match data {
            Some(data) => if body.len() >= 4 && data.len() <= MAX_BLOCK_SIZE && unmasked(
                read_u32(body, 0),
            ) == crc32c_of(data) {
                Some(data)
            } else {
                None
            },
            None => None,
        }
    } else if code == 0xff {
        if body == STREAM_FRAME@.skip(4) {
            Some(Seq::empty())
        } else {
            None
        }
    } else if code >= 0x80 {
        Some(Seq::empty())
    } else {
        None
    }
}

/// The data that a run of chunks stands for.
pub open spec fn decode_chunks(s: Seq<u8>) -> Option<Seq<u8>>
    decreases s.len(),
{
    if s.len() == 0 {
        Some(Seq::empty())
    } else if s.len() < 4 {
        None
    } else {
        let end = 4 + read_u24(s, 1);
        if s.len() < end {
            None
        } else {
            match (decode_chunk(s[0], s.subrange(4, end)), decode_chunks(s.skip(end))) {
                (Some(data), Some(rest)) => Some(data + rest),
                _ => None,
            }
        }
    }
}

/// The data that a stream stands for: it begins with the stream identifier.
pub open spec fn decode(stream: Seq<u8>) -> Option<Seq<u8>> {
    if stream.len() >= STREAM_FRAME@.len() && stream.take(STREAM_FRAME@.len() as int)
        == STREAM_FRAME@ {
        decode_chunks(stream.skip(STREAM_FRAME@.len() as int))
    } else {
        None
    }
}

/// A frame is at most the size of its data and eight bytes. Making it never takes more than the
/// room set aside for any frame, and for a whole block just that. With the stream identifier before
/// it, it takes the room set aside for both.
pub proof fn law_frame_size(data: Seq<u8>)
    requires
        data.len() <= MAX_BLOCK_SIZE,
    ensures
        8 <= frame(data).len() <= 8 + data.len(),
        0 < max_compressed_len(data.len() as int),
        8 + max_compressed_len(data.len() as int) <= MAX_DATA_FRAME_SIZE,
        data.len() == MAX_BLOCK_SIZE ==> 8 + max_compressed_len(data.len() as int)
            == MAX_DATA_FRAME_SIZE,
        STREAM_FRAME@.len() + MAX_DATA_FRAME_SIZE == MAX_FRAME_SIZE,
{
}

/// A reader gets from the frame for a block, whatever follows it, that block, and goes on behind
/// the frame.
pub proof fn law_frame_decodes(block: Seq<u8>, rest: Seq<u8>)
    requires
        block.len() <= MAX_BLOCK_SIZE,
        restorable(block),
    ensures
        decode_chunks(frame(block) + rest) == match decode_chunks(rest) {
            Some(data) => Some(block + data),
            None => None,
        },
{
    let f = frame(block);
    let s = f + rest;
    let end = f.len() as int;
    law_frame_layout(block);
    assert(forall|i: int| 0 <= i < end ==> s[i] == f[i]);
    assert(read_u24(s, 1) == end - 4);
    let body = s.subrange(4, end);
    assert(read_u32(body, 0) == read_u32(f, 4));
    assert(body.skip(4) =~= f.skip(8));
    assert(s.skip(end) =~= rest);
}

/// The frames for `blocks`, one behind the other.
pub open spec fn frames_of(blocks: Seq<Seq<u8>>) -> Seq<u8>
    decreases blocks.len(),
{
    if blocks.len() == 0 {
        Seq::empty()
    } else {
        frames_of(blocks.drop_last()) + frame(blocks.last())
    }
}

/// The blocks, one behind the other.
pub open spec fn data_of(blocks: Seq<Seq<u8>>) -> Seq<u8>
    decreases blocks.len(),
{
    if blocks.len() == 0 {
        Seq::empty()
    } else {
        data_of(blocks.drop_last()) + blocks.last()
    }
}

/// The blocks are no longer than a frame can stand for, and can be had back.
pub open spec fn sound(blocks: Seq<Seq<u8>>) -> bool {
    forall|i: int|
        0 <= i < blocks.len() ==> (#[trigger] blocks[i]).len() <= MAX_BLOCK_SIZE && restorable(
            blocks[i],
        )
}

/// A reader gets from the frames for `blocks`, whatever follows them, the data of the blocks.
proof fn lemma_frames_decode(blocks: Seq<Seq<u8>>, rest: Seq<u8>)
    requires
        sound(blocks),
    ensures
        decode_chunks(frames_of(blocks) + rest) == match decode_chunks(rest) {
            Some(data) => Some(data_of(blocks) + data),
            None => None,
        },
    decreases blocks.len(),
{
    if blocks.len() == 0 {
        assert(frames_of(blocks) + rest =~= rest);
        if let Some(data) = decode_chunks(rest) {
            assert(data_of(blocks) + data =~= data);
        }
    } else {
        let last = blocks.last();
        assert(blocks[blocks.len() - 1] == last);
        lemma_frames_decode(blocks.drop_last(), frame(last) + rest);
        law_frame_decodes(last, rest);
        assert(frames_of(blocks) + rest =~= frames_of(blocks.drop_last()) + (frame(last) + rest));
        if let Some(data) = decode_chunks(rest) {
            assert(data_of(blocks) + data =~= data_of(blocks.drop_last()) + (last + data));
        }
    }
}

/// The encoder with the view `v` has, since it was made, taken the input `taken` and written
/// `written`, and framed `blocks`: what is written and what is pending make up the stream
/// identifier and the frames for the blocks, and what is gathered is the input behind them.
pub open spec fn history(
    v: EncoderView,
    written: Seq<u8>,
    taken: Seq<u8>,
    blocks: Seq<Seq<u8>>,
) -> bool {
    &&& v.valid()
    &&& sound(blocks)
    &&& written + v.pending == STREAM_FRAME@ + frames_of(blocks)
    &&& taken == data_of(blocks) + v.block
}

/// It does not matter which two of three runs are joined first.
proof fn lemma_joins(a: Seq<u8>, b: Seq<u8>, c: Seq<u8>)
    ensures
        (a + b) + c == a + (b + c),
{
    assert((a + b) + c =~= a + (b + c));
}

/// The whole blocks of `data`.
pub open spec fn blocks_of(data: Seq<u8>, count: int) -> Seq<Seq<u8>> {
    Seq::new(count as nat, |i: int| block_at(data, i))
}

/// The frames for the whole blocks of `data`, and the data of those, behind other blocks.
proof fn lemma_blocks_of(blocks: Seq<Seq<u8>>, data: Seq<u8>, count: int)
    requires
        0 <= count,
        count * MAX_BLOCK_SIZE <= data.len(),
    ensures
        frames_of(blocks + blocks_of(data, count)) == frames_of(blocks) + block_frames(data, count),
        data_of(blocks + blocks_of(data, count)) == data_of(blocks) + data.take(
            count * MAX_BLOCK_SIZE,
        ),
    decreases count,
{
    let all = blocks + blocks_of(data, count);
    if count == 0 {
        assert(frames_of(blocks) + Seq::<u8>::empty() =~= frames_of(blocks));
        assert(data_of(blocks) + data.take(0) =~= data_of(blocks));
    } else {
        lemma_blocks_of(blocks, data, count - 1);
        assert(all.drop_last() =~= blocks + blocks_of(data, count - 1));
        let last = block_at(data, count - 1);
        let before = (count - 1) * MAX_BLOCK_SIZE;
        assert(all.last() == last);
        assert(data.take(before) + last =~= data.take(count * MAX_BLOCK_SIZE));
        lemma_joins(data_of(blocks), data.take(before), last);
        lemma_joins(frames_of(blocks), block_frames(data, count - 1), frame(last));
    }
}

/// A new encoder has taken and written nothing.
pub proof fn law_new(v: EncoderView)
    requires
        v == (EncoderView {
            phase: Phase::Identifier,
            pending: STREAM_FRAME@,
            block: Seq::empty(),
        }),
    ensures
        history(v, Seq::empty(), Seq::empty(), Seq::empty()),
{
    let blocks = Seq::<Seq<u8>>::empty();
    assert(Seq::<u8>::empty() + v.pending =~= STREAM_FRAME@ + frames_of(blocks));
    assert(data_of(blocks) + v.block =~= Seq::empty());
}

/// Blocks that can be had back, behind others, make blocks that can.
proof fn lemma_sound_join(blocks: Seq<Seq<u8>>, data: Seq<u8>, count: int)
    requires
        sound(blocks),
        0 <= count,
        count * MAX_BLOCK_SIZE <= data.len(),
        forall|i: int| 0 <= i < count ==> restorable(#[trigger] block_at(data, i)),
    ensures
        sound(blocks + blocks_of(data, count)),
{
    let all = blocks + blocks_of(data, count);
    assert forall|i: int| 0 <= i < all.len() implies (#[trigger] all[i]).len() <= MAX_BLOCK_SIZE
        && restorable(all[i]) by {
        if i < blocks.len() {
            assert(all[i] == blocks[i]);
        } else {
            assert(all[i] == block_at(data, i - blocks.len()));
        }
    }
}

/// Writing of the stream identifier alone keeps the history.
proof fn lemma_held_up_keeps_history(
    o: EncoderView,
    written: Seq<u8>,
    taken: Seq<u8>,
    blocks: Seq<Seq<u8>>,
    spare: int,
)
    requires
        history(o, written, taken, blocks),
        spare >= 0,
        o.held_up(spare),
    ensures
        history(o.past_identifier(spare), written + o.pending.take(spare), taken, blocks),
{
    let f = o.past_identifier(spare);
    assert(written + o.pending.take(spare) + f.pending =~= written + o.pending);
}

/// Encoding keeps the history: what it writes and takes joins what was written and taken before,
/// and the blocks that it completes join the blocks.
pub proof fn law_encode_keeps_history(
    o: EncoderView,
    f: EncoderView,
    written: Seq<u8>,
    taken: Seq<u8>,
    blocks: Seq<Seq<u8>>,
    input: Seq<u8>,
    n: int,
    spare: int,
    w: Seq<u8>,
)
    requires
        history(o, written, taken, blocks),
        spare >= 0,
        encoded(o, f, input, n, spare, w),
        f.valid(),
    ensures
        history(
            f,
            written + w,
            taken + input.take(n),
            if o.held_up(spare) {
                blocks
            } else {
                blocks + blocks_of(o.block + input.take(n), block_count(o.block + input.take(n)))
            },
        ),
{
    if o.held_up(spare) {
        lemma_held_up_keeps_history(o, written, taken, blocks, spare);
        assert(taken + input.take(n) =~= taken);
    } else {
        let data = o.block + input.take(n);
        let count = block_count(data);
        let all = blocks + blocks_of(data, count);
        lemma_blocks_of(blocks, data, count);
        lemma_sound_join(blocks, data, count);
        let more = block_frames(data, count);
        let whole = data.take(count * MAX_BLOCK_SIZE);
        lemma_joins(written, w, f.pending);
        lemma_joins(written, o.pending, more);
        lemma_joins(STREAM_FRAME@, frames_of(blocks), more);
        lemma_joins(data_of(blocks), o.block, input.take(n));
        lemma_joins(data_of(blocks), whole, f.block);
        assert(whole + f.block =~= data);
    }
}

/// Flushing keeps the history: what it writes joins what was written before, and the input
/// gathered becomes a block, unless a frame is on its way out or a flush has been completed.
pub proof fn law_flush_keeps_history(
    o: EncoderView,
    f: EncoderView,
    written: Seq<u8>,
    taken: Seq<u8>,
    blocks: Seq<Seq<u8>>,
    spare: int,
    w: Seq<u8>,
    done: bool,
)
    requires
        history(o, written, taken, blocks),
        spare >= 0,
        flushed(o, f, spare, w, done),
        f.valid(),
    ensures
        history(
            f,
            written + w,
            taken,
            if o.held_up(spare) || o.phase is Draining || o.phase is Flushed {
                blocks
            } else {
                blocks.push(o.block)
            },
        ),
{
    if o.held_up(spare) {
        lemma_held_up_keeps_history(o, written, taken, blocks, spare);
    } else {
        let all = flush_bytes(o);
        assert(written + w + f.pending =~= written + all);
        if o.phase is Identifier || o.phase is Buffering {
            let more = blocks.push(o.block);
            assert(more.drop_last() =~= blocks);
            assert(written + all =~= (written + o.pending) + frame(o.block));
            assert(written + w + f.pending =~= STREAM_FRAME@ + frames_of(more));
            assert forall|i: int| 0 <= i < more.len() implies (#[trigger] more[i]).len()
                <= MAX_BLOCK_SIZE && restorable(more[i]) by {
                if i < blocks.len() {
                    assert(more[i] == blocks[i]);
                }
            }
        }
    }
}

/// What has been written and what is pending is, at any time, a stream from which a reader gets
/// all input taken but what is still gathered.
pub proof fn law_stream_decodes(
    v: EncoderView,
    written: Seq<u8>,
    taken: Seq<u8>,
    blocks: Seq<Seq<u8>>,
)
    requires
        history(v, written, taken, blocks),
    ensures
        decode(written + v.pending) matches Some(data) && data + v.block == taken,
{
    let stream = written + v.pending;
    let len = STREAM_FRAME@.len() as int;
    assert(stream.take(len) =~= STREAM_FRAME@);
    assert(stream.skip(len) =~= frames_of(blocks) + Seq::empty());
    lemma_frames_decode(blocks, Seq::empty());
    assert(data_of(blocks) + Seq::<u8>::empty() =~= data_of(blocks));
}

/// After a flush that is done, what has been written is a stream from which a reader gets all
/// input taken.
pub proof fn law_flush_completes(
    o: EncoderView,
    f: EncoderView,
    written: Seq<u8>,
    taken: Seq<u8>,
    blocks: Seq<Seq<u8>>,
    spare: int,
    w: Seq<u8>,
)
    requires
        history(o, written, taken, blocks),
        spare >= 0,
        flushed(o, f, spare, w, true),
        f.valid(),
    ensures
        decode(written + w) == Some(taken),
{
    law_flush_keeps_history(o, f, written, taken, blocks, spare, w, true);
    let all = if o.phase is Draining || o.phase is Flushed {
        blocks
    } else {
        blocks.push(o.block)
    };
    law_stream_decodes(f, written + w, taken, all);
    let data = decode(written + w).unwrap();
    assert(data + f.block =~= data);
}

/// After a flush that is done, further ones are done at once, and write nothing.
pub proof fn law_flush_again(
    o: EncoderView,
    f: EncoderView,
    g: EncoderView,
    spare: int,
    spare_again: int,
    w: Seq<u8>,
    w_again: Seq<u8>,
    done_again: bool,
)
    requires
        flushed(o, f, spare, w, true),
        spare_again >= 0,
        flushed(f, g, spare_again, w_again, done_again),
    ensures
        done_again,
        w_again == Seq::<u8>::empty(),
        g == f,
{
    assert(g.pending =~= f.pending);
}

/// After a flush that is done, encoding without input does nothing.
pub proof fn law_flush_stays(
    o: EncoderView,
    f: EncoderView,
    g: EncoderView,
    spare: int,
    spare_again: int,
    n: int,
    w: Seq<u8>,
    w_again: Seq<u8>,
)
    requires
        flushed(o, f, spare, w, true),
        spare_again >= 0,
        encoded(f, g, Seq::empty(), n, spare_again, w_again),
    ensures
        n == 0,
        w_again == Seq::<u8>::empty(),
        g == f,
{
    let none = Seq::<u8>::empty();
    assert(f.pending + block_frames(none, 0) =~= none);
    assert((w_again + g.pending).len() == 0);
    assert(g.block =~= f.block);
}

/// A flush that is not done has used all the room it was given.
pub proof fn law_flush_fills(
    o: EncoderView,
    f: EncoderView,
    spare: int,
    w: Seq<u8>,
)
    requires
        spare >= 0,
        flushed(o, f, spare, w, false),
    ensures
        w.len() == spare,
{
}

/// Encoding that has left input behind has used all the room it was given.
pub proof fn law_encode_fills(
    o: EncoderView,
    f: EncoderView,
    input: Seq<u8>,
    n: int,
    spare: int,
    w: Seq<u8>,
)
    requires
        spare >= 0,
        encoded(o, f, input, n, spare, w),
        n < input.len(),
    ensures
        w.len() == spare,
{
}

/// Of two outcomes of encoding from one view, the one that takes less takes as much.
proof fn lemma_encode_takes_as_much(
    o: EncoderView,
    f1: EncoderView,
    f2: EncoderView,
    input: Seq<u8>,
    n1: int,
    n2: int,
    spare: int,
    w1: Seq<u8>,
    w2: Seq<u8>,
)
    requires
        encoded(o, f1, input, n1, spare, w1),
        encoded(o, f2, input, n2, spare, w2),
        n1 <= n2,
    ensures
        n1 == n2,
{
    if n1 < n2 {
        let data1 = o.block + input.take(n1);
        let data2 = o.block + input.take(n2);
        let count1 = block_count(data1);
        let count2 = block_count(data2);
        assert(f1.pending.len() > 0);
        assert((w1 + f1.pending).len() > spare);
        assert(data2 =~= data1 + input.subrange(n1, n2));
        lemma_block_frames_extend(data1, input.subrange(n1, n2), count1);
        if count1 < count2 {
            lemma_block_frames_len(data2, count1, count2 - 1);
        } else {
            assert(data2.len() > count2 * MAX_BLOCK_SIZE);
            assert(f2.block.len() > 0);
            assert(w2 + f2.pending =~= w2);
        }
    }
}

/// What encoding does is settled by the state of the encoder, the input and the room: how much it
/// takes, what it writes, and the state after it.
pub proof fn law_encode_is_settled(
    o: EncoderView,
    f1: EncoderView,
    f2: EncoderView,
    input: Seq<u8>,
    n1: int,
    n2: int,
    spare: int,
    w1: Seq<u8>,
    w2: Seq<u8>,
)
    requires
        encoded(o, f1, input, n1, spare, w1),
        encoded(o, f2, input, n2, spare, w2),
    ensures
        n1 == n2,
        w1 == w2,
        f1 == f2,
{
    if n1 <= n2 {
        lemma_encode_takes_as_much(o, f1, f2, input, n1, n2, spare, w1, w2);
    } else {
        lemma_encode_takes_as_much(o, f2, f1, input, n2, n1, spare, w2, w1);
    }
    if !o.held_up(spare) {
        let all = w1 + f1.pending;
        assert(all == w2 + f2.pending);
        assert(w1.len() == w2.len());
        assert(w1 =~= all.take(w1.len() as int));
        assert(w2 =~= all.take(w1.len() as int));
        assert(f1.pending =~= all.skip(w1.len() as int));
        assert(f2.pending =~= all.skip(w1.len() as int));
    }
}

/// The encoder with the view `v` has, since it was made, taken the input `taken`, written
/// `written`, and not been flushed: the stream so far is settled by the input alone.
pub open spec fn unflushed(v: EncoderView, written: Seq<u8>, taken: Seq<u8>) -> bool {
    &&& v.valid()
    &&& !(v.phase is Flushed)
    &&& written + v.pending == STREAM_FRAME@ + block_frames(taken, block_count(taken))
    &&& v.block == taken.skip(block_count(taken) * MAX_BLOCK_SIZE)
    &&& v.phase is Draining ==> block_count(taken) > 0
}

/// A new encoder has not been flushed.
pub proof fn law_new_is_unflushed(v: EncoderView)
    requires
        v == (EncoderView {
            phase: Phase::Identifier,
            pending: STREAM_FRAME@,
            block: Seq::empty(),
        }),
    ensures
        unflushed(v, Seq::empty(), Seq::empty()),
{
    let taken = Seq::<u8>::empty();
    assert(taken + v.pending =~= STREAM_FRAME@ + block_frames(taken, 0));
    assert(v.block =~= taken.skip(0));
}

/// Frames behind whole blocks are the frames for what is behind those blocks.
proof fn lemma_block_frames_join(data: Seq<u8>, first: int, count: int)
    requires
        0 <= first,
        0 <= count,
        (first + count) * MAX_BLOCK_SIZE <= data.len(),
    ensures
        block_frames(data, first + count) == block_frames(data, first) + block_frames(
            data.skip(first * MAX_BLOCK_SIZE),
            count,
        ),
    decreases count,
{
    let tail = data.skip(first * MAX_BLOCK_SIZE);
    if count == 0 {
        assert(block_frames(data, first) + Seq::<u8>::empty() =~= block_frames(data, first));
    } else {
        lemma_block_frames_join(data, first, count - 1);
        assert(block_at(data, first + count - 1) =~= block_at(tail, count - 1));
        assert(block_frames(data, first + count) =~= block_frames(data, first) + block_frames(
            tail,
            count,
        ));
    }
}

/// Input behind other input joins what that leaves of a block: the whole blocks of the two are
/// those of the first and those of what is joined.
proof fn lemma_blocks_join(taken: Seq<u8>, more: Seq<u8>)
    ensures
        ({
            let first = block_count(taken);
            let data = taken.skip(first * MAX_BLOCK_SIZE) + more;
            let count = block_count(data);
            let all = taken + more;
            &&& block_count(all) == first + count
            &&& block_frames(all, first + count) == block_frames(taken, first) + block_frames(
                data,
                count,
            )
            &&& data.skip(count * MAX_BLOCK_SIZE) == all.skip((first + count) * MAX_BLOCK_SIZE)
        }),
{
    let first = block_count(taken);
    let data = taken.skip(first * MAX_BLOCK_SIZE) + more;
    let count = block_count(data);
    let all = taken + more;
    assert(all.skip(first * MAX_BLOCK_SIZE) =~= data);
    assert(block_count(all) == first + count);
    lemma_block_frames_join(all, first, count);
    lemma_block_frames_extend(taken, more, first);
    assert(data.skip(count * MAX_BLOCK_SIZE) =~= all.skip((first + count) * MAX_BLOCK_SIZE));
}

/// Encoding keeps to the frames for the input: where `written` and what is pending are `head` and
/// the frames for the whole blocks of `data`, and the rest of `data` is gathered, the same holds
/// with the input taken behind `data`.
proof fn lemma_encode_keeps_to_input(
    o: EncoderView,
    f: EncoderView,
    head: Seq<u8>,
    written: Seq<u8>,
    data: Seq<u8>,
    input: Seq<u8>,
    n: int,
    spare: int,
    w: Seq<u8>,
)
    requires
        spare >= 0,
        encoded(o, f, input, n, spare, w),
        written + o.pending == head + block_frames(data, block_count(data)),
        o.block == data.skip(block_count(data) * MAX_BLOCK_SIZE),
    ensures
        ({
            let all = data + input.take(n);
            &&& (written + w) + f.pending == head + block_frames(all, block_count(all))
            &&& f.block == all.skip(block_count(all) * MAX_BLOCK_SIZE)
        }),
{
    lemma_joins(written, w, f.pending);
    if o.held_up(spare) {
        assert(data + input.take(n) =~= data);
        assert(w + f.pending =~= o.pending);
    } else {
        let before = block_frames(data, block_count(data));
        let next = o.block + input.take(n);
        let more = block_frames(next, block_count(next));
        lemma_blocks_join(data, input.take(n));
        lemma_joins(written, o.pending, more);
        lemma_joins(head, before, more);
    }
}

/// Encoding, however little it is given at a time, keeps to the stream that the input settles.
pub proof fn law_encode_keeps_unflushed(
    o: EncoderView,
    f: EncoderView,
    written: Seq<u8>,
    taken: Seq<u8>,
    input: Seq<u8>,
    n: int,
    spare: int,
    w: Seq<u8>,
)
    requires
        unflushed(o, written, taken),
        spare >= 0,
        encoded(o, f, input, n, spare, w),
        f.valid(),
    ensures
        unflushed(f, written + w, taken + input.take(n)),
{
    lemma_encode_keeps_to_input(o, f, STREAM_FRAME@, written, taken, input, n, spare, w);
    if f.phase is Draining {
        let all = taken + input.take(n);
        assert(o.phase is Draining || (w + f.pending).len() > o.pending.len());
        assert(block_count(all) > 0);
    }
}

/// Two encoders that have taken the same input and not been flushed are about to have written the
/// same stream, however the input and the room for it were cut up.
pub proof fn law_cuts_do_not_matter(
    v1: EncoderView,
    v2: EncoderView,
    written1: Seq<u8>,
    written2: Seq<u8>,
    taken: Seq<u8>,
)
    requires
        unflushed(v1, written1, taken),
        unflushed(v2, written2, taken),
    ensures
        written1 + v1.pending == written2 + v2.pending,
        v1.block == v2.block,
{
}

/// The encoder with the view `v` has come there from the view `o` by encoding: it has taken the
/// input `taken` and written `written`.
pub open spec fn onward(
    o: EncoderView,
    v: EncoderView,
    written: Seq<u8>,
    taken: Seq<u8>,
) -> bool {
    let data = o.block + taken;
    &&& v.valid()
    &&& written + v.pending == o.pending + block_frames(data, block_count(data))
    &&& v.block == data.skip(block_count(data) * MAX_BLOCK_SIZE)
}

/// Before any call an encoder is where it is.
pub proof fn law_onward_starts(o: EncoderView)
    requires
        o.valid(),
    ensures
        onward(o, o, Seq::empty(), Seq::empty()),
{
    assert(o.block + Seq::<u8>::empty() =~= o.block);
    assert(Seq::<u8>::empty() + o.pending =~= o.pending + block_frames(o.block, 0));
    assert(o.block =~= o.block.skip(0));
}

/// Encoding leads onward: what it takes and writes joins what was taken and written before.
pub proof fn law_encode_leads_onward(
    o: EncoderView,
    v: EncoderView,
    f: EncoderView,
    written: Seq<u8>,
    taken: Seq<u8>,
    input: Seq<u8>,
    n: int,
    spare: int,
    w: Seq<u8>,
)
    requires
        onward(o, v, written, taken),
        spare >= 0,
        encoded(v, f, input, n, spare, w),
        f.valid(),
    ensures
        onward(o, f, written + w, taken + input.take(n)),
{
    lemma_encode_keeps_to_input(v, f, o.pending, written, o.block + taken, input, n, spare, w);
    lemma_joins(o.block, taken, input.take(n));
}

/// Two encoders in the same state that then take the same input write the same bytes, however
/// the input and the room are cut up: what is written at once by the one and staged and drained
/// in pieces by the other comes out the same.
pub proof fn law_pieces_do_not_matter(
    o: EncoderView,
    v1: EncoderView,
    v2: EncoderView,
    written1: Seq<u8>,
    written2: Seq<u8>,
    taken: Seq<u8>,
)
    requires
        onward(o, v1, written1, taken),
        onward(o, v2, written2, taken),
    ensures
        written1 + v1.pending == written2 + v2.pending,
        v1.block == v2.block,
        v1.pending.len() == 0 && v2.pending.len() == 0 ==> written1 == written2,
{
    if v1.pending.len() == 0 && v2.pending.len() == 0 {
        assert(written1 + v1.pending =~= written1);
        assert(written2 + v2.pending =~= written2);
    }
}

/// The stream identifier, a frame for each whole block of `data`, and one for the rest.
pub open spec fn finished_stream(data: Seq<u8>) -> Seq<u8> {
    let count = block_count(data);
    STREAM_FRAME@ + block_frames(data, count) + frame(data.skip(count * MAX_BLOCK_SIZE))
}

/// A stream that is flushed once, at its end, is settled by the input alone, unless that is some
/// blocks and nothing behind them.
pub proof fn law_finish(v: EncoderView, written: Seq<u8>, taken: Seq<u8>)
    requires
        unflushed(v, written, taken),
        taken.len() == 0 || taken.len() as int % MAX_BLOCK_SIZE as int != 0,
    ensures
        written + flush_bytes(v) == finished_stream(taken),
{
    assert(!(v.phase is Draining));
    lemma_joins(written, v.pending, frame(v.block));
}

/// Behind some blocks and nothing else, the flush at the end adds an empty frame, unless a frame
/// is still on its way out.
pub proof fn law_finish_behind_whole_blocks(v: EncoderView, written: Seq<u8>, taken: Seq<u8>)
    requires
        unflushed(v, written, taken),
        taken.len() > 0,
        taken.len() as int % MAX_BLOCK_SIZE as int == 0,
    ensures
        v.block.len() == 0,
        written + flush_bytes(v) == if v.phase is Draining {
            STREAM_FRAME@ + block_frames(taken, block_count(taken))
        } else {
            finished_stream(taken)
        },
        finished_stream(taken) == STREAM_FRAME@ + block_frames(taken, block_count(taken)) + frame(
            Seq::empty(),
        ),
{
    assert(v.block =~= Seq::empty());
    lemma_joins(written, v.pending, frame(v.block));
}

/// A flush writes what it has to, and leaves the rest for the next.
pub proof fn law_flush_goes_on(
    o: EncoderView,
    f: EncoderView,
    spare: int,
    w: Seq<u8>,
    done: bool,
)
    requires
        o.valid(),
        spare >= 0,
        flushed(o, f, spare, w, done),
    ensures
        f.valid(),
        w + flush_bytes(f) == flush_bytes(o),
        done ==> w == flush_bytes(o),
        done <==> f.phase is Flushed,
{
    if o.held_up(spare) {
        lemma_joins(w, f.pending, frame(o.block));
        assert(w + f.pending =~= o.pending);
    } else {
        let all = flush_bytes(o);
        assert(w + f.pending =~= all);
        if done {
            assert(w =~= all);
        }
    }
}

/// A flush takes as many calls as there are pieces in `ws`, from the view `vs[0]` on: with
/// `rooms[i]` bytes of room, the call `i` goes from the view `vs[i]` to the next and writes
/// `ws[i]`.
pub open spec fn flushed_in_pieces(
    vs: Seq<EncoderView>,
    rooms: Seq<int>,
    ws: Seq<Seq<u8>>,
) -> bool {
    &&& vs.len() == ws.len() + 1
    &&& rooms.len() == ws.len()
    &&& forall|i: int| 0 <= i < rooms.len() ==> #[trigger] rooms[i] >= 0
    &&& forall|i: int|
        0 <= i < ws.len() ==> flushed(
            vs[i],
            vs[i + 1],
            rooms[i],
            #[trigger] ws[i],
            vs[i + 1].phase is Flushed,
        )
}

/// A flush writes the same bytes in however many calls, and with however little room, it gets
/// through.
pub proof fn law_flush_in_pieces(vs: Seq<EncoderView>, rooms: Seq<int>, ws: Seq<Seq<u8>>)
    requires
        flushed_in_pieces(vs, rooms, ws),
        vs[0].valid(),
    ensures
        vs.last().valid(),
        data_of(ws) + flush_bytes(vs.last()) == flush_bytes(vs[0]),
        vs.last().phase is Flushed ==> data_of(ws) == flush_bytes(vs[0]),
    decreases ws.len(),
{
    if ws.len() == 0 {
        assert(data_of(ws) + flush_bytes(vs.last()) =~= flush_bytes(vs[0]));
    } else {
        let k = ws.len() - 1;
        let vs0 = vs.drop_last();
        let rooms0 = rooms.drop_last();
        let ws0 = ws.drop_last();
        assert forall|i: int| 0 <= i < ws0.len() implies flushed(
            vs0[i],
            vs0[i + 1],
            rooms0[i],
            #[trigger] ws0[i],
            vs0[i + 1].phase is Flushed,
        ) by {
            assert(ws0[i] == ws[i]);
        }
        law_flush_in_pieces(vs0, rooms0, ws0);
        assert(ws[k] == ws.last());
        assert(vs[k] == vs0.last());
        law_flush_goes_on(vs[k], vs[k + 1], rooms[k], ws[k], vs[k + 1].phase is Flushed);
        lemma_joins(data_of(ws0), ws[k], flush_bytes(vs[k + 1]));
    }
    if vs.last().phase is Flushed {
        assert(data_of(ws) + flush_bytes(vs.last()) =~= data_of(ws));
    }
}

/// Whatever the cuts, an encoder that takes `taken` and is then flushed until that is done has
/// written the stream that `taken` settles, unless `taken` is some blocks and nothing behind them.
pub proof fn law_finished_in_pieces(
    v: EncoderView,
    written: Seq<u8>,
    taken: Seq<u8>,
    vs: Seq<EncoderView>,
    rooms: Seq<int>,
    ws: Seq<Seq<u8>>,
)
    requires
        unflushed(v, written, taken),
        taken.len() == 0 || taken.len() as int % MAX_BLOCK_SIZE as int != 0,
        flushed_in_pieces(vs, rooms, ws),
        vs[0] == v,
        vs.last().phase is Flushed,
    ensures
        written + data_of(ws) == finished_stream(taken),
{
    law_finish(v, written, taken);
    law_flush_in_pieces(vs, rooms, ws);
}

/// A frame is drained over as many calls as there are pieces in `ws`, from the view `vs[0]` on:
/// with `rooms[i]` bytes of room, the call `i` goes from the view `vs[i]` to the next and writes
/// `ws[i]`.
pub open spec fn drained_in_pieces(
    vs: Seq<EncoderView>,
    rooms: Seq<int>,
    ws: Seq<Seq<u8>>,
) -> bool {
    &&& vs.len() == ws.len() + 1
    &&& rooms.len() == ws.len()
    &&& forall|i: int| 0 <= i < rooms.len() ==> #[trigger] rooms[i] >= 0
    &&& forall|i: int|
        0 <= i < ws.len() ==> drained(
            vs[i],
            vs[i + 1],
            rooms[i],
            #[trigger] ws[i],
            vs[i + 1].pending.len() == 0,
        )
}

/// The pieces and what is left pending behind them are what was pending before them, and nothing
/// else changes.
proof fn lemma_pieces_join(vs: Seq<EncoderView>, rooms: Seq<int>, ws: Seq<Seq<u8>>)
    requires
        drained_in_pieces(vs, rooms, ws),
    ensures
        data_of(ws) + vs.last().pending == vs[0].pending,
        vs.last() == (EncoderView { pending: vs.last().pending, ..vs[0] }),
    decreases ws.len(),
{
    if ws.len() == 0 {
        assert(data_of(ws) + vs.last().pending =~= vs[0].pending);
    } else {
        let k = ws.len() - 1;
        let vs0 = vs.drop_last();
        let rooms0 = rooms.drop_last();
        let ws0 = ws.drop_last();
        assert forall|i: int| 0 <= i < ws0.len() implies drained(
            vs0[i],
            vs0[i + 1],
            rooms0[i],
            #[trigger] ws0[i],
            vs0[i + 1].pending.len() == 0,
        ) by {
            assert(ws0[i] == ws[i]);
        }
        lemma_pieces_join(vs0, rooms0, ws0);
        assert(ws[k] == ws.last());
        assert(vs[k] == vs0.last());
        assert(data_of(ws0) + ws[k] + vs.last().pending =~= data_of(ws0) + vs[k].pending);
    }
}

/// A block whose frame is staged for want of room, and drained in whatever pieces, comes out as
/// the bytes that are written at once where there is room. With nothing left pending the encoder
/// is, but for the phase, where writing at once leaves it.
pub proof fn law_staged_block_comes_out_whole(
    o: EncoderView,
    staged: EncoderView,
    direct: EncoderView,
    input: Seq<u8>,
    n: int,
    m: int,
    spare: int,
    room: int,
    w: Seq<u8>,
    vs: Seq<EncoderView>,
    rooms: Seq<int>,
    ws: Seq<Seq<u8>>,
)
    requires
        spare < MAX_DATA_FRAME_SIZE <= room,
        block_step(o, staged, input, n, spare, Seq::empty(), true),
        block_step(o, direct, input, m, room, w, true),
        drained_in_pieces(vs, rooms, ws),
        vs[0] == staged,
    ensures
        n == m,
        data_of(ws) + vs.last().pending == w,
        vs.last().pending.len() == 0 ==> data_of(ws) == w && direct == (EncoderView {
            phase: Phase::Buffering,
            ..vs.last()
        }),
{
    lemma_pieces_join(vs, rooms, ws);
    if vs.last().pending.len() == 0 {
        assert(data_of(ws) + vs.last().pending =~= data_of(ws));
        assert(vs.last().pending =~= Seq::empty());
    }
}

/// The frame that a flush makes, staged for want of room and drained in whatever pieces, comes
/// out as the bytes that are written at once where there is room. With nothing left pending the
/// encoder is, but for the phase, where writing at once leaves it.
pub proof fn law_staged_flush_comes_out_whole(
    o: EncoderView,
    staged: EncoderView,
    direct: EncoderView,
    spare: int,
    room: int,
    w: Seq<u8>,
    vs: Seq<EncoderView>,
    rooms: Seq<int>,
    ws: Seq<Seq<u8>>,
)
    requires
        spare < 8 + max_compressed_len(o.block.len() as int) <= room,
        flush_step(o, staged, spare, Seq::empty()),
        flush_step(o, direct, room, w),
        drained_in_pieces(vs, rooms, ws),
        vs[0] == staged,
    ensures
        data_of(ws) + vs.last().pending == w,
        vs.last().pending.len() == 0 ==> data_of(ws) == w && direct == (EncoderView {
            phase: Phase::Flushed,
            ..vs.last()
        }),
{
    lemma_pieces_join(vs, rooms, ws);
    if vs.last().pending.len() == 0 {
        assert(data_of(ws) + vs.last().pending =~= data_of(ws));
        assert(vs.last().pending =~= Seq::empty());
    }
}

/// The sizes that the format and the compressor set, and the stream identifier.
pub proof fn law_constants(len: int)
    requires
        len >= 0,
    ensures
        MAX_BLOCK_SIZE == 65536,
        MAX_DATA_FRAME_SIZE == 8 + 32 + 65536 + 65536int / 6,
        MAX_FRAME_SIZE == 10 + MAX_DATA_FRAME_SIZE,
        STREAM_FRAME@ == seq![0xffu8, 0x06, 0x00, 0x00, 0x73, 0x4e, 0x61, 0x50, 0x70, 0x59],
        32 + len + len / 6 <= 0xffff_ffff ==> max_compressed_len(len) == 32 + len + len / 6,
        32 + len + len / 6 > 0xffff_ffff ==> max_compressed_len(len) == 0,
{
    assert(STREAM_FRAME@ =~= seq![0xffu8, 0x06, 0x00, 0x00, 0x73, 0x4e, 0x61, 0x50, 0x70, 0x59]);
}

/// The frames for data are, as long as it holds 65536 bytes, the frame for the first 65536 and the
/// frames for the rest. Less data makes no whole block.
pub proof fn law_blocks(data: Seq<u8>, count: int)
    ensures
        block_frames(data, 0) == Seq::<u8>::empty(),
        data.len() < 65536 ==> block_count(data) == 0,
        data.len() >= 65536 ==> block_count(data) == 1 + block_count(data.skip(65536)),
        0 <= count < block_count(data) ==> block_frames(data, 1 + count) == frame(data.take(65536))
            + block_frames(data.skip(65536), count),
{
    if 0 <= count < block_count(data) {
        lemma_block_frames_join(data, 1, count);
        assert(block_at(data, 0) =~= data.take(65536));
        assert(block_frames(data, 1) =~= block_frames(data, 0) + frame(data.take(65536)));
        assert(block_frames(data, 1) =~= frame(data.take(65536)));
    }
}

/// A block has one frame, and blocks behind others have their frames and their data behind theirs.
pub proof fn law_frames(block: Seq<u8>, blocks: Seq<Seq<u8>>, more: Seq<Seq<u8>>)
    ensures
        frames_of(seq![block]) == frame(block),
        data_of(seq![block]) == block,
        frames_of(blocks + more) == frames_of(blocks) + frames_of(more),
        data_of(blocks + more) == data_of(blocks) + data_of(more),
    decreases more.len(),
{
    let one = seq![block];
    assert(one.drop_last() =~= Seq::empty());
    assert(frames_of(one) =~= frame(block)) by {
        assert(frames_of(one.drop_last()) =~= Seq::empty());
    }
    assert(data_of(one) =~= block) by {
        assert(data_of(one.drop_last()) =~= Seq::empty());
    }
    if more.len() == 0 {
        assert(blocks + more =~= blocks);
        assert(frames_of(blocks) + frames_of(more) =~= frames_of(blocks));
        assert(data_of(blocks) + data_of(more) =~= data_of(blocks));
    } else {
        let last = more.last();
        law_frames(block, blocks, more.drop_last());
        assert((blocks + more).drop_last() =~= blocks + more.drop_last());
        lemma_joins(frames_of(blocks), frames_of(more.drop_last()), frame(last));
        lemma_joins(data_of(blocks), data_of(more.drop_last()), last);
    }
}

/// What an encoder has written and what is pending are the stream identifier and one frame for each
/// block, no block is longer than 65536 bytes, and the blocks and what is gathered are the input
/// taken.
pub proof fn law_history(
    v: EncoderView,
    written: Seq<u8>,
    taken: Seq<u8>,
    blocks: Seq<Seq<u8>>,
    i: int,
)
    requires
        history(v, written, taken, blocks),
    ensures
        written + v.pending == STREAM_FRAME@ + frames_of(blocks),
        data_of(blocks) + v.block == taken,
        v.block.len() < 65536,
        v.pending.len() > 0 ==> v.block.len() == 0,
        0 <= i < blocks.len() ==> blocks[i].len() <= 65536,
        0 <= i < blocks.len() ==> raw_decompressed(raw_compressed(blocks[i])) == Some(blocks[i]),
{
}

/// The stream identifier comes first: as long as it takes up all of the room, encoding does nothing
/// but write of it, and is past it as soon as all of it is written.
pub proof fn law_identifier_before_input(
    o: EncoderView,
    f: EncoderView,
    input: Seq<u8>,
    n: int,
    spare: int,
    w: Seq<u8>,
)
    requires
        o.phase is Identifier,
        0 <= spare <= o.pending.len(),
        encoded(o, f, input, n, spare, w),
    ensures
        n == 0,
        w.len() == spare,
        w + f.pending == o.pending,
        f.block == o.block,
        f.phase is Identifier <==> f.pending.len() > 0,
        f.phase is Buffering <==> f.pending.len() == 0,
{
    assert(w + f.pending =~= o.pending);
}

/// The stream identifier comes first: as long as it takes up all of the room, a flush does nothing
/// but write of it, is past it as soon as all of it is written, and is not done.
pub proof fn law_identifier_before_flush(
    o: EncoderView,
    f: EncoderView,
    spare: int,
    w: Seq<u8>,
    done: bool,
)
    requires
        o.phase is Identifier,
        0 <= spare <= o.pending.len(),
        flushed(o, f, spare, w, done),
    ensures
        !done,
        w.len() == spare,
        w + f.pending == o.pending,
        f.block == o.block,
        f.phase is Identifier <==> f.pending.len() > 0,
        f.phase is Buffering <==> f.pending.len() == 0,
{
    assert(w + f.pending =~= o.pending);
}

/// Encoding loses, adds and reorders nothing: behind what was pending come the frames for the whole
/// blocks of what was gathered and taken, and what is behind those blocks is gathered.
pub proof fn law_encode_conserves(
    o: EncoderView,
    f: EncoderView,
    input: Seq<u8>,
    n: int,
    spare: int,
    w: Seq<u8>,
)
    requires
        o.phase is Identifier ==> o.pending.len() < spare,
        encoded(o, f, input, n, spare, w),
    ensures
        ({
            let data = o.block + input.take(n);
            let count = data.len() as int / 65536;
            &&& 0 <= n <= input.len()
            &&& w + f.pending == o.pending + block_frames(data, count)
            &&& data.take(count * 65536) + f.block == data
            &&& f.block.len() < 65536
        }),
{
    let data = o.block + input.take(n);
    let count = data.len() as int / 65536;
    assert(data.take(count * 65536) + f.block =~= data);
}

/// Encoding stops with a frame pending only where the room is used up and no input is gathered
/// behind the frame, and made that frame only once everything before it was written. Otherwise it
/// stops with all input taken. Only without input does it stay flushed.
pub proof fn law_encode_stops(
    o: EncoderView,
    f: EncoderView,
    input: Seq<u8>,
    n: int,
    spare: int,
    w: Seq<u8>,
)
    requires
        o.phase is Identifier ==> o.pending.len() < spare,
        encoded(o, f, input, n, spare, w),
    ensures
        ({
            let data = o.block + input.take(n);
            let count = data.len() as int / 65536;
            &&& w.len() <= spare
            &&& f.pending.len() > 0 ==> w.len() == spare && f.block.len() == 0
                && f.phase is Draining
            &&& count > 0 ==> o.pending.len() + block_frames(data, count - 1).len() <= spare
            &&& f.pending.len() == 0 ==> n == input.len()
            &&& f.pending.len() == 0 && o.phase is Flushed && input.len() == 0
                ==> f.phase is Flushed
            &&& f.pending.len() == 0 && !(o.phase is Flushed && input.len() == 0)
                ==> f.phase is Buffering
        }),
{
}

/// A flush writes what is pending and, where no frame is on its way out and none has been made
/// since the last input, a frame for what is gathered, even if that is nothing. It writes as much
/// of that as there is room for, and is done exactly where that is all.
pub proof fn law_flush_writes(
    o: EncoderView,
    f: EncoderView,
    spare: int,
    w: Seq<u8>,
    done: bool,
)
    requires
        spare >= 0,
        o.phase is Identifier ==> o.pending.len() < spare,
        flushed(o, f, spare, w, done),
    ensures
        o.phase is Identifier || o.phase is Buffering ==> w + f.pending == o.pending + frame(
            o.block,
        ),
        o.phase is Draining || o.phase is Flushed ==> w + f.pending == o.pending,
        f.block.len() == 0,
        w.len() <= spare,
        done <==> f.pending.len() == 0,
        done <==> f.phase is Flushed,
        !done ==> w.len() == spare && f.phase is Draining,
{
    assert(w + f.pending =~= flush_bytes(o));
}

/// Draining writes as much of what is pending as there is room for, leaves the rest and changes
/// nothing else, and is done exactly where nothing is left.
pub proof fn law_drain_writes(
    o: EncoderView,
    f: EncoderView,
    spare: int,
    w: Seq<u8>,
    done: bool,
)
    requires
        spare >= 0,
        drained(o, f, spare, w, done),
    ensures
        w + f.pending == o.pending,
        w.len() <= spare,
        done <==> f.pending.len() == 0,
        !done ==> w.len() == spare,
        f.block == o.block,
        f.phase == o.phase,
{
    assert(w + f.pending =~= o.pending);
}

/// Between two calls what is gathered is less than a block, nothing is gathered behind what is
/// pending, and something is pending exactly at the stream identifier and while a frame is on its
/// way out.
pub proof fn law_valid(v: EncoderView)
    requires
        v.valid(),
    ensures
        v.block.len() < 65536,
        v.pending.len() > 0 ==> v.block.len() == 0,
        v.pending.len() > 0 <==> v.phase is Identifier || v.phase is Draining,
        v.phase is Flushed ==> v.block.len() == 0,
{
}

/// Encoding goes straight to the output where no frame is on its way out and either no block is
/// completed or the last one to be completed finds room for any frame. Then so do those before it.
pub proof fn law_encodes_at_once(o: EncoderView, input: Seq<u8>, n: int, spare: int)
    requires
        !(o.phase is Draining),
    ensures
        ({
            let data = o.block + input.take(n);
            let count = data.len() as int / 65536;
            &&& data.len() < 65536 ==> encodes_at_once(o, input, n, spare)
            &&& spare >= o.pending.len() + block_frames(data, count - 1).len() + 76498
                ==> encodes_at_once(o, input, n, spare)
        }),
{
}

/// A flush goes straight to the output where no frame is on its way out and either none is made or
/// the one made finds room for the compressor to work in.
pub proof fn law_flushes_at_once(o: EncoderView, spare: int)
    requires
        !(o.phase is Draining),
        o.block.len() <= 65536,
    ensures
        o.phase is Flushed ==> flushes_at_once(o, spare),
        spare >= o.pending.len() + 8 + 32 + o.block.len() + o.block.len() as int / 6
            ==> flushes_at_once(o, spare),
{
}

} // verus!
