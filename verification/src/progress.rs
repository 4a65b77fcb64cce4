//! Why the loops of the encoder arrive where they should.
use vstd::prelude::*;

use crate::format::{block_at, block_count, block_frames, frame, restorable, MAX_BLOCK_SIZE};
use crate::model::{
    block_step, drained, encoded, encodes_at_once, flush_bytes, flush_step, flushed,
    flushes_at_once, min, EncoderView, Phase,
};

verus! {

/// Encoding on its way from the view `o`, arrived at the view `cur`, with `n` bytes of `input`
/// taken and `w` written so far.
#[verifier::opaque]
pub open spec fn encoding(
    o: EncoderView,
    cur: EncoderView,
    input: Seq<u8>,
    n: int,
    spare: int,
    w: Seq<u8>,
) -> bool {
    let data = o.block + input.take(n);
    let count = block_count(data);
    &&& cur.valid()
    &&& 0 <= n <= input.len()
    &&& w.len() <= spare
    &&& w + cur.pending == o.pending + block_frames(data, count)
    &&& cur.block == data.skip(count * MAX_BLOCK_SIZE)
    &&& forall|i: int| 0 <= i < count ==> restorable(#[trigger] block_at(data, i))
    &&& count > 0 ==> o.pending.len() + block_frames(data, count - 1).len() <= spare
    &&& match cur.phase {
        Phase::Identifier | Phase::Flushed => cur == o && n == 0 && w == Seq::<u8>::empty(),
        Phase::Buffering | Phase::Draining => {
            &&& !o.held_up(spare)
            &&& o.phase is Flushed ==> input.len() > 0
        },
    }
}

/// The frames for the blocks of `data` do not depend on what is behind those blocks.
pub(crate) proof fn lemma_block_frames_extend(data: Seq<u8>, more: Seq<u8>, count: int)
    requires
        0 <= count * MAX_BLOCK_SIZE <= data.len(),
    ensures
        block_frames(data + more, count) == block_frames(data, count),
        forall|i: int| 0 <= i < count ==> #[trigger] block_at(data + more, i) == block_at(data, i),
    decreases count,
{
    assert(forall|i: int|
        0 <= i < count ==> #[trigger] block_at(data + more, i) =~= block_at(data, i));
    if count > 0 {
        lemma_block_frames_extend(data, more, count - 1);
    }
}

/// Encoding sets out.
pub(crate) proof fn lemma_encoding_start(o: EncoderView, input: Seq<u8>, spare: int)
    requires
        o.valid(),
        spare >= 0,
    ensures
        encoding(o, o, input, 0, spare, Seq::empty()),
{
    reveal(encoding);
    let data = o.block + input.take(0);
    assert(data =~= o.block);
    assert(o.block.skip(0) =~= o.block);
    assert(Seq::<u8>::empty() + o.pending =~= o.pending + Seq::empty());
}

/// Encoding gets past the stream identifier, or is held up by it.
pub(crate) proof fn lemma_encoding_identifier(
    o: EncoderView,
    cur: EncoderView,
    input: Seq<u8>,
    n: int,
    spare: int,
    w: Seq<u8>,
)
    requires
        encoding(o, cur, input, n, spare, w),
        cur.phase is Identifier,
    ensures
        cur == o,
        n == 0,
        w == Seq::<u8>::empty(),
        o.past_identifier(spare).valid(),
        o.held_up(spare) ==> encoded(
            o,
            o.past_identifier(spare),
            input,
            0,
            spare,
            o.pending.take(min(spare, o.pending.len() as int)),
        ),
        !o.held_up(spare) ==> encoding(
            o,
            o.past_identifier(spare),
            input,
            0,
            spare,
            o.pending.take(min(spare, o.pending.len() as int)),
        ),
{
    reveal(encoding);
    if !o.held_up(spare) {
        let f = o.past_identifier(spare);
        assert(o.pending.take(o.pending.len() as int) =~= o.pending);
        assert(f.pending =~= Seq::empty());
        assert(o.pending + f.pending =~= w + o.pending);
    }
}

/// Encoding takes in input that does not complete a block, and is through with that.
proof fn lemma_encoding_gathers(
    o: EncoderView,
    cur: EncoderView,
    next: EncoderView,
    input: Seq<u8>,
    n: int,
    m: int,
    spare: int,
    w: Seq<u8>,
    more: Seq<u8>,
)
    requires
        encoding(o, cur, input, n, spare, w),
        cur.phase is Buffering,
        block_step(cur, next, input.skip(n), m, spare - w.len(), more, false),
    ensures
        encoding(o, next, input, n + m, spare, w + more),
        n + m == input.len(),
        next.phase is Buffering,
{
    reveal(encoding);
    let data = o.block + input.take(n);
    let count = block_count(data);
    let taken = input.skip(n);
    let data2 = o.block + input.take(n + m);
    assert(data2 =~= data + taken);
    lemma_block_frames_extend(data, taken, count);
    assert(next.block =~= data2.skip(count * MAX_BLOCK_SIZE));
    assert(w + more =~= w);
}

/// Encoding completes a block and makes a frame of it.
proof fn lemma_encoding_frames(
    o: EncoderView,
    cur: EncoderView,
    next: EncoderView,
    input: Seq<u8>,
    n: int,
    m: int,
    spare: int,
    w: Seq<u8>,
    more: Seq<u8>,
)
    requires
        encoding(o, cur, input, n, spare, w),
        cur.phase is Buffering,
        block_step(cur, next, input.skip(n), m, spare - w.len(), more, true),
        w.len() + more.len() <= spare,
    ensures
        encoding(o, next, input, n + m, spare, w + more),
        m > 0,
{
    reveal(encoding);
    let data = o.block + input.take(n);
    let count = block_count(data);
    let taken = input.skip(n).take(m);
    let data2 = o.block + input.take(n + m);
    let block = cur.block + taken;
    assert(data2 =~= data + taken);
    lemma_block_frames_extend(data, taken, count);
    assert(block_at(data2, count) =~= block);
    assert(next.block =~= data2.skip((count + 1) * MAX_BLOCK_SIZE));
    assert(w =~= w + cur.pending);
    assert(w + more + next.pending =~= w + frame(block));
    assert(w + frame(block) =~= o.pending + block_frames(data2, count + 1));
}

/// One unit of progress keeps encoding on its way, or brings it home.
pub(crate) proof fn lemma_encoding_block(
    o: EncoderView,
    cur: EncoderView,
    next: EncoderView,
    input: Seq<u8>,
    n: int,
    m: int,
    spare: int,
    w: Seq<u8>,
    more: Seq<u8>,
    framed: bool,
)
    requires
        encoding(o, cur, input, n, spare, w),
        cur.phase is Buffering,
        block_step(cur, next, input.skip(n), m, spare - w.len(), more, framed),
        w.len() + more.len() <= spare,
    ensures
        next.valid(),
        framed ==> m > 0 && encoding(o, next, input, n + m, spare, w + more),
        !framed ==> encoded(o, next, input, n + m, spare, w + more),
{
    if framed {
        lemma_encoding_frames(o, cur, next, input, n, m, spare, w, more);
    } else {
        lemma_encoding_gathers(o, cur, next, input, n, m, spare, w, more);
    }
    reveal(encoding);
}

/// Draining keeps encoding on its way, or brings it home.
pub(crate) proof fn lemma_encoding_drain(
    o: EncoderView,
    cur: EncoderView,
    next: EncoderView,
    input: Seq<u8>,
    n: int,
    spare: int,
    w: Seq<u8>,
    more: Seq<u8>,
    done: bool,
)
    requires
        encoding(o, cur, input, n, spare, w),
        cur.phase is Draining,
        drained(cur, next, spare - w.len(), more, done),
    ensures
        !done ==> next.valid() && encoded(o, next, input, n, spare, w + more),
        done ==> encoding(
            o,
            EncoderView { phase: Phase::Buffering, pending: Seq::empty(), block: Seq::empty() },
            input,
            n,
            spare,
            w + more,
        ),
{
    reveal(encoding);
    assert(w + more + next.pending =~= w + cur.pending);
    assert(done ==> next.pending =~= Seq::empty());
    assert(cur.block =~= Seq::empty());
}

/// More blocks take more frames.
pub(crate) proof fn lemma_block_frames_len(data: Seq<u8>, few: int, many: int)
    requires
        few <= many,
    ensures
        block_frames(data, few).len() <= block_frames(data, many).len(),
    decreases many - few,
{
    if few < many {
        lemma_block_frames_len(data, few, many - 1);
    }
}

/// Encoding that has not taken any input, and found no frame on its way out, has gone straight to
/// the output.
pub(crate) proof fn lemma_at_once_start(o: EncoderView, input: Seq<u8>, spare: int)
    requires
        o.valid(),
    ensures
        encodes_at_once(o, input, 0, spare) <==> !(o.phase is Draining),
{
    assert(o.block + input.take(0) =~= o.block);
}

/// A unit of progress that leaves a frame pending does not go straight to the output, and one
/// behind that does not make up for it.
pub(crate) proof fn lemma_at_once_block(
    o: EncoderView,
    cur: EncoderView,
    next: EncoderView,
    input: Seq<u8>,
    n: int,
    m: int,
    spare: int,
    w: Seq<u8>,
    more: Seq<u8>,
    framed: bool,
)
    requires
        encoding(o, cur, input, n, spare, w),
        cur.phase is Buffering,
        block_step(cur, next, input.skip(n), m, spare - w.len(), more, framed),
    ensures
        next.phase is Draining ==> !encodes_at_once(o, input, n + m, spare),
        encodes_at_once(o, input, n + m, spare) ==> encodes_at_once(o, input, n, spare),
{
    reveal(encoding);
    let data = o.block + input.take(n);
    let count = block_count(data);
    let taken = input.skip(n).take(m);
    let data2 = o.block + input.take(n + m);
    let count2 = block_count(data2);
    assert(data2 =~= data + taken);
    lemma_block_frames_extend(data, taken, count);
    if count > 0 {
        lemma_block_frames_extend(data, taken, count - 1);
        lemma_block_frames_len(data2, count - 1, count2 - 1);
    }
    if next.phase is Draining {
        assert(count2 == count + 1);
        assert(w.len() == o.pending.len() + block_frames(data, count).len());
    }
}

/// Input wakes an encoder that has been flushed; without any, encoding is through.
pub(crate) proof fn lemma_encoding_flushed(
    o: EncoderView,
    cur: EncoderView,
    input: Seq<u8>,
    n: int,
    spare: int,
    w: Seq<u8>,
)
    requires
        encoding(o, cur, input, n, spare, w),
        cur.phase is Flushed,
    ensures
        n == 0,
        input.len() == 0 ==> encoded(o, cur, input, n, spare, w),
        input.len() > 0 ==> encoding(
            o,
            EncoderView { phase: Phase::Buffering, ..cur },
            input,
            n,
            spare,
            w,
        ),
{
    reveal(encoding);
}

/// Flushing on its way from the view `o`, arrived at the view `cur`, with `w` written so far.
#[verifier::opaque]
pub open spec fn flushing(o: EncoderView, cur: EncoderView, spare: int, w: Seq<u8>) -> bool {
    &&& cur.valid()
    &&& w.len() <= spare
    &&& match cur.phase {
        Phase::Identifier => cur == o && w == Seq::<u8>::empty(),
        Phase::Buffering => {
            &&& !o.held_up(spare)
            &&& o.phase is Identifier || o.phase is Buffering
            &&& w == o.pending
            &&& cur.block == o.block
        },
        Phase::Draining | Phase::Flushed => {
            &&& !o.held_up(spare)
            &&& o.phase is Identifier || o.phase is Buffering ==> restorable(o.block)
            &&& w + cur.pending == flush_bytes(o)
        },
    }
}

/// Flushing sets out.
pub(crate) proof fn lemma_flushing_start(o: EncoderView, spare: int)
    requires
        o.valid(),
        spare >= 0,
    ensures
        flushing(o, o, spare, Seq::empty()),
{
    reveal(flushing);
    assert(Seq::<u8>::empty() + o.pending =~= o.pending);
}

/// Flushing gets past the stream identifier, or is held up by it.
pub(crate) proof fn lemma_flushing_identifier(
    o: EncoderView,
    cur: EncoderView,
    spare: int,
    w: Seq<u8>,
)
    requires
        flushing(o, cur, spare, w),
        cur.phase is Identifier,
    ensures
        cur == o,
        w == Seq::<u8>::empty(),
        o.past_identifier(spare).valid(),
        o.held_up(spare) ==> flushed(
            o,
            o.past_identifier(spare),
            spare,
            o.pending.take(min(spare, o.pending.len() as int)),
            false,
        ),
        !o.held_up(spare) ==> flushing(
            o,
            o.past_identifier(spare),
            spare,
            o.pending.take(min(spare, o.pending.len() as int)),
        ),
{
    reveal(flushing);
    if !o.held_up(spare) {
        assert(o.pending.take(o.pending.len() as int) =~= o.pending);
    }
}

/// Making the frame keeps flushing on its way.
pub(crate) proof fn lemma_flushing_block(
    o: EncoderView,
    cur: EncoderView,
    next: EncoderView,
    spare: int,
    w: Seq<u8>,
    more: Seq<u8>,
)
    requires
        flushing(o, cur, spare, w),
        cur.phase is Buffering,
        flush_step(cur, next, spare - w.len(), more),
        w.len() + more.len() <= spare,
    ensures
        next.valid(),
        flushing(o, next, spare, w + more),
        next.phase is Draining ==> !flushes_at_once(o, spare),
{
    reveal(flushing);
    assert(w + more + next.pending =~= w + frame(o.block));
}

/// Draining keeps flushing on its way, or is as far as it gets.
pub(crate) proof fn lemma_flushing_drain(
    o: EncoderView,
    cur: EncoderView,
    next: EncoderView,
    spare: int,
    w: Seq<u8>,
    more: Seq<u8>,
    done: bool,
)
    requires
        flushing(o, cur, spare, w),
        cur.phase is Draining,
        drained(cur, next, spare - w.len(), more, done),
    ensures
        !o.held_up(spare),
        !done ==> next.valid() && flushed(o, next, spare, w + more, false),
        done ==> flushing(
            o,
            EncoderView { phase: Phase::Flushed, pending: Seq::empty(), block: Seq::empty() },
            spare,
            w + more,
        ),
{
    reveal(flushing);
    let all = flush_bytes(o);
    assert(w + more + next.pending =~= all);
    assert(w + more =~= all.take((w + more).len() as int));
    assert(next.pending =~= all.skip((w + more).len() as int));
    assert(next.block =~= Seq::empty());
    assert(done ==> next.pending =~= Seq::empty());
}

/// Flushing is through.
pub(crate) proof fn lemma_flushing_done(o: EncoderView, cur: EncoderView, spare: int, w: Seq<u8>)
    requires
        flushing(o, cur, spare, w),
        cur.phase is Flushed,
    ensures
        !o.held_up(spare),
        flushed(o, cur, spare, w, true),
{
    reveal(flushing);
    let all = flush_bytes(o);
    assert(w =~= all);
    assert(all.take(all.len() as int) =~= all);
    assert(all.skip(all.len() as int) =~= cur.pending);
    assert(cur.block =~= Seq::empty());
}

} // verus!
