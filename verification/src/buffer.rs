//! Byte buffers that are read or filled over several calls.
use vstd::prelude::*;

verus! {

/// A source of bytes.
pub trait AsBytes {
    /// The bytes, as a sequence.
    spec fn bytes(&self) -> Seq<u8>;

    /// The bytes, as a slice.
    fn as_bytes(&self) -> (bytes: &[u8])
        ensures
            bytes@ == self.bytes(),
    ;
}

impl AsBytes for &[u8] {
    open spec fn bytes(&self) -> Seq<u8> {
        (*self)@
    }

    fn as_bytes(&self) -> (bytes: &[u8]) {
        *self
    }
}

impl AsBytes for Vec<u8> {
    open spec fn bytes(&self) -> Seq<u8> {
        self@
    }

    fn as_bytes(&self) -> (bytes: &[u8]) {
        self.as_slice()
    }
}

impl<const N: usize> AsBytes for [u8; N] {
    open spec fn bytes(&self) -> Seq<u8> {
        self@
    }

    fn as_bytes(&self) -> (bytes: &[u8]) {
        self
    }
}

/// A source of bytes of which a prefix has been passed on already.
#[derive(Debug)]
pub struct PartialBuffer<B> {
    buffer: B,
    index: usize,
}

impl<B: AsBytes> PartialBuffer<B> {
    /// The source.
    pub closed spec fn source(&self) -> B {
        self.buffer
    }

    /// How many bytes have been passed on.
    pub closed spec fn position(&self) -> nat {
        self.index as nat
    }

    /// No more has been passed on than there is.
    pub open spec fn wf(&self) -> bool {
        self.position() <= self.source().bytes().len()
    }

    /// The bytes that are still to be passed on.
    pub open spec fn rest(&self) -> Seq<u8> {
        self.source().bytes().skip(self.position() as int)
    }

    /// `after` is `self` with `amount` more bytes passed on.
    pub open spec fn advanced(&self, amount: int, after: &PartialBuffer<B>) -> bool {
        &&& after.wf()
        &&& after.source() == self.source()
        &&& after.position() == self.position() + amount
        &&& 0 <= amount <= self.rest().len()
        &&& after.rest() == self.rest().skip(amount)
    }

    /// A buffer of which nothing has been passed on.
    pub fn new(buffer: B) -> (r: Self)
        ensures
            r.source() == buffer,
            r.position() == 0,
            r.wf(),
            r.rest() == buffer.bytes(),
    {
        PartialBuffer { buffer, index: 0 }
    }

    /// The bytes that are still to be passed on.
    pub fn unwritten(&self) -> (bytes: &[u8])
        requires
            self.wf(),
        ensures
            bytes@ == self.rest(),
    {
        let bytes = self.buffer.as_bytes();
        vstd::slice::slice_subrange(bytes, self.index, bytes.len())
    }

    /// Passes `amount` bytes on.
    pub fn advance(&mut self, amount: usize)
        requires
            old(self).wf(),
            amount <= old(self).rest().len(),
        ensures
            old(self).advanced(amount as int, final(self)),
    {
        let len: usize = self.buffer.as_bytes().len();
        assert(self.index + amount <= len);
        self.index = self.index + amount;
        assert(self.rest() =~= old(self).rest().skip(amount as int));
    }

    /// The source, to look at.
    pub fn get_ref(&self) -> (buffer: &B)
        ensures
            *buffer == self.source(),
    {
        &self.buffer
    }

    /// The source, to change. The position stays where it is.
    pub fn get_mut(&mut self) -> (buffer: &mut B)
        ensures
            *buffer == old(self).source(),
            final(self).source() == *final(buffer),
            final(self).position() == old(self).position(),
    {
        &mut self.buffer
    }

    /// Returns to the front of the source.
    pub fn reset(&mut self)
        ensures
            final(self).wf(),
            final(self).source() == old(self).source(),
            final(self).position() == 0,
            final(self).rest() == old(self).source().bytes(),
    {
        self.index = 0;
    }
}

/// Passing on twice is passing on both amounts.
pub(crate) proof fn lemma_advanced_twice<B: AsBytes>(
    a: &PartialBuffer<B>,
    b: &PartialBuffer<B>,
    c: &PartialBuffer<B>,
    n: int,
    m: int,
)
    requires
        a.advanced(n, b),
        b.advanced(m, c),
    ensures
        a.advanced(n + m, c),
{
    assert(a.rest().skip(n).skip(m) =~= a.rest().skip(n + m));
}

/// Overwrites `dest` with `src`.
pub(crate) fn write_copy_of_slice<T: Copy>(dest: &mut [T], src: &[T])
    requires
        old(dest)@.len() == src@.len(),
    ensures
        final(dest)@ == src@,
{
    let len: usize = src.len();
    for i in 0..len
        invariant
            len == src@.len(),
            dest@.len() == len,
            dest@.take(i as int) == src@.take(i as int),
    {
        dest[i] = src[i];
    }
    assert(src@.take(len as int) =~= src@);
}

/// Borrowed storage that is filled from the front.
///
/// `index` bytes have been written. The first `initialized` bytes of the storage have been given a
/// value, by its owner or by writing; what the others hold is of no account.
#[derive(Debug)]
pub struct WriteBuffer<'a> {
    pub buffer: &'a mut [u8],
    pub index: usize,
    pub initialized: usize,
}

impl<'a> WriteBuffer<'a> {
    /// What is written is initialized, and both fit in the storage.
    pub open spec fn wf(&self) -> bool {
        self.index <= self.initialized <= self.buffer@.len()
    }

    /// The bytes written.
    pub open spec fn view(&self) -> Seq<u8> {
        self.buffer@.take(self.index as int)
    }

    /// How many bytes the storage takes.
    pub open spec fn cap(&self) -> nat {
        self.buffer@.len()
    }

    /// How many more bytes fit.
    pub open spec fn spare(&self) -> int {
        self.cap() - self.index
    }

    /// `after` is `self` with `bytes` written behind what was there.
    pub open spec fn extended(&self, bytes: Seq<u8>, after: &WriteBuffer<'_>) -> bool {
        &&& after.wf()
        &&& after.cap() == self.cap()
        &&& after@ == self@ + bytes
        &&& after.index == self.index + bytes.len()
        &&& after.initialized == if self.initialized < after.index {
            after.index
        } else {
            self.initialized
        }
    }

    /// Storage that has not been given any value yet.
    pub fn new_uninitialized(buffer: &'a mut [u8]) -> (r: WriteBuffer<'a>)
        ensures
            r.wf(),
            r.buffer@ == old(buffer)@,
            r.index == 0,
            r.initialized == 0,
            r@ == Seq::<u8>::empty(),
            final(r.buffer)@ == final(buffer)@,
    {
        WriteBuffer { buffer, index: 0, initialized: 0 }
    }

    /// Storage all of whose bytes have been given a value already.
    pub fn new_initialized(buffer: &'a mut [u8]) -> (r: WriteBuffer<'a>)
        ensures
            r.wf(),
            r.buffer@ == old(buffer)@,
            r.index == 0,
            r.initialized == old(buffer)@.len(),
            r@ == Seq::<u8>::empty(),
            final(r.buffer)@ == final(buffer)@,
    {
        let initialized: usize = buffer.len();
        WriteBuffer { buffer, index: 0, initialized }
    }

    /// How many bytes the storage takes.
    pub fn capacity(&self) -> (n: usize)
        ensures
            n == self.cap(),
    {
        self.buffer.len()
    }

    /// The bytes written.
    pub fn written(&self) -> (bytes: &[u8])
        requires
            self.wf(),
        ensures
            bytes@ == self@,
    {
        vstd::slice::slice_subrange(self.buffer, 0, self.index)
    }

    /// How many bytes are written.
    pub fn written_len(&self) -> (n: usize)
        requires
            self.wf(),
        ensures
            n == self@.len(),
    {
        self.index
    }

    /// How many bytes of the storage are initialized.
    pub fn initialized_len(&self) -> (n: usize)
        ensures
            n == self.initialized,
    {
        self.initialized
    }

    /// Whether the storage is full.
    pub fn has_no_spare_space(&self) -> (full: bool)
        requires
            self.wf(),
        ensures
            full <==> self.spare() == 0,
    {
        self.index == self.buffer.len()
    }

    /// Passes on as much of `other` as fits, and returns how much that was.
    pub fn copy_unwritten_from<B: AsBytes>(&mut self, other: &mut PartialBuffer<B>) -> (n: usize)
        requires
            old(self).wf(),
            old(other).wf(),
        ensures
            n == if old(self).spare() < old(other).rest().len() {
                old(self).spare()
            } else {
                old(other).rest().len() as int
            },
            old(self).extended(old(other).rest().take(n as int), final(self)),
            final(self).buffer@.skip(final(self).index as int) == old(self).buffer@.skip(
                final(self).index as int,
            ),
            final(final(self).buffer)@ == final(old(self).buffer)@,
            old(other).advanced(n as int, final(other)),
    {
        let src = other.unwritten();
        let spare: usize = self.buffer.len() - self.index;
        let n: usize = if spare < src.len() {
            spare
        } else {
            src.len()
        };
        let (_, unwritten) = self.buffer.split_at_mut(self.index);
        let (dest, _) = unwritten.split_at_mut(n);
        write_copy_of_slice(dest, vstd::slice::slice_subrange(src, 0, n));
        self.index = self.index + n;
        if self.initialized < self.index {
            self.initialized = self.index;
        }
        other.advance(n);
        assert(self@ =~= old(self)@ + old(other).rest().take(n as int));
        n
    }
}

/// Writing twice is writing both parts, one behind the other.
pub(crate) proof fn lemma_extended_twice(
    a: &WriteBuffer<'_>,
    b: &WriteBuffer<'_>,
    c: &WriteBuffer<'_>,
    x: Seq<u8>,
    y: Seq<u8>,
)
    requires
        a.wf(),
        a.extended(x, b),
        b.extended(y, c),
    ensures
        a.extended(x + y, c),
        b@.skip(a@.len() as int) == x,
        c@.skip(b@.len() as int) == y,
        c@.skip(a@.len() as int) == x + y,
{
    assert(a@ + x + y =~= a@ + (x + y));
}

/// What is still to be passed on of a buffer is what its source holds from the position on.
pub proof fn law_rest<B: AsBytes>(buffer: &PartialBuffer<B>, i: int)
    requires
        buffer.wf(),
    ensures
        buffer.position() + buffer.rest().len() == buffer.source().bytes().len(),
        0 <= i < buffer.rest().len() ==> buffer.rest()[i] == buffer.source().bytes()[
            buffer.position() + i],
{
}

/// The bytes of a source are what it holds.
pub proof fn law_bytes<const N: usize>(slice: &[u8], vec: Vec<u8>, array: [u8; N])
    ensures
        slice.bytes() == slice@,
        vec.bytes() == vec@,
        array.bytes() == array@,
{
}

/// Passing on takes bytes off the front of what was to be passed on, as many as it says, and
/// leaves the source as it was.
pub proof fn law_advanced<B: AsBytes>(
    before: &PartialBuffer<B>,
    after: &PartialBuffer<B>,
    amount: int,
)
    requires
        before.wf(),
        before.advanced(amount, after),
    ensures
        0 <= amount <= before.rest().len(),
        after.source() == before.source(),
        after.position() == before.position() + amount,
        before.rest() == before.rest().take(amount) + after.rest(),
{
    assert(before.rest() =~= before.rest().take(amount) + after.rest());
}

/// Writing puts the bytes right behind those written before, which stay, and takes that much of
/// the room. Storage counts as initialized as far as it did before or is written.
pub proof fn law_extended(before: &WriteBuffer<'_>, after: &WriteBuffer<'_>, bytes: Seq<u8>)
    requires
        before.wf(),
        before.extended(bytes, after),
    ensures
        old(after.buffer)@.len() == old(before.buffer)@.len(),
        after.index == before.index + bytes.len(),
        after.index <= after.initialized <= old(after.buffer)@.len(),
        after.initialized == before.initialized || after.initialized == after.index,
        before.initialized <= after.initialized,
        old(after.buffer)@.take(before.index as int) == old(before.buffer)@.take(
            before.index as int,
        ),
        old(after.buffer)@.subrange(before.index as int, after.index as int) == bytes,
        after@ == old(after.buffer)@.take(after.index as int),
        after.cap() == old(after.buffer)@.len(),
        after.spare() == old(after.buffer)@.len() - after.index,
{
    let storage = after.buffer@;
    let from = before.index as int;
    assert(storage.take(from) =~= after@.take(from));
    assert(after@.take(from) =~= before@);
    assert(storage.subrange(from, after.index as int) =~= after@.skip(from));
    assert(after@.skip(from) =~= bytes);
}

} // verus!
