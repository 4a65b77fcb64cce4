//! What encoders have in common.
use vstd::prelude::*;

use crate::buffer::{PartialBuffer, WriteBuffer};
use crate::frame::EncodeError;

verus! {

/// An encoder that is fed its input, and given room for its output, a piece at a time.
pub trait EncodeV2 {
    /// The encoder is in order.
    spec fn wf(&self) -> bool;

    /// Encodes as much of `input` as `output` has room for.
    fn encode(
        &mut self,
        input: &mut PartialBuffer<&[u8]>,
        output: &mut WriteBuffer<'_>,
    ) -> (r: Result<(), EncodeError>)
        requires
            old(self).wf(),
            old(input).wf(),
            old(output).wf(),
        ensures
            final(self).wf(),
            final(input).wf(),
            final(output).wf(),
    ;

    /// Writes out all that has been encoded. Returns whether that is done.
    fn flush(&mut self, output: &mut WriteBuffer<'_>) -> (r: Result<bool, EncodeError>)
        requires
            old(self).wf(),
            old(output).wf(),
        ensures
            final(self).wf(),
            final(output).wf(),
    ;

    /// Ends the stream. Returns whether that is done.
    fn finish(&mut self, output: &mut WriteBuffer<'_>) -> (r: Result<bool, EncodeError>)
        requires
            old(self).wf(),
            old(output).wf(),
        ensures
            final(self).wf(),
            final(output).wf(),
    ;
}

} // verus!
