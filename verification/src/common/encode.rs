use crate::common::error::Error;
use vstd::prelude::*;

verus! {

/// A value whose encoded size is known before it is encoded.
pub trait EncodeLen {
    /// The number of bytes of the value's encoding.
    spec fn encoded_len(&self) -> nat;

    /// The exact number of bytes that encoding the value writes.
    fn encode_len(&self) -> (n: usize)
        requires
            self.encoded_len() <= usize::MAX,
        ensures
            n == self.encoded_len(),
    ;
}

/// A revision of the protocol that can write a frame as bytes.
pub trait Encoder<'a> {
    /// The frames of the revision.
    type Frame: EncodeLen;

    /// What encoding hands out.
    type Item;

    /// Whether `result` is what encoding `frame` comes to.
    spec fn encodes(frame: Self::Frame, result: Result<Self::Item, Error>) -> bool;

    /// Encodes `frame`.
    fn encode(frame: Self::Frame) -> (r: Result<Self::Item, Error>)
        ensures
            Self::encodes(frame, r),
    ;
}

/// A revision of the protocol that can write a frame to a byte sink.
pub trait EncodeWithWriter<'a> {
    /// The frames of the revision.
    type Frame: EncodeLen;

    /// The bytes that `frame` is written as.
    spec fn written(frame: Self::Frame) -> Seq<u8>;

    /// Appends the encoding of `frame` to `writer`.
    fn encode_with_writer(frame: Self::Frame, writer: &mut Vec<u8>) -> (r: Result<(), Error>)
        ensures
            r is Ok,
            final(writer)@ == old(writer)@ + Self::written(frame),
    ;
}

/// Appends `bytes` to `out`.
pub fn put(out: &mut Vec<u8>, bytes: &[u8])
    ensures
        final(out)@ == old(out)@ + bytes@,
{
    out.extend_from_slice(bytes);
    assert(out@ =~= old(out)@ + bytes@);
}

} // verus!
