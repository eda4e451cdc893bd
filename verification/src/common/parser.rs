use crate::common::error::Error;
use vstd::prelude::*;

verus! {

/// A revision of the protocol that can read one frame from a buffer.
pub trait Parser<'a> {
    /// What a successful parse hands out.
    type Frame;

    /// Whether `result` is what parsing `input` comes to.
    spec fn parses(input: Seq<u8>, result: Result<Option<Self::Frame>, Error>) -> bool;

    /// Reads the frame at the front of `input`: `Ok(None)` where the buffer
    /// does not yet hold the start of one.
    fn parse(input: &'a [u8]) -> (r: Result<Option<Self::Frame>, Error>)
        ensures
            Self::parses(input@, r),
    ;
}

/// A reader that knows how much of its buffer it has taken.
pub trait Remaining {
    /// The number of bytes taken so far.
    spec fn consumed(&self) -> nat;

    /// The number of bytes taken by the frames handed out so far.
    fn remaining(&self) -> (n: usize)
        ensures
            n == self.consumed(),
    ;
}

/// A revision of the protocol that can read the frames of a buffer one
/// after the other.
pub trait ParseIter<'a> {
    /// The reader that hands out the frames.
    type Iter: Remaining;

    /// Whether `iter` is a reader at the start of `input`.
    spec fn starts(input: Seq<u8>, iter: Self::Iter) -> bool;

    /// A reader at the start of `input`.
    fn parse_iter(input: &'a [u8]) -> (iter: Self::Iter)
        ensures
            Self::starts(input@, iter),
            iter.consumed() == 0,
    ;
}

} // verus!
