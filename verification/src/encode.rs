use crate::common::{Encoder, Error};
use vstd::prelude::*;

verus! {

/// Encodes `frame` in the revision `E`.
pub fn encode<'a, E: Encoder<'a>>(frame: E::Frame) -> (r: Result<E::Item, Error>)
    ensures
        E::encodes(frame, r),
{
    E::encode(frame)
}

} // verus!
