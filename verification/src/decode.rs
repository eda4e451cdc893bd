use crate::common::{Error, Parser};
use vstd::prelude::*;

verus! {

/// Reads the frame at the front of `input` in the revision `D`.
pub fn decode<'a, D: Parser<'a>>(input: &'a [u8]) -> (r: Result<Option<D::Frame>, Error>)
    ensures
        D::parses(input@, r),
{
    D::parse(input)
}

} // verus!
