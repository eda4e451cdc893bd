use vstd::prelude::*;

verus! {

/// The kind of a token. The kinds that open a group of frames carry the
/// number of members that the token announces.
#[derive(Debug, PartialEq, Eq, Clone, Copy, Structural)]
pub enum TagType {
    Attribute(u64),
    BulkString,
    SimpleString,
    SimpleError,
    Integer,
    Array(u64),
    Null,
    Boolean,
    Double,
    BigNumber,
    BulkError,
    VerbatimString,
    MapFrame(u64),
    SetFrame(u64),
    Push(u64),
}

/// One token of the extended revision: its kind, and the range of the
/// buffer that holds its text or its payload.
#[derive(Debug, PartialEq, Eq, Clone, Copy, Structural)]
pub struct Tag {
    pub start_position: usize,
    pub end_position: usize,
    pub tag_type: TagType,
}

} // verus!
