use vstd::prelude::*;

verus! {

/// One token of the classical revision: a line, or a length line with its
/// payload line.
#[derive(Debug, PartialEq)]
pub enum Tag<'a> {
    SimpleString(&'a [u8]),
    SimpleError(&'a [u8]),
    BulkString(&'a [u8]),
    Null,
    Integer(i64),
    Array(u64),
}

/// What a token is, apart from where its bytes are stored.
pub enum TagView {
    SimpleString(Seq<u8>),
    SimpleError(Seq<u8>),
    BulkString(Seq<u8>),
    Null,
    Integer(i64),
    Array(u64),
}

impl<'a> View for Tag<'a> {
    type V = TagView;

    open spec fn view(&self) -> TagView {
        match self {
            Tag::SimpleString(data) => TagView::SimpleString(data@),
            Tag::SimpleError(data) => TagView::SimpleError(data@),
            Tag::BulkString(data) => TagView::BulkString(data@),
            Tag::Null => TagView::Null,
            Tag::Integer(n) => TagView::Integer(*n),
            Tag::Array(n) => TagView::Array(*n),
        }
    }
}

} // verus!
