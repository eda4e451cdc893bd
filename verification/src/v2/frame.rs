use crate::common::encode::{put, EncodeLen};
use crate::common::error::Error;
use crate::common::mark::{COLON, DOLLAR, MINUS, ONE, PLUS, STAR};
use crate::common::scan::{CR, LF};
use crate::common::text::{decimal, number_text};
use vstd::prelude::*;

verus! {

broadcast use vstd::std_specs::vec::group_vec_axioms;

/// A frame of the classical revision. Byte payloads are borrowed from the
/// buffer that was decoded.
#[derive(Debug, PartialEq)]
pub enum Frame<'a> {
    BulkString(&'a [u8]),
    Null,
    Integer(i64),
    Array(Vec<Frame<'a>>),
    SimpleError(&'a [u8]),
    SimpleString(&'a [u8]),
}

/// What a frame is, apart from where its bytes are stored.
pub enum FrameView {
    BulkString(Seq<u8>),
    Null,
    Integer(i64),
    Array(Seq<FrameView>),
    SimpleError(Seq<u8>),
    SimpleString(Seq<u8>),
}

impl<'a> View for Frame<'a> {
    type V = FrameView;

    open spec fn view(&self) -> FrameView
        decreases self,
    {
        match self {
            Frame::BulkString(data) => FrameView::BulkString(data@),
            Frame::Null => FrameView::Null,
            Frame::Integer(n) => FrameView::Integer(*n),
            Frame::Array(items) => FrameView::Array(first_views(*items, items.len() as int)),
            Frame::SimpleError(data) => FrameView::SimpleError(data@),
            Frame::SimpleString(data) => FrameView::SimpleString(data@),
        }
    }
}

/// The views of the first `n` frames of `items`, in order.
pub open spec fn first_views(items: Vec<Frame>, n: int) -> Seq<FrameView>
    decreases items, n,
{
    if n <= 0 || n > items.len() {
        Seq::empty()
    } else {
        first_views(items, n - 1).push(items[n - 1]@)
    }
}

/// The views of the frames of `items`, in order.
pub open spec fn views(items: Seq<Frame>) -> Seq<FrameView> {
    Seq::new(items.len(), |i: int| items[i]@)
}

/// The two bytes that end a line.
pub open spec fn crlf() -> Seq<u8> {
    seq![CR, LF]
}

/// The bytes that stand for a frame on the wire.
pub open spec fn encoding(f: FrameView) -> Seq<u8>
    decreases f,
{
    match f {
        FrameView::Null => seq![DOLLAR, MINUS, ONE] + crlf(),
        FrameView::Integer(n) => seq![COLON] + decimal(n as int) + crlf(),
        FrameView::SimpleString(text) => seq![PLUS] + text + crlf(),
        FrameView::SimpleError(text) => seq![MINUS] + text + crlf(),
        FrameView::BulkString(text) => seq![DOLLAR] + decimal(text.len() as int) + crlf() + text
            + crlf(),
        FrameView::Array(items) => seq![STAR] + decimal(items.len() as int) + crlf()
            + encoding_of_first(items, items.len() as int),
    }
}

/// The encodings of the first `n` frames of `items`, one after the other.
pub open spec fn encoding_of_first(items: Seq<FrameView>, n: int) -> Seq<u8>
    decreases items, n,
{
    if n <= 0 || n > items.len() {
        Seq::empty()
    } else {
        encoding_of_first(items, n - 1) + encoding(items[n - 1])
    }
}

/// The view of an array is the array of the views of its items.
pub proof fn lemma_array_view(items: Vec<Frame>)
    ensures
        Frame::Array(items)@ == FrameView::Array(views(items@)),
{
    lemma_first_views(items, items.len() as int);
    assert(views(items@).take(items.len() as int) =~= views(items@));
}

/// `first_views` takes the first `n` of the items' views.
pub proof fn lemma_first_views(items: Vec<Frame>, n: int)
    requires
        0 <= n <= items.len(),
    ensures
        first_views(items, n) == views(items@).take(n),
    decreases n,
{
    if n > 0 {
        lemma_first_views(items, n - 1);
        assert(first_views(items, n) == first_views(items, n - 1).push(items[n - 1]@));
        assert(items[n - 1] == items@[n - 1]);
        assert(views(items@)[n - 1] == items@[n - 1]@);
        assert(first_views(items, n) =~= views(items@).take(n));
    } else {
        assert(first_views(items, n) =~= views(items@).take(n));
    }
}

/// The encoding of the first `n` items grows with `n`, and each item's
/// encoding is a part of it.
pub proof fn lemma_encoding_of_first_len(items: Seq<FrameView>, n: int, m: int)
    requires
        0 <= n <= m <= items.len(),
    ensures
        encoding_of_first(items, n).len() <= encoding_of_first(items, m).len(),
        n < m ==> encoding_of_first(items, n).len() + encoding(items[n]).len()
            <= encoding_of_first(items, m).len(),
    decreases m - n,
{
    if n < m {
        lemma_encoding_of_first_len(items, n + 1, m);
    }
}

impl<'a> Frame<'a> {
    /// The frame's encoding.
    pub fn encode(&self) -> (out: Vec<u8>)
        ensures
            out@ == encoding(self@),
    {
        let mut out = Vec::new();
        let _ = self.encode_with_writer(&mut out);
        assert(out@ =~= encoding(self@));
        out
    }

    /// Appends the frame's encoding to `writer`, and never fails.
    pub fn encode_with_writer(&self, writer: &mut Vec<u8>) -> (r: Result<(), Error>)
        ensures
            r is Ok,
            final(writer)@ == old(writer)@ + encoding(self@),
        decreases self,
    {
        match self {
            Frame::Null => {
                put(writer, &[DOLLAR, MINUS, ONE, CR, LF]);
                assert(writer@ =~= old(writer)@ + encoding(self@));
            },
            Frame::Integer(num) => {
                let text = number_text(*num as i128);
                writer.push(COLON);
                put(writer, text.as_slice());
                put(writer, &[CR, LF]);
                assert(writer@ =~= old(writer)@ + encoding(self@));
            },
            Frame::SimpleString(text) => {
                writer.push(PLUS);
                put(writer, text);
                put(writer, &[CR, LF]);
                assert(writer@ =~= old(writer)@ + encoding(self@));
            },
            Frame::SimpleError(text) => {
                writer.push(MINUS);
                put(writer, text);
                put(writer, &[CR, LF]);
                assert(writer@ =~= old(writer)@ + encoding(self@));
            },
            Frame::BulkString(text) => {
                let len_text = number_text(text.len() as i128);
                writer.push(DOLLAR);
                put(writer, len_text.as_slice());
                put(writer, &[CR, LF]);
                put(writer, text);
                put(writer, &[CR, LF]);
                assert(writer@ =~= old(writer)@ + encoding(self@));
            },
            Frame::Array(items) => {
                let len_text = number_text(items.len() as i128);
                writer.push(STAR);
                put(writer, len_text.as_slice());
                put(writer, &[CR, LF]);
                let ghost head = writer@;
                let ghost all = views(items@);
                proof {
                    lemma_array_view(*items);
                    assert(head =~= old(writer)@ + (seq![STAR] + decimal(items.len() as int)
                        + crlf()));
                }
                let mut i: usize = 0;
                while i < items.len()
                    invariant
                        0 <= i <= items.len(),
                        *self == Frame::Array(*items),
                        all == views(items@),
                        writer@ == head + encoding_of_first(all, i as int),
                    decreases items.len() - i,
                {
                    let ghost before = writer@;
                    assert(decreases_to!(items => items[i as int]));
                    assert(*self matches Frame::Array(v) && v == *items);
                    let _ = items[i].encode_with_writer(writer);
                    proof {
                        assert(all[i as int] == items[i as int]@);
                        assert(writer@ =~= head + encoding_of_first(all, i + 1));
                    }
                    i += 1;
                }
                assert(writer@ =~= old(writer)@ + encoding(self@));
            },
        }
        Ok(())
    }
}

impl<'a> EncodeLen for Frame<'a> {
    open spec fn encoded_len(&self) -> nat {
        encoding(self@).len()
    }

    fn encode_len(&self) -> (n: usize)
        decreases self,
    {
        match self {
            Frame::Null => 5,
            Frame::Integer(num) => {
                let text = number_text(*num as i128);
                3 + text.len()
            },
            Frame::SimpleString(text) => 3 + text.len(),
            Frame::SimpleError(text) => 3 + text.len(),
            Frame::BulkString(text) => {
                let len_text = number_text(text.len() as i128);
                3 + len_text.len() + text.len() + 2
            },
            Frame::Array(items) => {
                let len_text = number_text(items.len() as i128);
                let ghost all = views(items@);
                proof {
                    lemma_array_view(*items);
                }
                let mut total: usize = 3 + len_text.len();
                let mut i: usize = 0;
                while i < items.len()
                    invariant
                        0 <= i <= items.len(),
                        *self == Frame::Array(*items),
                        all == views(items@),
                        total == 3 + len_text@.len() + encoding_of_first(all, i as int).len(),
                        3 + len_text@.len() + encoding_of_first(all, items.len() as int).len()
                            <= usize::MAX,
                    decreases items.len() - i,
                {
                    proof {
                        lemma_encoding_of_first_len(all, i as int, items.len() as int);
                        assert(all[i as int] == items[i as int]@);
                        assert(decreases_to!(items => items[i as int]));
                    assert(*self matches Frame::Array(v) && v == *items);
                    }
                    total = total + items[i].encode_len();
                    i += 1;
                }
                total
            },
        }
    }
}

} // verus!
