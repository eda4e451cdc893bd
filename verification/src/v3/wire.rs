use crate::common::encode::{put, EncodeLen};
use crate::common::error::Error;
use crate::common::mark::{
    BANG, COLON, COMMA, DOLLAR, EQUALS, GREATER, HASH, LETTER_F, LETTER_T, MINUS, PAREN,
    PERCENT, PIPE, PLUS, STAR, TILDE, UNDERSCORE,
};
use crate::common::scan::{CR, LF};
use crate::common::text::{decimal, number_text};
use crate::v3::frame::{lemma_view, option_views, pair_views, views, Body, Frame, FrameView};
use vstd::prelude::*;

verus! {

broadcast use vstd::std_specs::vec::group_vec_axioms;

/// The two bytes that end a line.
pub open spec fn crlf() -> Seq<u8> {
    seq![CR, LF]
}

/// A line that holds `text` after its first byte.
pub open spec fn line(mark: u8, text: Seq<u8>) -> Seq<u8> {
    seq![mark] + text + crlf()
}

/// A line that holds the number `n` in decimal after its first byte.
pub open spec fn header(mark: u8, n: int) -> Seq<u8> {
    line(mark, decimal(n))
}

/// The letter that stands for a boolean.
pub open spec fn boolean_letter(value: bool) -> u8 {
    if value {
        LETTER_T
    } else {
        LETTER_F
    }
}

/// The bytes that stand for a frame on the wire: its attribute block, where
/// it has attributes, and then what it holds.
pub open spec fn encoding(f: FrameView) -> Seq<u8>
    decreases f,
{
    attributes_encoding(f.attributes) + body_encoding(f.body)
}

/// The attribute block: nothing where there are no attributes.
pub open spec fn attributes_encoding(attributes: Option<Seq<(FrameView, FrameView)>>) -> Seq<u8>
    decreases attributes,
{
    match attributes {
        None => Seq::empty(),
        Some(pairs) => header(PIPE, pairs.len() as int) + pairs_encoding(pairs, pairs.len() as int),
    }
}

/// The bytes that stand for what a frame holds.
pub open spec fn body_encoding(body: Body) -> Seq<u8>
    decreases body,
{
    match body {
        Body::SimpleString(text) => line(PLUS, text),
        Body::SimpleError(text) => line(MINUS, text),
        Body::Boolean(value) => line(HASH, seq![boolean_letter(value)]),
        Body::Null => line(UNDERSCORE, Seq::empty()),
        Body::Integer(n) => header(COLON, n as int),
        Body::Double(text) => line(COMMA, text),
        Body::BulkString(text) => header(DOLLAR, text.len() as int) + text + crlf(),
        Body::BulkError(text) => header(BANG, text.len() as int) + text + crlf(),
        Body::VerbatimString(format, text) => header(EQUALS, text.len() as int + 4) + format + seq![COLON]
            + text + crlf(),
        Body::Array(items) => header(STAR, items.len() as int) + items_encoding(
            items,
            items.len() as int,
        ),
        Body::MapFrame(pairs) => header(PERCENT, pairs.len() as int) + pairs_encoding(
            pairs,
            pairs.len() as int,
        ),
        Body::SetFrame(items) => header(TILDE, items.len() as int) + items_encoding(
            items,
            items.len() as int,
        ),
        Body::Push(items) => header(GREATER, items.len() as int) + items_encoding(
            items,
            items.len() as int,
        ),
        Body::BigNumber(text) => line(PAREN, text),
    }
}

/// The encodings of the first `n` frames of `items`, one after the other.
pub open spec fn items_encoding(items: Seq<FrameView>, n: int) -> Seq<u8>
    decreases items, n,
{
    if n <= 0 || n > items.len() {
        Seq::empty()
    } else {
        items_encoding(items, n - 1) + encoding(items[n - 1])
    }
}

/// The encodings of the first `n` entries of `pairs`, one after the other,
/// each key before its value.
pub open spec fn pairs_encoding(pairs: Seq<(FrameView, FrameView)>, n: int) -> Seq<u8>
    decreases pairs, n,
{
    if n <= 0 || n > pairs.len() {
        Seq::empty()
    } else {
        pairs_encoding(pairs, n - 1) + encoding(pairs[n - 1].0) + encoding(pairs[n - 1].1)
    }
}

/// The encoding of the first `n` items grows with `n`, and the next item's
/// encoding fits into it.
pub proof fn lemma_items_encoding_len(items: Seq<FrameView>, n: int, m: int)
    requires
        0 <= n <= m <= items.len(),
    ensures
        items_encoding(items, n).len() <= items_encoding(items, m).len(),
        n < m ==> items_encoding(items, n).len() + encoding(items[n]).len() <= items_encoding(
            items,
            m,
        ).len(),
    decreases m - n,
{
    if n < m {
        lemma_items_encoding_len(items, n + 1, m);
    }
}

/// The encoding of the first `n` entries grows with `n`, and the next
/// entry's encoding fits into it.
pub proof fn lemma_pairs_encoding_len(pairs: Seq<(FrameView, FrameView)>, n: int, m: int)
    requires
        0 <= n <= m <= pairs.len(),
    ensures
        pairs_encoding(pairs, n).len() <= pairs_encoding(pairs, m).len(),
        n < m ==> pairs_encoding(pairs, n).len() + encoding(pairs[n].0).len() + encoding(
            pairs[n].1,
        ).len() <= pairs_encoding(pairs, m).len(),
    decreases m - n,
{
    if n < m {
        lemma_pairs_encoding_len(pairs, n + 1, m);
    }
}

fn put_line(writer: &mut Vec<u8>, mark: u8, text: &[u8])
    ensures
        final(writer)@ == old(writer)@ + line(mark, text@),
{
    writer.push(mark);
    put(writer, text);
    put(writer, &[CR, LF]);
    assert(writer@ =~= old(writer)@ + line(mark, text@));
}

fn put_header(writer: &mut Vec<u8>, mark: u8, n: i128)
    ensures
        final(writer)@ == old(writer)@ + header(mark, n as int),
{
    let text = number_text(n);
    put_line(writer, mark, text.as_slice());
}

fn put_payload(writer: &mut Vec<u8>, mark: u8, data: &[u8])
    ensures
        final(writer)@ == old(writer)@ + (header(mark, data@.len() as int) + data@ + crlf()),
{
    put_header(writer, mark, data.len() as i128);
    put(writer, data);
    put(writer, &[CR, LF]);
    assert(writer@ =~= old(writer)@ + (header(mark, data@.len() as int) + data@ + crlf()));
}

fn put_items(items: &Vec<Frame>, writer: &mut Vec<u8>)
    ensures
        final(writer)@ == old(writer)@ + items_encoding(views(items@), items@.len() as int),
    decreases items,
{
    let ghost all = views(items@);
    let mut i: usize = 0;
    assert(writer@ =~= old(writer)@ + items_encoding(all, 0));
    while i < items.len()
        invariant
            0 <= i <= items.len(),
            all == views(items@),
            writer@ == old(writer)@ + items_encoding(all, i as int),
        decreases items.len() - i,
    {
        assert(decreases_to!(items => items[i as int]));
        let _ = items[i].encode_with_writer(writer);
        proof {
            assert(all[i as int] == items[i as int]@);
            assert(writer@ =~= old(writer)@ + items_encoding(all, i + 1));
        }
        i += 1;
    }
}

fn put_pairs(pairs: &Vec<(Frame, Frame)>, writer: &mut Vec<u8>)
    ensures
        final(writer)@ == old(writer)@ + pairs_encoding(pair_views(pairs@), pairs@.len() as int),
    decreases pairs,
{
    let ghost all = pair_views(pairs@);
    let mut i: usize = 0;
    assert(writer@ =~= old(writer)@ + pairs_encoding(all, 0));
    while i < pairs.len()
        invariant
            0 <= i <= pairs.len(),
            all == pair_views(pairs@),
            writer@ == old(writer)@ + pairs_encoding(all, i as int),
        decreases pairs.len() - i,
    {
        assert(decreases_to!(pairs => pairs[i as int]));
        assert(decreases_to!(pairs[i as int] => pairs[i as int].0));
        assert(decreases_to!(pairs[i as int] => pairs[i as int].1));
        let _ = pairs[i].0.encode_with_writer(writer);
        let _ = pairs[i].1.encode_with_writer(writer);
        proof {
            assert(all[i as int] == (pairs[i as int].0@, pairs[i as int].1@));
            assert(writer@ =~= old(writer)@ + pairs_encoding(all, i + 1));
        }
        i += 1;
    }
}

fn put_attributes(attributes: &Option<Vec<(Frame, Frame)>>, writer: &mut Vec<u8>)
    ensures
        final(writer)@ == old(writer)@ + attributes_encoding(option_views(*attributes)),
    decreases attributes,
{
    match attributes {
        None => {
            assert(writer@ =~= old(writer)@ + attributes_encoding(option_views(*attributes)));
        },
        Some(pairs) => {
            put_header(writer, PIPE, pairs.len() as i128);
            put_pairs(pairs, writer);
            assert(writer@ =~= old(writer)@ + attributes_encoding(option_views(*attributes)));
        },
    }
}

impl<'a> Frame<'a> {
    /// The frame's encoding.
    pub fn encode(&self) -> (out: Vec<u8>)
        ensures
            out@ == encoding(self@),
    {
        let mut out = Vec::new();
        let _ = self.encode_with_writer(&mut out);
        assert(out@ =~= encoding(self@));
        out
    }

    /// Appends the frame's encoding to `writer`, and never fails.
    pub fn encode_with_writer(&self, writer: &mut Vec<u8>) -> (r: Result<(), Error>)
        ensures
            r is Ok,
            final(writer)@ == old(writer)@ + encoding(self@),
        decreases self, 1int,
    {
        proof {
            lemma_view(*self);
        }
        match self {
            Frame::SimpleString { attributes, .. } => put_attributes(attributes, writer),
            Frame::SimpleError { attributes, .. } => put_attributes(attributes, writer),
            Frame::Boolean { attributes, .. } => put_attributes(attributes, writer),
            Frame::Null { .. } => {},
            Frame::Integer { attributes, .. } => put_attributes(attributes, writer),
            Frame::Double { attributes, .. } => put_attributes(attributes, writer),
            Frame::BulkString { attributes, .. } => put_attributes(attributes, writer),
            Frame::BulkError { attributes, .. } => put_attributes(attributes, writer),
            Frame::BigNumber { attributes, .. } => put_attributes(attributes, writer),
            Frame::VerbatimString { attributes, .. } => put_attributes(attributes, writer),
            Frame::Array { attributes, .. } => put_attributes(attributes, writer),
            Frame::MapFrame { attributes, .. } => put_attributes(attributes, writer),
            Frame::SetFrame { attributes, .. } => put_attributes(attributes, writer),
            Frame::Push { .. } => {},
        }
        assert(writer@ =~= old(writer)@ + attributes_encoding(self@.attributes));
        self.put_body(writer);
        assert(writer@ =~= old(writer)@ + encoding(self@));
        Ok(())
    }

    fn put_body(&self, writer: &mut Vec<u8>)
        ensures
            final(writer)@ == old(writer)@ + body_encoding(self@.body),
        decreases self, 0int,
    {
        proof {
            lemma_view(*self);
        }
        match self {
            Frame::SimpleString { data, .. } => put_line(writer, PLUS, data),
            Frame::SimpleError { data, .. } => put_line(writer, MINUS, data),
            Frame::Boolean { data, .. } => {
                if *data {
                    put_line(writer, HASH, &[LETTER_T]);
                } else {
                    put_line(writer, HASH, &[LETTER_F]);
                }
                assert(writer@ =~= old(writer)@ + line(HASH, seq![boolean_letter(*data)]));
            },
            Frame::Null { .. } => {
                put_line(writer, UNDERSCORE, &[]);
                assert(writer@ =~= old(writer)@ + line(UNDERSCORE, Seq::empty()));
            },
            Frame::Integer { data, .. } => {
                let text = number_text(*data as i128);
                put_line(writer, COLON, text.as_slice());
            },
            Frame::Double { data, .. } => put_line(writer, COMMA, data),
            Frame::BulkString { data, .. } => put_payload(writer, DOLLAR, data),
            Frame::BulkError { data, .. } => put_payload(writer, BANG, data),
            Frame::BigNumber { data, .. } => put_line(writer, PAREN, data),
            Frame::VerbatimString { data, .. } => {
                put_header(writer, EQUALS, data.1.len() as i128 + 4);
                put(writer, data.0.as_slice());
                writer.push(COLON);
                put(writer, data.1);
                put(writer, &[CR, LF]);
                assert(writer@ =~= old(writer)@ + (header(EQUALS, data.1@.len() as int + 4)
                    + data.0@ + seq![COLON] + data.1@ + crlf()));
            },
            Frame::Array { data, .. } => {
                put_header(writer, STAR, data.len() as i128);
                put_items(data, writer);
                assert(writer@ =~= old(writer)@ + body_encoding(self@.body));
            },
            Frame::MapFrame { data, .. } => {
                put_header(writer, PERCENT, data.len() as i128);
                put_pairs(data, writer);
                assert(writer@ =~= old(writer)@ + body_encoding(self@.body));
            },
            Frame::SetFrame { data, .. } => {
                put_header(writer, TILDE, data.len() as i128);
                put_items(data, writer);
                assert(writer@ =~= old(writer)@ + body_encoding(self@.body));
            },
            Frame::Push { data } => {
                put_header(writer, GREATER, data.len() as i128);
                put_items(data, writer);
                assert(writer@ =~= old(writer)@ + body_encoding(self@.body));
            },
        }
    }
}

/// The length of a line that holds the number `n` after its first byte.
fn header_len(mark: Ghost<u8>, n: i128) -> (len: usize)
    requires
        header(mark@, n as int).len() <= usize::MAX,
    ensures
        len == header(mark@, n as int).len(),
{
    let text = number_text(n);
    3 + text.len()
}

fn items_len(items: &Vec<Frame>) -> (len: usize)
    requires
        items_encoding(views(items@), items@.len() as int).len() <= usize::MAX,
    ensures
        len == items_encoding(views(items@), items@.len() as int).len(),
    decreases items,
{
    let ghost all = views(items@);
    let mut total: usize = 0;
    let mut i: usize = 0;
    while i < items.len()
        invariant
            0 <= i <= items.len(),
            all == views(items@),
            total == items_encoding(all, i as int).len(),
            items_encoding(all, items.len() as int).len() <= usize::MAX,
        decreases items.len() - i,
    {
        proof {
            lemma_items_encoding_len(all, i as int, items.len() as int);
            assert(all[i as int] == items[i as int]@);
            assert(decreases_to!(items => items[i as int]));
        }
        total = total + items[i].encode_len();
        i += 1;
    }
    total
}

fn pairs_len(pairs: &Vec<(Frame, Frame)>) -> (len: usize)
    requires
        pairs_encoding(pair_views(pairs@), pairs@.len() as int).len() <= usize::MAX,
    ensures
        len == pairs_encoding(pair_views(pairs@), pairs@.len() as int).len(),
    decreases pairs,
{
    let ghost all = pair_views(pairs@);
    let mut total: usize = 0;
    let mut i: usize = 0;
    while i < pairs.len()
        invariant
            0 <= i <= pairs.len(),
            all == pair_views(pairs@),
            total == pairs_encoding(all, i as int).len(),
            pairs_encoding(all, pairs.len() as int).len() <= usize::MAX,
        decreases pairs.len() - i,
    {
        proof {
            lemma_pairs_encoding_len(all, i as int, pairs.len() as int);
            assert(all[i as int] == (pairs[i as int].0@, pairs[i as int].1@));
            assert(decreases_to!(pairs => pairs[i as int]));
            assert(decreases_to!(pairs[i as int] => pairs[i as int].0));
            assert(decreases_to!(pairs[i as int] => pairs[i as int].1));
        }
        total = total + pairs[i].0.encode_len();
        total = total + pairs[i].1.encode_len();
        i += 1;
    }
    total
}

fn attributes_len(attributes: &Option<Vec<(Frame, Frame)>>) -> (len: usize)
    requires
        attributes_encoding(option_views(*attributes)).len() <= usize::MAX,
    ensures
        len == attributes_encoding(option_views(*attributes)).len(),
    decreases attributes,
{
    match attributes {
        None => 0,
        Some(pairs) => {
            let head = header_len(Ghost(PIPE), pairs.len() as i128);
            head + pairs_len(pairs)
        },
    }
}

impl<'a> Frame<'a> {
    fn body_len(&self) -> (len: usize)
        requires
            body_encoding(self@.body).len() <= usize::MAX,
        ensures
            len == body_encoding(self@.body).len(),
        decreases self, 0int,
    {
        proof {
            lemma_view(*self);
        }
        match self {
            Frame::SimpleString { data, .. } => data.len() + 3,
            Frame::SimpleError { data, .. } => data.len() + 3,
            Frame::Boolean { .. } => 4,
            Frame::Null { .. } => 3,
            Frame::Integer { data, .. } => {
                let text = number_text(*data as i128);
                text.len() + 3
            },
            Frame::Double { data, .. } => data.len() + 3,
            Frame::BulkString { data, .. } => {
                let head = header_len(Ghost(DOLLAR), data.len() as i128);
                head + data.len() + 2
            },
            Frame::BulkError { data, .. } => {
                let head = header_len(Ghost(BANG), data.len() as i128);
                head + data.len() + 2
            },
            Frame::VerbatimString { data, .. } => {
                let head = header_len(Ghost(EQUALS), data.1.len() as i128 + 4);
                head + 4 + data.1.len() + 2
            },
            Frame::Array { data, .. } => {
                let head = header_len(Ghost(STAR), data.len() as i128);
                head + items_len(data)
            },
            Frame::MapFrame { data, .. } => {
                let head = header_len(Ghost(PERCENT), data.len() as i128);
                head + pairs_len(data)
            },
            Frame::SetFrame { data, .. } => {
                let head = header_len(Ghost(TILDE), data.len() as i128);
                head + items_len(data)
            },
            Frame::Push { data } => {
                let head = header_len(Ghost(GREATER), data.len() as i128);
                head + items_len(data)
            },
            Frame::BigNumber { data, .. } => data.len() + 3,
        }
    }
}

impl<'a> EncodeLen for Frame<'a> {
    open spec fn encoded_len(&self) -> nat {
        encoding(self@).len()
    }

    fn encode_len(&self) -> (n: usize)
        decreases self, 1int,
    {
        proof {
            lemma_view(*self);
        }
        let head = match self {
            Frame::SimpleString { attributes, .. } => attributes_len(attributes),
            Frame::SimpleError { attributes, .. } => attributes_len(attributes),
            Frame::Boolean { attributes, .. } => attributes_len(attributes),
            Frame::Null { .. } => 0,
            Frame::Integer { attributes, .. } => attributes_len(attributes),
            Frame::Double { attributes, .. } => attributes_len(attributes),
            Frame::BulkString { attributes, .. } => attributes_len(attributes),
            Frame::BulkError { attributes, .. } => attributes_len(attributes),
            Frame::BigNumber { attributes, .. } => attributes_len(attributes),
            Frame::VerbatimString { attributes, .. } => attributes_len(attributes),
            Frame::Array { attributes, .. } => attributes_len(attributes),
            Frame::MapFrame { attributes, .. } => attributes_len(attributes),
            Frame::SetFrame { attributes, .. } => attributes_len(attributes),
            Frame::Push { .. } => 0,
        };
        head + self.body_len()
    }
}

} // verus!
