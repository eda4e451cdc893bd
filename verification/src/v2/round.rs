use crate::common::error::{Error, NumberError};
use crate::common::mark::{COLON, DOLLAR, MINUS, ONE, PLUS, STAR};
use crate::common::scan::{is_line_end, lemma_line_end, line_end, CR, LF};
use crate::common::text::{decimal, digits, number_text, parse_i64, parsed_i64};
use crate::v2::ast::{frame_at, items_at, lemma_frame_bounds, lemma_items_bounds};
use crate::v2::frame::{
    crlf, encoding, encoding_of_first, lemma_array_view, views, Frame, FrameView,
};
use crate::v2::lexer::{lemma_token_bounds, token_at};
use crate::v2::tag::TagView;
use vstd::prelude::*;

verus! {

/// No line ends inside `text`, nor where a line end follows it.
pub open spec fn clean(text: Seq<u8>) -> bool {
    forall|i: int| 0 <= i && i + 1 < text.len() ==> !(#[trigger] text[i] == CR && text[i + 1] == LF)
}

/// The number parser reads the decimal text of `n` as `n`.
pub open spec fn reads_back(n: int) -> bool {
    i64::MIN <= n <= i64::MAX && parsed_i64(decimal(n)) == Ok::<i64, NumberError>(n as i64)
}

/// No line ends inside a payload of `f`, at any depth.
pub open spec fn clean_payloads(f: FrameView) -> bool
    decreases f,
{
    match f {
        FrameView::SimpleString(data) => clean(data),
        FrameView::SimpleError(data) => clean(data),
        FrameView::BulkString(data) => clean(data),
        FrameView::Array(items) => forall|i: int|
            0 <= i < items.len() ==> clean_payloads(#[trigger] items[i]),
        _ => true,
    }
}

/// The number parser reads every number that the encoding of `f` holds as
/// that number: each integer, each length and each count, at any depth.
pub open spec fn numbers_read_back(f: FrameView) -> bool
    decreases f,
{
    match f {
        FrameView::Integer(n) => reads_back(n as int),
        FrameView::Null => reads_back(-1),
        FrameView::BulkString(data) => reads_back(data.len() as int),
        FrameView::Array(items) => reads_back(items.len() as int) && forall|i: int|
            0 <= i < items.len() ==> numbers_read_back(#[trigger] items[i]),
        _ => true,
    }
}

/// The digits of a number are digits, and at least one.
pub proof fn lemma_digits(n: nat)
    ensures
        digits(n).len() >= 1,
        forall|i: int| 0 <= i < digits(n).len() ==> 48 <= #[trigger] digits(n)[i] <= 57,
    decreases n,
{
    if n >= 10 {
        lemma_digits(n / 10);
    }
}

/// The decimal text of a number holds no carriage return.
pub proof fn lemma_decimal(n: int)
    ensures
        decimal(n).len() >= 1,
        forall|i: int| 0 <= i < decimal(n).len() ==> #[trigger] decimal(n)[i] != CR,
{
    if n < 0 {
        lemma_digits((-n) as nat);
    } else {
        lemma_digits(n as nat);
    }
}

/// A line end before which no line ends is the one that `line_end` finds.
pub proof fn lemma_line_end_is(s: Seq<u8>, from: int, end: int)
    requires
        0 <= from <= end,
        is_line_end(s, end),
        forall|j: int| from <= j < end ==> !is_line_end(s, j),
    ensures
        line_end(s, from) == Some(end),
{
    lemma_line_end(s, from);
}

/// A clean text that is followed by a line end ends at that line end,
/// whatever stands before and after.
pub proof fn lemma_line_in_context(p: Seq<u8>, body: Seq<u8>, q: Seq<u8>)
    requires
        clean(body),
    ensures
        line_end(p + body + crlf() + q, p.len() as int) == Some((p.len() + body.len()) as int),
{
    let s = p + body + crlf() + q;
    let end = (p.len() + body.len()) as int;
    assert(s[end] == crlf()[0]);
    assert(s[end + 1] == crlf()[1]);
    assert forall|j: int| p.len() <= j < end implies !is_line_end(s, j) by {
        let i = j - p.len();
        assert(s[j] == body[i]);
        if i + 1 < body.len() {
            assert(s[j + 1] == body[i + 1]);
        } else {
            assert(s[j + 1] == CR);
        }
    }
    lemma_line_end_is(s, p.len() as int, end);
}

/// A byte that is no carriage return before a clean text leaves it clean.
pub proof fn lemma_clean_after_mark(mark: u8, text: Seq<u8>)
    requires
        mark != CR,
        clean(text),
    ensures
        clean(seq![mark] + text),
{
    let body = seq![mark] + text;
    assert forall|i: int| 0 <= i && i + 1 < body.len() implies !(#[trigger] body[i] == CR && body[i
        + 1] == LF) by {
        if i > 0 {
            assert(body[i] == text[i - 1]);
            assert(body[i + 1] == text[i]);
        }
    }
}

/// Where `count` frames are read up to a place and one more frame starts
/// there, the `count + 1` frames are read up to the end of that frame.
#[verifier::rlimit(100)]
#[verifier::spinoff_prover]
pub proof fn lemma_items_append(s: Seq<u8>, pos: int, count: int)
    requires
        0 <= pos <= s.len(),
        0 <= count,
        items_at(s, pos, count) is Ok,
        frame_at(s, items_at(s, pos, count).unwrap().1) matches Some(Ok(_)),
    ensures
        items_at(s, pos, count + 1) == Ok::<(Seq<FrameView>, int), Error>(
            (
                items_at(s, pos, count).unwrap().0.push(
                    frame_at(s, items_at(s, pos, count).unwrap().1).unwrap().unwrap().0,
                ),
                frame_at(s, items_at(s, pos, count).unwrap().1).unwrap().unwrap().1,
            ),
        ),
    decreases count,
{
    let (before, mid) = items_at(s, pos, count).unwrap();
    let (last, end) = frame_at(s, mid).unwrap().unwrap();
    lemma_items_bounds(s, pos, count);
    lemma_frame_bounds(s, mid);
    if count == 0 {
        assert(mid == pos && before =~= Seq::empty());
        assert(items_at(s, end, 0) == Ok::<(Seq<FrameView>, int), Error>((Seq::empty(), end)));
        assert(seq![last] + Seq::<FrameView>::empty() =~= before.push(last));
        assert(items_at(s, pos, 1) == Ok::<(Seq<FrameView>, int), Error>(
            (seq![last] + Seq::<FrameView>::empty(), end),
        ));
    } else {
        lemma_frame_bounds(s, pos);
        let (first, next) = frame_at(s, pos).unwrap().unwrap();
        let (rest, reached) = items_at(s, next, count - 1).unwrap();
        assert(reached == mid && before == seq![first] + rest);
        lemma_items_append(s, next, count - 1);
        assert(items_at(s, next, count) == Ok::<(Seq<FrameView>, int), Error>(
            (rest.push(last), end),
        ));
        assert(seq![first] + rest.push(last) =~= (seq![first] + rest).push(last));
        assert(items_at(s, pos, count + 1) == Ok::<(Seq<FrameView>, int), Error>(
            (seq![first] + rest.push(last), end),
        ));
    }
}

/// The line that a first byte, a clean text and a line end make is read as
/// one line, whatever stands before and after.
pub proof fn lemma_marked_line(p: Seq<u8>, mark: u8, text: Seq<u8>, q: Seq<u8>)
    requires
        mark != CR,
        clean(text),
    ensures
        ({
            let s = p + (seq![mark] + text + crlf()) + q;
            &&& line_end(s, p.len() as int) == Some((p.len() + 1 + text.len()) as int)
            &&& s[p.len() as int] == mark
            &&& s.subrange(p.len() as int + 1, p.len() as int + 1 + text.len()) == text
            &&& s.len() == p.len() + 1 + text.len() + 2 + q.len()
        }),
{
    let s = p + (seq![mark] + text + crlf()) + q;
    let body = seq![mark] + text;
    lemma_clean_after_mark(mark, text);
    lemma_line_in_context(p, body, q);
    assert(s =~= p + body + crlf() + q);
    assert(s.subrange(p.len() as int + 1, p.len() as int + 1 + text.len()) =~= text);
}

/// Round trip, as far as the number parser reads back the numbers that are
/// written: the encoding of a frame whose payloads hold no line end is read
/// as that frame, and wholly, whatever stands before and after it.
#[verifier::rlimit(100)]
#[verifier::spinoff_prover]
pub proof fn lemma_round_trip_in_context(f: FrameView, p: Seq<u8>, q: Seq<u8>)
    requires
        clean_payloads(f),
        numbers_read_back(f),
    ensures
        frame_at(p + encoding(f) + q, p.len() as int) == Some(
            Ok::<(FrameView, int), Error>((f, (p.len() + encoding(f).len()) as int)),
        ),
    decreases f, 0int,
{
    let s = p + encoding(f) + q;
    let pos = p.len() as int;
    match f {
        FrameView::SimpleString(text) => {
            lemma_marked_line(p, PLUS, text, q);
        },
        FrameView::SimpleError(text) => {
            lemma_marked_line(p, MINUS, text, q);
        },
        FrameView::Integer(n) => {
            lemma_decimal(n as int);
            lemma_marked_line(p, COLON, decimal(n as int), q);
        },
        FrameView::Null => {
            lemma_decimal(-1);
            assert(decimal(-1) =~= seq![MINUS, ONE]) by {
                reveal_with_fuel(digits, 2);
            }
            lemma_marked_line(p, DOLLAR, decimal(-1), q);
            assert(encoding(f) =~= seq![DOLLAR] + decimal(-1) + crlf());
        },
        FrameView::BulkString(text) => {
            let head = decimal(text.len() as int);
            lemma_decimal(text.len() as int);
            let after = text + crlf() + q;
            lemma_marked_line(p, DOLLAR, head, after);
            assert(s =~= p + (seq![DOLLAR] + head + crlf()) + after);
            let start = pos + 1 + head.len() + 2;
            let before = p + (seq![DOLLAR] + head + crlf());
            lemma_line_in_context(before, text, q);
            assert(s =~= before + text + crlf() + q);
            assert(s.subrange(start, start + text.len()) =~= text);
        },
        FrameView::Array(items) => {
            let head = decimal(items.len() as int);
            lemma_decimal(items.len() as int);
            let body = encoding_of_first(items, items.len() as int);
            let after = body + q;
            lemma_marked_line(p, STAR, head, after);
            assert(s =~= p + (seq![STAR] + head + crlf()) + after);
            let before = p + (seq![STAR] + head + crlf());
            lemma_round_trip_items(items, items.len() as int, before, q);
            assert(s =~= before + body + q);
            assert(items.take(items.len() as int) =~= items);
        },
    }
}

/// The encodings of the first `k` of `items`, one after the other, are read
/// as those frames, whatever stands before and after.
#[verifier::rlimit(100)]
#[verifier::spinoff_prover]
pub proof fn lemma_round_trip_items(items: Seq<FrameView>, k: int, p: Seq<u8>, q: Seq<u8>)
    requires
        0 <= k <= items.len(),
        forall|i: int|
            0 <= i < items.len() ==> clean_payloads(#[trigger] items[i]) && numbers_read_back(
                items[i],
            ),
    ensures
        items_at(p + encoding_of_first(items, k) + q, p.len() as int, k) == Ok::<
            (Seq<FrameView>, int),
            Error,
        >((items.take(k), (p.len() + encoding_of_first(items, k).len()) as int)),
    decreases items, k,
{
    let s = p + encoding_of_first(items, k) + q;
    if k == 0 {
        assert(items.take(0) =~= Seq::empty());
    } else {
        let last = items[k - 1];
        let head = encoding_of_first(items, k - 1);
        lemma_round_trip_items(items, k - 1, p, encoding(last) + q);
        assert(s =~= p + head + (encoding(last) + q));
        lemma_round_trip_in_context(last, p + head, q);
        assert(s =~= (p + head) + encoding(last) + q);
        lemma_items_append(s, p.len() as int, k - 1);
        assert(items.take(k) =~= items.take(k - 1).push(last));
    }
}

/// No line ends inside a payload of a frame that the decoder hands out.
pub proof fn lemma_decoded_clean(s: Seq<u8>, pos: int)
    requires
        0 <= pos,
    ensures
        frame_at(s, pos) matches Some(Ok((f, _))) ==> clean_payloads(f),
    decreases s.len() - pos, 0int,
{
    lemma_token_bounds(s, pos);
    lemma_line_end(s, pos);
    if let Some(Ok((tag, next))) = token_at(s, pos) {
        let end = line_end(s, pos).unwrap();
        match tag {
            TagView::Array(count) => {
                lemma_items_clean(s, next, count as int);
            },
            TagView::BulkString(data) => {
                lemma_line_end(s, end + 2);
                let stop = line_end(s, end + 2).unwrap();
                assert forall|i: int| 0 <= i && i + 1 < data.len() implies !(#[trigger] data[i]
                    == CR && data[i + 1] == LF) by {
                    assert(data[i] == s[end + 2 + i]);
                    assert(data[i + 1] == s[end + 2 + i + 1]);
                    assert(!is_line_end(s, end + 2 + i));
                }
            },
            TagView::SimpleString(data) => {
                assert forall|i: int| 0 <= i && i + 1 < data.len() implies !(#[trigger] data[i]
                    == CR && data[i + 1] == LF) by {
                    assert(data[i] == s[pos + 1 + i]);
                    assert(data[i + 1] == s[pos + 1 + i + 1]);
                    assert(!is_line_end(s, pos + 1 + i));
                }
            },
            TagView::SimpleError(data) => {
                assert forall|i: int| 0 <= i && i + 1 < data.len() implies !(#[trigger] data[i]
                    == CR && data[i + 1] == LF) by {
                    assert(data[i] == s[pos + 1 + i]);
                    assert(data[i + 1] == s[pos + 1 + i + 1]);
                    assert(!is_line_end(s, pos + 1 + i));
                }
            },
            _ => {},
        }
    }
}

/// No line ends inside a payload of the frames that the decoder reads one
/// after the other.
pub proof fn lemma_items_clean(s: Seq<u8>, pos: int, count: int)
    requires
        0 <= pos <= s.len(),
    ensures
        items_at(s, pos, count) matches Ok((items, _)) ==> forall|i: int|
            0 <= i < items.len() ==> clean_payloads(#[trigger] items[i]),
    decreases s.len() - pos, 1 + count,
{
    if count > 0 {
        lemma_frame_bounds(s, pos);
        lemma_decoded_clean(s, pos);
        if let Some(Ok((first, next))) = frame_at(s, pos) {
            lemma_items_clean(s, next, count - 1);
            if let Ok((items, _)) = items_at(s, pos, count) {
                let rest = items_at(s, next, count - 1).unwrap().0;
                assert forall|i: int| 0 <= i < items.len() implies clean_payloads(
                    #[trigger] items[i],
                ) by {
                    if i > 0 {
                        assert(items[i] == rest[i - 1]);
                    }
                }
            }
        }
    }
}

/// Round trip, as far as the number parser reads back the numbers that are
/// written: the encoding of a frame that the decoder handed out is read as
/// that frame, and wholly.
pub proof fn lemma_round_trip(s: Seq<u8>, pos: int, f: FrameView)
    requires
        0 <= pos,
        frame_at(s, pos) matches Some(Ok((g, _))) && g == f,
        numbers_read_back(f),
    ensures
        frame_at(encoding(f), 0) == Some(
            Ok::<(FrameView, int), Error>((f, encoding(f).len() as int)),
        ),
{
    lemma_decoded_clean(s, pos);
    lemma_round_trip_in_context(f, Seq::empty(), Seq::empty());
    assert(Seq::<u8>::empty() + encoding(f) + Seq::<u8>::empty() =~= encoding(f));
}

/// Whether the number parser reads the decimal text of `n` as `n`: the text
/// is written and read, and what is read is compared with `n`.
pub fn number_reads_back(n: i128) -> (r: bool)
    ensures
        r == reads_back(n as int),
{
    if n < -9223372036854775808 || n > 9223372036854775807 {
        return false;
    }
    let text = number_text(n);
    match parse_i64(text.as_slice()) {
        Ok(m) => m as i128 == n,
        Err(_) => false,
    }
}

impl<'a> Frame<'a> {
    /// Whether the number parser reads every number that the frame's
    /// encoding holds as that number: each is written, read and compared.
    pub fn reads_back(&self) -> (r: bool)
        ensures
            r == numbers_read_back(self@),
        decreases self,
    {
        match self {
            Frame::Integer(n) => number_reads_back(*n as i128),
            Frame::Null => number_reads_back(-1),
            Frame::BulkString(data) => number_reads_back(data.len() as i128),
            Frame::Array(items) => {
                proof {
                    lemma_array_view(*items);
                }
                if !number_reads_back(items.len() as i128) {
                    return false;
                }
                let mut i: usize = 0;
                while i < items.len()
                    invariant
                        0 <= i <= items.len(),
                        *self == Frame::Array(*items),
                        self@ == FrameView::Array(views(items@)),
                        reads_back(items@.len() as int),
                        forall|j: int| 0 <= j < i ==> numbers_read_back(#[trigger] views(items@)[j]),
                    decreases items.len() - i,
                {
                    assert(*self matches Frame::Array(v) && v == *items);
                    assert(decreases_to!(items => items[i as int]));
                    if !items[i].reads_back() {
                        assert(views(items@)[i as int] == items[i as int]@);
                        return false;
                    }
                    assert(views(items@)[i as int] == items[i as int]@);
                    i += 1;
                }
                true
            },
            _ => true,
        }
    }
}

} // verus!
