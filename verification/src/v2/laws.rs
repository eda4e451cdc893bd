use crate::common::error::Error;
use crate::common::scan::{lemma_line_end, line_end, CR, LF};
use crate::v2::ast::{frame_at, items_at, lemma_frame_bounds, lemma_items_bounds};
use crate::v2::frame::{encoding, Frame, FrameView};
use crate::v2::lexer::{lemma_token_bounds, token_at};
use crate::v2::tag::TagView;
use crate::v2::V2;
use crate::{EncodeLen, Parser};
use vstd::prelude::*;

verus! {

/// Length fidelity: the bytes that encoding a frame gives are as many as
/// the frame's predicted length.
pub proof fn lemma_length_fidelity(frame: Frame, bytes: Seq<u8>)
    requires
        bytes == encoding(frame@),
    ensures
        bytes.len() == frame.encoded_len(),
{
}

/// Determinism: two outcomes of parsing the same bytes are the same
/// outcome, with frames that are equal as values and the same count of
/// bytes taken.
pub proof fn lemma_determinism(
    input: Seq<u8>,
    first: Result<Option<(Frame, usize)>, Error>,
    second: Result<Option<(Frame, usize)>, Error>,
)
    requires
        V2::parses(input, first),
        V2::parses(input, second),
    ensures
        match (first, second) {
            (Ok(Some(a)), Ok(Some(b))) => a.0@ == b.0@ && a.1 == b.1,
            (Ok(None), Ok(None)) => true,
            (Err(a), Err(b)) => a == b,
            _ => false,
        },
{
}

/// `data` is a part of `s` that lies between `from` and `to`.
pub open spec fn within(s: Seq<u8>, data: Seq<u8>, from: int, to: int) -> bool {
    exists|a: int, b: int| from <= a <= b <= to && data == #[trigger] s.subrange(a, b)
}

/// The byte payload of a frame that has one.
pub open spec fn payload(f: FrameView) -> Option<Seq<u8>> {
    match f {
        FrameView::SimpleString(data) => Some(data),
        FrameView::SimpleError(data) => Some(data),
        FrameView::BulkString(data) => Some(data),
        _ => None,
    }
}

/// The payload of a leaf frame read at `pos` is a part of the input, and
/// lies among the bytes that the frame takes.
pub proof fn lemma_payload_in_input(s: Seq<u8>, pos: int)
    requires
        0 <= pos,
    ensures
        frame_at(s, pos) matches Some(Ok((f, next))) ==> (payload(f) matches Some(data) ==> within(
            s,
            data,
            pos,
            next,
        )),
{
    lemma_token_bounds(s, pos);
    lemma_line_end(s, pos);
    if let Some(Ok((f, next))) = frame_at(s, pos) {
        if let Some(data) = payload(f) {
            let end = line_end(s, pos).unwrap();
            lemma_line_end(s, end + 2);
            match f {
                FrameView::BulkString(_) => {
                    assert(data == s.subrange(end + 2, end + 2 + data.len()));
                },
                _ => {
                    assert(data == s.subrange(pos + 1, end));
                },
            }
        }
    }
}

/// Every byte payload in `f`, at any depth, is a part of `s` that lies
/// between `from` and `to`.
pub open spec fn payloads_within(f: FrameView, s: Seq<u8>, from: int, to: int) -> bool
    decreases f,
{
    match f {
        FrameView::SimpleString(data) => within(s, data, from, to),
        FrameView::SimpleError(data) => within(s, data, from, to),
        FrameView::BulkString(data) => within(s, data, from, to),
        FrameView::Array(items) => forall|i: int|
            0 <= i < items.len() ==> payloads_within(#[trigger] items[i], s, from, to),
        _ => true,
    }
}

/// A part of the input that lies in a range lies in every wider range.
pub proof fn lemma_within_wider(
    s: Seq<u8>,
    data: Seq<u8>,
    from: int,
    to: int,
    lower: int,
    upper: int,
)
    requires
        within(s, data, from, to),
        lower <= from,
        to <= upper,
    ensures
        within(s, data, lower, upper),
{
    let (a, b) = choose|a: int, b: int| from <= a <= b <= to && data == #[trigger] s.subrange(a, b);
    assert(lower <= a <= b <= upper && data == s.subrange(a, b));
}

/// Payloads that lie in a range lie in every wider range.
pub proof fn lemma_payloads_wider(
    f: FrameView,
    s: Seq<u8>,
    from: int,
    to: int,
    lower: int,
    upper: int,
)
    requires
        payloads_within(f, s, from, to),
        lower <= from,
        to <= upper,
    ensures
        payloads_within(f, s, lower, upper),
    decreases f,
{
    match f {
        FrameView::SimpleString(data) => lemma_within_wider(s, data, from, to, lower, upper),
        FrameView::SimpleError(data) => lemma_within_wider(s, data, from, to, lower, upper),
        FrameView::BulkString(data) => lemma_within_wider(s, data, from, to, lower, upper),
        FrameView::Array(items) => {
            assert forall|i: int| 0 <= i < items.len() implies payloads_within(
                #[trigger] items[i],
                s,
                lower,
                upper,
            ) by {
                lemma_payloads_wider(items[i], s, from, to, lower, upper);
            }
        },
        _ => {},
    }
}

/// No copy, at any depth: every byte payload in the frame read at `pos` is
/// a part of the input, and lies among the bytes that the frame takes.
pub proof fn lemma_payloads_in_input(s: Seq<u8>, pos: int)
    requires
        0 <= pos,
    ensures
        frame_at(s, pos) matches Some(Ok((f, next))) ==> payloads_within(f, s, pos, next),
    decreases s.len() - pos, 0int,
{
    lemma_token_bounds(s, pos);
    lemma_payload_in_input(s, pos);
    if let Some(Ok((TagView::Array(count), next))) = token_at(s, pos) {
        lemma_items_payloads(s, next, count as int);
        lemma_items_bounds(s, next, count as int);
        if let Ok((items, end)) = items_at(s, next, count as int) {
            assert forall|i: int| 0 <= i < items.len() implies payloads_within(
                #[trigger] items[i],
                s,
                pos,
                end,
            ) by {
                lemma_payloads_wider(items[i], s, next, end, pos, end);
            }
        }
    }
}

/// Every byte payload in the frames read from `pos` on is a part of the
/// input, and lies among the bytes that they take.
pub proof fn lemma_items_payloads(s: Seq<u8>, pos: int, count: int)
    requires
        0 <= pos <= s.len(),
    ensures
        items_at(s, pos, count) matches Ok((items, end)) ==> forall|i: int|
            0 <= i < items.len() ==> payloads_within(#[trigger] items[i], s, pos, end),
    decreases s.len() - pos, 1 + count,
{
    if count > 0 {
        lemma_frame_bounds(s, pos);
        lemma_payloads_in_input(s, pos);
        if let Some(Ok((first, next))) = frame_at(s, pos) {
            lemma_items_payloads(s, next, count - 1);
            lemma_items_bounds(s, next, count - 1);
            if let Ok((items, end)) = items_at(s, pos, count) {
                let rest = items_at(s, next, count - 1).unwrap().0;
                assert forall|i: int| 0 <= i < items.len() implies payloads_within(
                    #[trigger] items[i],
                    s,
                    pos,
                    end,
                ) by {
                    if i == 0 {
                        lemma_payloads_wider(first, s, pos, next, pos, end);
                    } else {
                        assert(items[i] == rest[i - 1]);
                        lemma_payloads_wider(rest[i - 1], s, next, end, pos, end);
                    }
                }
            }
        }
    }
}

/// Reading stops for want of input: there is no frame yet, and no error
/// other than that the input ended.
pub open spec fn incomplete(outcome: Option<Result<(FrameView, int), Error>>) -> bool {
    outcome is None || outcome == Some(
        Err::<(FrameView, int), Error>(Error::NotComplete),
    )
}

/// The end of a line that lies in the part on which two inputs agree is the
/// end of that line in both.
pub proof fn lemma_line_end_agrees(a: Seq<u8>, b: Seq<u8>, from: int, n: int)
    requires
        0 <= from,
        n <= a.len(),
        n <= b.len(),
        a.take(n) == b.take(n),
        line_end(a, from) matches Some(end) && end + 2 <= n,
    ensures
        line_end(b, from) == line_end(a, from),
    decreases a.len() - from,
{
    lemma_line_end(a, from);
    assert(a[from] == a.take(n)[from]);
    assert(b[from] == b.take(n)[from]);
    assert(a[from + 1] == a.take(n)[from + 1]);
    assert(b[from + 1] == b.take(n)[from + 1]);
    if a[from] == CR && a[from + 1] == LF {
    } else {
        lemma_line_end(a, from + 1);
        lemma_line_end_agrees(a, b, from + 1, n);
    }
}

/// A part of the input that lies where two inputs agree is the same part
/// of both.
pub proof fn lemma_subrange_agrees(a: Seq<u8>, b: Seq<u8>, from: int, to: int, n: int)
    requires
        0 <= from <= to <= n,
        n <= a.len(),
        n <= b.len(),
        a.take(n) == b.take(n),
    ensures
        a.subrange(from, to) == b.subrange(from, to),
{
    assert(a.subrange(from, to) =~= a.take(n).subrange(from, to));
    assert(b.subrange(from, to) =~= b.take(n).subrange(from, to));
}

/// A token that is read from the part on which two inputs agree is read
/// from both.
pub proof fn lemma_token_agrees(a: Seq<u8>, b: Seq<u8>, pos: int, n: int)
    requires
        0 <= pos,
        n <= a.len(),
        n <= b.len(),
        a.take(n) == b.take(n),
        token_at(a, pos) matches Some(Ok((_, next))) && next <= n,
    ensures
        token_at(b, pos) == token_at(a, pos),
{
    lemma_line_end(a, pos);
    let end = line_end(a, pos).unwrap();
    lemma_line_end(a, end + 2);
    lemma_token_bounds(a, pos);
    lemma_line_end_agrees(a, b, pos, n);
    lemma_subrange_agrees(a, b, pos + 1, end, n);
    assert(a[pos] == a.take(n)[pos]);
    assert(b[pos] == b.take(n)[pos]);
    if let Some(Ok((TagView::BulkString(data), next))) = token_at(a, pos) {
        lemma_line_end_agrees(a, b, end + 2, n);
        lemma_subrange_agrees(a, b, end + 2, end + 2 + data.len(), n);
    }
}

/// A frame that is read from the part on which two inputs agree is read
/// from both.
pub proof fn lemma_frame_agrees(a: Seq<u8>, b: Seq<u8>, pos: int, n: int)
    requires
        0 <= pos,
        n <= a.len(),
        n <= b.len(),
        a.take(n) == b.take(n),
        frame_at(a, pos) matches Some(Ok((_, next))) && next <= n,
    ensures
        frame_at(b, pos) == frame_at(a, pos),
    decreases a.len() - pos, 0int,
{
    lemma_token_bounds(a, pos);
    match token_at(a, pos) {
        Some(Ok((TagView::Array(count), next))) => {
            lemma_items_bounds(a, next, count as int);
            lemma_token_agrees(a, b, pos, n);
            lemma_items_agree(a, b, next, count as int, n);
        },
        _ => {
            lemma_token_agrees(a, b, pos, n);
        },
    }
}

/// Frames that are read from the part on which two inputs agree are read
/// from both.
pub proof fn lemma_items_agree(a: Seq<u8>, b: Seq<u8>, pos: int, count: int, n: int)
    requires
        0 <= pos <= a.len(),
        n <= a.len(),
        n <= b.len(),
        a.take(n) == b.take(n),
        items_at(a, pos, count) matches Ok((_, end)) && end <= n,
    ensures
        items_at(b, pos, count) == items_at(a, pos, count),
    decreases a.len() - pos, 1 + count,
{
    if count > 0 {
        lemma_frame_bounds(a, pos);
        let next = frame_at(a, pos).unwrap().unwrap().1;
        lemma_items_bounds(a, next, count - 1);
        lemma_frame_agrees(a, b, pos, n);
        lemma_items_agree(a, b, next, count - 1, n);
    }
}

/// Incremental safety: where the first `k` bytes of a buffer do not give a
/// frame for want of input, and `longer` is the least greater length whose
/// bytes do not end so, those bytes give an error, or a frame that takes all
/// of them.
pub proof fn lemma_incremental(buf: Seq<u8>, k: int, longer: int)
    requires
        0 <= k < longer <= buf.len(),
        incomplete(frame_at(buf.take(k), 0)),
        !incomplete(frame_at(buf.take(longer), 0)),
        forall|j: int| k < j < longer ==> incomplete(#[trigger] frame_at(buf.take(j), 0)),
    ensures
        match frame_at(buf.take(longer), 0) {
            Some(Ok((_, taken))) => taken == longer,
            Some(Err(e)) => e != Error::NotComplete,
            None => false,
        },
{
    if let Some(Ok((f, taken))) = frame_at(buf.take(longer), 0) {
        lemma_frame_bounds(buf.take(longer), 0);
        if taken < longer {
            let shorter = if taken <= k {
                k
            } else {
                taken
            };
            assert(buf.take(longer).take(taken) =~= buf.take(shorter).take(taken));
            lemma_frame_agrees(buf.take(longer), buf.take(shorter), 0, taken);
        }
    }
}

} // verus!
