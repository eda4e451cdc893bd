use crate::common::error::{Error, NumberError};
use crate::common::mark::{
    BANG, COLON, COMMA, DOLLAR, EQUALS, GREATER, HASH, MINUS, PAREN, PERCENT, PIPE, PLUS, STAR,
    TILDE, UNDERSCORE,
};
use crate::common::scan::{is_line_end, lemma_line_end, line_end, CR, LF};
use crate::common::text::{decimal, number_text, parse_u64, parsed_u64};
use crate::v2::round::{
    clean, lemma_decimal, lemma_line_in_context, lemma_marked_line, number_reads_back,
    reads_back,
};
use crate::v3::frame::{lemma_view, option_views, pair_views, views, Body, Frame, FrameView};
use crate::v3::grammar::{
    attached_at, frame_at, group_at, is_aggregate, items_at, leaf, lemma_frame_bounds,
    lemma_items_bounds, opens, refusal, Group,
};
use crate::v3::lexer::{lemma_token_bounds, token_at};
use crate::v3::members::{distinct, entries, insert, key_index, lemma_key_index};
use crate::v3::shape::{keys, lemma_distinct, lemma_entries, lemma_items_well_formed, no_repeats};
use crate::v3::tag::{Tag, TagType};
use crate::v3::wire::{
    body_encoding, boolean_letter, crlf, encoding, header, items_encoding, line, pairs_encoding,
};
use vstd::prelude::*;

verus! {

broadcast use vstd::std_specs::vec::group_vec_axioms;

/// The number parser reads the decimal text of the count `n` as `n`.
pub open spec fn count_reads_back(n: int) -> bool {
    0 <= n <= u64::MAX && parsed_u64(decimal(n)) == Ok::<u64, NumberError>(n as u64)
}

/// The keys and values of `pairs` in one row: key, value, key, value.
pub open spec fn flat(pairs: Seq<(FrameView, FrameView)>) -> Seq<FrameView>
    decreases pairs.len(),
{
    if pairs.len() == 0 {
        Seq::empty()
    } else {
        flat(pairs.drop_last()).push(pairs.last().0).push(pairs.last().1)
    }
}

/// A body that can follow an attribute block: a leaf other than a null, or
/// an array.
pub open spec fn attachable(body: Body) -> bool {
    !(body is Null || body is MapFrame || body is SetFrame || body is Push)
}

/// A frame as the decoder hands it out, whose numbers the number parser
/// reads back: no payload holds a line end, attributes stand only where a
/// frame can have them and not on an entry of an attribute block, no key
/// occurs twice or is a map, a set or a push, no set holds an item twice or
/// one of these, and each integer, length and count is read back from its
/// decimal text.
pub open spec fn faithful(f: FrameView) -> bool
    decreases f,
{
    &&& match f.attributes {
        None => true,
        Some(block) => attachable(f.body) && count_reads_back(block.len() as int) && no_repeats(
            keys(block),
        ) && forall|i: int|
            0 <= i < block.len() ==> !is_aggregate((#[trigger] block[i]).0)
                && block[i].0.attributes is None && block[i].1.attributes is None && faithful(
                block[i].0,
            ) && faithful(block[i].1),
    }
    &&& match f.body {
        Body::SimpleString(text) => clean(text),
        Body::SimpleError(text) => clean(text),
        Body::Double(text) => clean(text),
        Body::BigNumber(text) => clean(text),
        Body::Boolean(_) => true,
        Body::Null => true,
        Body::Integer(n) => reads_back(n as int),
        Body::BulkString(text) => clean(text) && reads_back(text.len() as int),
        Body::BulkError(text) => clean(text) && count_reads_back(text.len() as int),
        Body::VerbatimString(format, text) => format.len() == 3 && clean(
            format + seq![COLON] + text,
        ) && count_reads_back(text.len() as int + 4),
        Body::Array(items) => reads_back(items.len() as int) && forall|i: int|
            0 <= i < items.len() ==> faithful(#[trigger] items[i]),
        Body::Push(items) => count_reads_back(items.len() as int) && forall|i: int|
            0 <= i < items.len() ==> faithful(#[trigger] items[i]),
        Body::SetFrame(items) => count_reads_back(items.len() as int) && no_repeats(items)
            && forall|i: int|
            0 <= i < items.len() ==> faithful(#[trigger] items[i]) && !is_aggregate(items[i]),
        Body::MapFrame(pairs) => count_reads_back(pairs.len() as int) && no_repeats(keys(pairs))
            && forall|i: int|
            0 <= i < pairs.len() ==> !is_aggregate((#[trigger] pairs[i]).0) && faithful(
                pairs[i].0,
            ) && faithful(pairs[i].1),
    }
}

/// The row of entries holds each key at an even place and its value after
/// it.
pub proof fn lemma_flat(pairs: Seq<(FrameView, FrameView)>)
    ensures
        flat(pairs).len() == 2 * pairs.len(),
        forall|i: int|
            0 <= i < pairs.len() ==> flat(pairs)[2 * i] == (#[trigger] pairs[i]).0 && flat(pairs)[2
                * i + 1] == pairs[i].1,
    decreases pairs.len(),
{
    if pairs.len() > 0 {
        lemma_flat(pairs.drop_last());
        assert forall|i: int| 0 <= i < pairs.len() implies flat(pairs)[2 * i] == (
        #[trigger] pairs[i]).0 && flat(pairs)[2 * i + 1] == pairs[i].1 by {
            if i < pairs.len() - 1 {
                assert(pairs.drop_last()[i] == pairs[i]);
            }
        }
    }
}

/// Where nothing occurs twice, `distinct` keeps everything.
pub proof fn lemma_distinct_same(items: Seq<FrameView>)
    requires
        no_repeats(items),
    ensures
        distinct(items) == items,
    decreases items.len(),
{
    if items.len() > 0 {
        let shorter = items.drop_last();
        assert forall|i: int, j: int| 0 <= i < j < shorter.len() implies shorter[i]
            != shorter[j] by {
            assert(items[i] != items[j]);
        }
        lemma_distinct_same(shorter);
        if shorter.contains(items.last()) {
            let j = choose|j: int| 0 <= j < shorter.len() && shorter[j] == items.last();
            assert(items[j] != items[items.len() - 1]);
        }
        assert(shorter.push(items.last()) =~= items);
    }
}

/// Where no entry has the key, `key_index` finds nothing.
pub proof fn lemma_key_absent(pairs: Seq<(FrameView, FrameView)>, key: FrameView)
    requires
        forall|i: int| 0 <= i < pairs.len() ==> (#[trigger] pairs[i]).0 != key,
    ensures
        key_index(pairs, key) is None,
    decreases pairs.len(),
{
    if pairs.len() > 0 {
        assert forall|i: int| 0 <= i < pairs.drop_last().len() implies (#[trigger] pairs.drop_last()[i]).0
            != key by {
            assert(pairs.drop_last()[i] == pairs[i]);
        }
        lemma_key_absent(pairs.drop_last(), key);
        assert(pairs.last() == pairs[pairs.len() - 1]);
    }
}

/// Where no key occurs twice, the entries that the row of keys and values
/// comes to are the entries themselves.
pub proof fn lemma_entries_flat(pairs: Seq<(FrameView, FrameView)>)
    requires
        no_repeats(keys(pairs)),
    ensures
        entries(flat(pairs)) == pairs,
    decreases pairs.len(),
{
    lemma_flat(pairs);
    if pairs.len() > 0 {
        let shorter = pairs.drop_last();
        lemma_flat(shorter);
        assert forall|i: int, j: int| 0 <= i < j < keys(shorter).len() implies keys(shorter)[i]
            != keys(shorter)[j] by {
            assert(keys(pairs)[i] != keys(pairs)[j]);
        }
        lemma_entries_flat(shorter);
        let row = flat(pairs);
        assert(row.take(row.len() - 2) =~= flat(shorter));
        assert forall|i: int| 0 <= i < shorter.len() implies (#[trigger] shorter[i]).0
            != pairs.last().0 by {
            assert(keys(pairs)[i] != keys(pairs)[pairs.len() - 1]);
        }
        lemma_key_absent(shorter, pairs.last().0);
        assert(row[row.len() - 2] == pairs.last().0);
        assert(row[row.len() - 1] == pairs.last().1);
        assert(entries(row) == insert(entries(flat(shorter)), pairs.last().0, pairs.last().1));
        assert(shorter.push((pairs.last().0, pairs.last().1)) =~= pairs);
    } else {
        assert(pairs =~= Seq::empty());
    }
}

/// A line whose first byte alone decides its kind is read as a token of
/// that kind over its text, whatever stands before and after.
pub proof fn lemma_plain_token(mark: u8, text: Seq<u8>, p: Seq<u8>, q: Seq<u8>)
    requires
        mark == PLUS || mark == MINUS || mark == COLON || mark == UNDERSCORE || mark == HASH
            || mark == COMMA || mark == PAREN,
        clean(text),
        p.len() + text.len() + q.len() + 3 <= usize::MAX,
    ensures
        ({
            let s = p + line(mark, text) + q;
            let start = p.len() + 1;
            &&& s.len() == p.len() + text.len() + q.len() + 3
            &&& token_at(s, p.len() as int) matches Some(Ok((t, next)))
            &&& t.start_position == start
            &&& t.end_position == start + text.len()
            &&& next == start + text.len() + 2
            &&& s.subrange(t.start_position as int, t.end_position as int) == text
            &&& t.tag_type == if mark == PLUS {
                TagType::SimpleString
            } else if mark == MINUS {
                TagType::SimpleError
            } else if mark == COLON {
                TagType::Integer
            } else if mark == UNDERSCORE {
                TagType::Null
            } else if mark == HASH {
                TagType::Boolean
            } else if mark == COMMA {
                TagType::Double
            } else {
                TagType::BigNumber
            }
        }),
{
    lemma_marked_line(p, mark, text, q);
}

/// A length line and its payload line are read as one token over the
/// payload, whatever stands before and after.
#[verifier::rlimit(100)]
#[verifier::spinoff_prover]
pub proof fn lemma_payload_token(mark: u8, payload: Seq<u8>, p: Seq<u8>, q: Seq<u8>)
    requires
        mark == DOLLAR || mark == BANG || mark == EQUALS,
        clean(payload),
        mark == DOLLAR ==> reads_back(payload.len() as int),
        mark != DOLLAR ==> count_reads_back(payload.len() as int),
        p.len() + header(mark, payload.len() as int).len() + payload.len() + 2 + q.len()
            <= usize::MAX,
    ensures
        ({
            let s = p + (header(mark, payload.len() as int) + payload + crlf()) + q;
            let start = p.len() + header(mark, payload.len() as int).len();
            &&& s.len() == start + payload.len() + 2 + q.len()
            &&& token_at(s, p.len() as int) matches Some(Ok((t, next)))
            &&& t.start_position == start
            &&& t.end_position == start + payload.len()
            &&& next == start + payload.len() + 2
            &&& s.subrange(t.start_position as int, t.end_position as int) == payload
            &&& t.tag_type == if mark == DOLLAR {
                TagType::BulkString
            } else if mark == BANG {
                TagType::BulkError
            } else {
                TagType::VerbatimString
            }
        }),
{
    let number = decimal(payload.len() as int);
    let head = header(mark, payload.len() as int);
    let s = p + (head + payload + crlf()) + q;
    lemma_decimal(payload.len() as int);
    let after = payload + crlf() + q;
    lemma_marked_line(p, mark, number, after);
    assert(s =~= p + (seq![mark] + number + crlf()) + after);
    let before = p + head;
    lemma_line_in_context(before, payload, q);
    assert(s =~= before + payload + crlf() + q);
    let start = (p.len() + head.len()) as int;
    assert(s.subrange(start, start + payload.len()) =~= payload);
}

/// The line that opens a group is read as a token of the group's kind with
/// its count, whatever stands before and after.
pub proof fn lemma_group_token(mark: u8, n: int, p: Seq<u8>, q: Seq<u8>)
    requires
        mark == STAR || mark == TILDE || mark == PERCENT || mark == GREATER || mark == PIPE,
        mark == STAR ==> reads_back(n) && n >= 0,
        mark != STAR ==> count_reads_back(n),
        p.len() + header(mark, n).len() + q.len() <= usize::MAX,
    ensures
        ({
            let s = p + header(mark, n) + q;
            &&& s.len() == p.len() + header(mark, n).len() + q.len()
            &&& token_at(s, p.len() as int) matches Some(Ok((t, next)))
            &&& next == p.len() + header(mark, n).len()
            &&& t.tag_type == if mark == STAR {
                TagType::Array(n as u64)
            } else if mark == TILDE {
                TagType::SetFrame(n as u64)
            } else if mark == PERCENT {
                TagType::MapFrame(n as u64)
            } else if mark == GREATER {
                TagType::Push(n as u64)
            } else {
                TagType::Attribute(n as u64)
            }
        }),
{
    lemma_decimal(n);
    lemma_marked_line(p, mark, decimal(n), q);
}

/// A frame without attributes that holds `body`.
pub open spec fn bare(body: Body) -> FrameView {
    FrameView { body, attributes: None }
}

/// A body that holds no frames.
pub open spec fn is_leaf(body: Body) -> bool {
    !(body is Array || body is MapFrame || body is SetFrame || body is Push)
}

/// The encoding of a leaf is read as one token, and the token as the leaf,
/// whatever stands before and after.
#[verifier::rlimit(100)]
#[verifier::spinoff_prover]
pub proof fn lemma_leaf_round(
    body: Body,
    attributes: Option<Seq<(FrameView, FrameView)>>,
    p: Seq<u8>,
    q: Seq<u8>,
)
    requires
        is_leaf(body),
        faithful(bare(body)),
        p.len() + body_encoding(body).len() + q.len() <= usize::MAX,
    ensures
        ({
            let s = p + body_encoding(body) + q;
            &&& token_at(s, p.len() as int) matches Some(Ok((t, next)))
            &&& next == p.len() + body_encoding(body).len()
            &&& p.len() < next <= s.len()
            &&& opens(t.tag_type) is None
            &&& (t.tag_type is Null <==> body is Null)
            &&& leaf(s, t, attributes) == Ok::<FrameView, Error>(
                FrameView {
                    body,
                    attributes: if body is Null {
                        None
                    } else {
                        attributes
                    },
                },
            )
        }),
{
    let s = p + body_encoding(body) + q;
    match body {
        Body::SimpleString(text) => lemma_plain_token(PLUS, text, p, q),
        Body::SimpleError(text) => lemma_plain_token(MINUS, text, p, q),
        Body::Double(text) => lemma_plain_token(COMMA, text, p, q),
        Body::BigNumber(text) => lemma_plain_token(PAREN, text, p, q),
        Body::Boolean(value) => {
            lemma_plain_token(HASH, seq![boolean_letter(value)], p, q);
        },
        Body::Null => {
            lemma_plain_token(UNDERSCORE, Seq::empty(), p, q);
        },
        Body::Integer(n) => {
            lemma_decimal(n as int);
            lemma_plain_token(COLON, decimal(n as int), p, q);
        },
        Body::BulkString(text) => lemma_payload_token(DOLLAR, text, p, q),
        Body::BulkError(text) => lemma_payload_token(BANG, text, p, q),
        Body::VerbatimString(format, text) => {
            let payload = format + seq![COLON] + text;
            lemma_payload_token(EQUALS, payload, p, q);
            assert(s =~= p + (header(EQUALS, payload.len() as int) + payload + crlf()) + q);
            assert(payload.subrange(0, 3) =~= format);
            assert(payload.subrange(4, payload.len() as int) =~= text);
        },
        _ => {},
    }
}

/// Where the members of a group are read up to a place and one more frame
/// that the group admits starts there, the members with that frame are read
/// up to its end.
#[verifier::rlimit(100)]
#[verifier::spinoff_prover]
pub proof fn lemma_items_append(s: Seq<u8>, pos: int, group: Group, index: int, count: nat)
    requires
        0 <= pos <= s.len() <= usize::MAX,
        items_at(s, pos, group, index, count) is Ok,
        frame_at(s, items_at(s, pos, group, index, count).unwrap().1, group is Attributes)
            matches Some(Ok(_)),
        refusal(
            group,
            index + count,
            frame_at(
                s,
                items_at(s, pos, group, index, count).unwrap().1,
                group is Attributes,
            ).unwrap().unwrap().0,
        ) is None,
    ensures
        items_at(s, pos, group, index, count + 1) == Ok::<(Seq<FrameView>, int), Error>(
            (
                items_at(s, pos, group, index, count).unwrap().0.push(
                    frame_at(
                        s,
                        items_at(s, pos, group, index, count).unwrap().1,
                        group is Attributes,
                    ).unwrap().unwrap().0,
                ),
                frame_at(
                    s,
                    items_at(s, pos, group, index, count).unwrap().1,
                    group is Attributes,
                ).unwrap().unwrap().1,
            ),
        ),
    decreases count,
{
    let inside = group is Attributes;
    let (before, mid) = items_at(s, pos, group, index, count).unwrap();
    let (last, end) = frame_at(s, mid, inside).unwrap().unwrap();
    lemma_items_bounds(s, pos, group, index, count);
    lemma_frame_bounds(s, mid, inside);
    if count == 0 {
        assert(mid == pos && before =~= Seq::empty());
        assert(items_at(s, end, group, index + 1, 0) == Ok::<(Seq<FrameView>, int), Error>(
            (Seq::empty(), end),
        ));
        assert(seq![last] + Seq::<FrameView>::empty() =~= before.push(last));
        assert(items_at(s, pos, group, index, 1) == Ok::<(Seq<FrameView>, int), Error>(
            (seq![last] + Seq::<FrameView>::empty(), end),
        ));
    } else {
        lemma_frame_bounds(s, pos, inside);
        let (first, next) = frame_at(s, pos, inside).unwrap().unwrap();
        let (rest, reached) = items_at(s, next, group, index + 1, (count - 1) as nat).unwrap();
        assert(reached == mid && before == seq![first] + rest);
        lemma_items_append(s, next, group, index + 1, (count - 1) as nat);
        assert(items_at(s, next, group, index + 1, count) == Ok::<(Seq<FrameView>, int), Error>(
            (rest.push(last), end),
        ));
        assert(seq![first] + rest.push(last) =~= (seq![first] + rest).push(last));
        assert(items_at(s, pos, group, index, count + 1) == Ok::<(Seq<FrameView>, int), Error>(
            (seq![first] + rest.push(last), end),
        ));
    }
}

/// Round trip, as far as the number parser reads back the numbers that are
/// written: the encoding of a frame as the decoder hands it out is read as
/// that frame, and wholly, whatever stands before and after it.
#[verifier::rlimit(100)]
#[verifier::spinoff_prover]
pub proof fn lemma_round_trip_in_context(f: FrameView, inside: bool, p: Seq<u8>, q: Seq<u8>)
    requires
        faithful(f),
        inside ==> f.attributes is None,
        p.len() + encoding(f).len() + q.len() <= usize::MAX,
    ensures
        frame_at(p + encoding(f) + q, p.len() as int, inside) == Some(
            Ok::<(FrameView, int), Error>((f, (p.len() + encoding(f).len()) as int)),
        ),
    decreases f, 1int,
{
    let s = p + encoding(f) + q;
    match f.attributes {
        None => {
            assert(encoding(f) =~= body_encoding(f.body));
            lemma_body_round(f.body, inside, p, q);
        },
        Some(block) => {
            let n = block.len() as int;
            let head = header(PIPE, n);
            let entries_text = pairs_encoding(block, n);
            let body_text = body_encoding(f.body);
            assert(encoding(f) =~= head + entries_text + body_text);
            lemma_group_token(PIPE, n, p, entries_text + body_text + q);
            assert(s =~= p + head + (entries_text + body_text + q));
            let before = p + head;
            lemma_flat(block);
            lemma_pairs_round(block, n, Group::Attributes, before, body_text + q);
            assert(s =~= before + entries_text + (body_text + q));
            assert(block.take(n) =~= block);
            let row = flat(block);
            assert(Seq::<FrameView>::empty() + row =~= row);
            lemma_entries_flat(block);
            let start = before + entries_text;
            lemma_attached_round(f.body, block, start, q);
            assert(s =~= start + body_text + q);
        },
    }
}

/// The encodings of the first `k` of `items`, one after the other, are read
/// as those members of a group, whatever stands before and after.
#[verifier::rlimit(100)]
#[verifier::spinoff_prover]
pub proof fn lemma_items_round(items: Seq<FrameView>, k: int, group: Group, p: Seq<u8>, q: Seq<u8>)
    requires
        0 <= k <= items.len(),
        !(group is Attributes),
        forall|i: int|
            0 <= i < items.len() ==> faithful(#[trigger] items[i]) && refusal(group, i, items[i])
                is None,
        p.len() + items_encoding(items, k).len() + q.len() <= usize::MAX,
    ensures
        items_at(p + items_encoding(items, k) + q, p.len() as int, group, 0, k as nat) == Ok::<
            (Seq<FrameView>, int),
            Error,
        >((items.take(k), (p.len() + items_encoding(items, k).len()) as int)),
    decreases items, k,
{
    let s = p + items_encoding(items, k) + q;
    if k == 0 {
        assert(items.take(0) =~= Seq::empty());
    } else {
        let last = items[k - 1];
        let head = items_encoding(items, k - 1);
        assert(items_encoding(items, k) == head + encoding(last));
        lemma_items_round(items, k - 1, group, p, encoding(last) + q);
        assert(s =~= p + head + (encoding(last) + q));
        assert(s =~= (p + head) + encoding(last) + q);
        lemma_step(s, p.len() as int, group, (k - 1) as nat, last, p + head, q);
        assert(items.take(k) =~= items.take(k - 1).push(last));
    }
}

/// Where the members of a group are read up to the place where the
/// encoding of one more frame starts, and the group admits that frame, the
/// members with that frame are read up to the end of its encoding.
pub proof fn lemma_step(
    s: Seq<u8>,
    pos: int,
    group: Group,
    count: nat,
    f: FrameView,
    p: Seq<u8>,
    q: Seq<u8>,
)
    requires
        0 <= pos <= s.len() <= usize::MAX,
        s == p + encoding(f) + q,
        items_at(s, pos, group, 0, count) matches Ok((_, reached)) && reached == p.len(),
        faithful(f),
        group is Attributes ==> f.attributes is None,
        refusal(group, count as int, f) is None,
    ensures
        items_at(s, pos, group, 0, count + 1) == Ok::<(Seq<FrameView>, int), Error>(
            (
                items_at(s, pos, group, 0, count).unwrap().0.push(f),
                (p.len() + encoding(f).len()) as int,
            ),
        ),
    decreases f, 2int,
{
    lemma_round_trip_in_context(f, group is Attributes, p, q);
    lemma_items_append(s, pos, group, 0, count);
}

/// The encodings of the first `k` entries of `pairs`, one after the other,
/// are read as the row of their keys and values, whatever stands before and
/// after.
#[verifier::rlimit(100)]
#[verifier::spinoff_prover]
pub proof fn lemma_pairs_round(
    pairs: Seq<(FrameView, FrameView)>,
    k: int,
    group: Group,
    p: Seq<u8>,
    q: Seq<u8>,
)
    requires
        0 <= k <= pairs.len(),
        group is MapFrame || group is Attributes,
        forall|i: int|
            0 <= i < pairs.len() ==> faithful((#[trigger] pairs[i]).0) && faithful(pairs[i].1)
                && !is_aggregate(pairs[i].0),
        group is Attributes ==> forall|i: int|
            0 <= i < pairs.len() ==> (#[trigger] pairs[i]).0.attributes is None
                && pairs[i].1.attributes is None,
        p.len() + pairs_encoding(pairs, k).len() + q.len() <= usize::MAX,
    ensures
        items_at(p + pairs_encoding(pairs, k) + q, p.len() as int, group, 0, (2 * k) as nat)
            == Ok::<(Seq<FrameView>, int), Error>(
            (flat(pairs.take(k)), (p.len() + pairs_encoding(pairs, k).len()) as int),
        ),
    decreases pairs, k,
{
    let s = p + pairs_encoding(pairs, k) + q;
    if k == 0 {
        assert(pairs.take(0) =~= Seq::empty());
    } else {
        let key = pairs[k - 1].0;
        let value = pairs[k - 1].1;
        let head = pairs_encoding(pairs, k - 1);
        assert(pairs_encoding(pairs, k) == head + encoding(key) + encoding(value));
        lemma_pairs_round(pairs, k - 1, group, p, encoding(key) + encoding(value) + q);
        assert(s =~= p + head + (encoding(key) + encoding(value) + q));
        assert(s =~= (p + head) + encoding(key) + (encoding(value) + q));
        lemma_step(s, p.len() as int, group, (2 * k - 2) as nat, key, p + head, encoding(value) + q);
        assert(s =~= (p + head + encoding(key)) + encoding(value) + q);
        lemma_step(
            s,
            p.len() as int,
            group,
            (2 * k - 1) as nat,
            value,
            p + head + encoding(key),
            q,
        );
        assert(pairs.take(k).drop_last() =~= pairs.take(k - 1));
        assert(pairs.take(k).last() == pairs[k - 1]);
    }
}

/// The encoding of what a frame holds is read as the frame without
/// attributes, whatever stands before and after.
#[verifier::rlimit(100)]
#[verifier::spinoff_prover]
pub proof fn lemma_body_round(body: Body, inside: bool, p: Seq<u8>, q: Seq<u8>)
    requires
        faithful(bare(body)),
        p.len() + body_encoding(body).len() + q.len() <= usize::MAX,
    ensures
        frame_at(p + body_encoding(body) + q, p.len() as int, inside) == Some(
            Ok::<(FrameView, int), Error>((bare(body), (p.len() + body_encoding(body).len()) as int)),
        ),
    decreases body, 0int,
{
    let s = p + body_encoding(body) + q;
    match body {
        Body::Array(items) => {
            let n = items.len() as int;
            let text = items_encoding(items, n);
            lemma_group_token(STAR, n, p, text + q);
            assert(s =~= p + header(STAR, n) + (text + q));
            lemma_items_round(items, n, Group::Array, p + header(STAR, n), q);
            assert(s =~= (p + header(STAR, n)) + text + q);
            assert(Seq::<FrameView>::empty() + items.take(n) =~= items);
        },
        Body::Push(items) => {
            let n = items.len() as int;
            let text = items_encoding(items, n);
            lemma_group_token(GREATER, n, p, text + q);
            assert(s =~= p + header(GREATER, n) + (text + q));
            lemma_items_round(items, n, Group::Push, p + header(GREATER, n), q);
            assert(s =~= (p + header(GREATER, n)) + text + q);
            assert(Seq::<FrameView>::empty() + items.take(n) =~= items);
        },
        Body::SetFrame(items) => {
            let n = items.len() as int;
            let text = items_encoding(items, n);
            lemma_group_token(TILDE, n, p, text + q);
            assert(s =~= p + header(TILDE, n) + (text + q));
            lemma_items_round(items, n, Group::SetFrame, p + header(TILDE, n), q);
            assert(s =~= (p + header(TILDE, n)) + text + q);
            assert(Seq::<FrameView>::empty() + items.take(n) =~= items);
            lemma_distinct_same(items);
        },
        Body::MapFrame(pairs) => {
            let n = pairs.len() as int;
            let text = pairs_encoding(pairs, n);
            lemma_group_token(PERCENT, n, p, text + q);
            assert(s =~= p + header(PERCENT, n) + (text + q));
            lemma_pairs_round(pairs, n, Group::MapFrame, p + header(PERCENT, n), q);
            assert(s =~= (p + header(PERCENT, n)) + text + q);
            assert(pairs.take(n) =~= pairs);
            assert(Seq::<FrameView>::empty() + flat(pairs) =~= flat(pairs));
            lemma_entries_flat(pairs);
        },
        _ => {
            lemma_leaf_round(body, None, p, q);
        },
    }
}

/// The encoding of what a frame holds is read after an attribute block as
/// the frame with the block's entries as its attributes, whatever stands
/// before and after.
#[verifier::rlimit(100)]
#[verifier::spinoff_prover]
pub proof fn lemma_attached_round(
    body: Body,
    block: Seq<(FrameView, FrameView)>,
    p: Seq<u8>,
    q: Seq<u8>,
)
    requires
        attachable(body),
        faithful(bare(body)),
        p.len() + body_encoding(body).len() + q.len() <= usize::MAX,
    ensures
        attached_at(p + body_encoding(body) + q, p.len() as int, block) == Ok::<
            (FrameView, int),
            Error,
        >(
            (
                FrameView { body, attributes: Some(block) },
                (p.len() + body_encoding(body).len()) as int,
            ),
        ),
    decreases body, 0int,
{
    let s = p + body_encoding(body) + q;
    match body {
        Body::Array(items) => {
            let n = items.len() as int;
            let text = items_encoding(items, n);
            lemma_group_token(STAR, n, p, text + q);
            assert(s =~= p + header(STAR, n) + (text + q));
            lemma_items_round(items, n, Group::Array, p + header(STAR, n), q);
            assert(s =~= (p + header(STAR, n)) + text + q);
            assert(Seq::<FrameView>::empty() + items.take(n) =~= items);
        },
        _ => {
            lemma_leaf_round(body, Some(block), p, q);
        },
    }
}

/// The number parser reads every number that the encoding of `f` holds as
/// that number: each integer, each length and each count, at any depth and
/// in the attributes too.
pub open spec fn numbers_read_back(f: FrameView) -> bool
    decreases f,
{
    &&& match f.attributes {
        None => true,
        Some(block) => count_reads_back(block.len() as int) && forall|i: int|
            0 <= i < block.len() ==> numbers_read_back((#[trigger] block[i]).0)
                && numbers_read_back(block[i].1),
    }
    &&& match f.body {
        Body::Integer(n) => reads_back(n as int),
        Body::BulkString(text) => reads_back(text.len() as int),
        Body::BulkError(text) => count_reads_back(text.len() as int),
        Body::VerbatimString(_, text) => count_reads_back(text.len() as int + 4),
        Body::Array(items) => reads_back(items.len() as int) && forall|i: int|
            0 <= i < items.len() ==> numbers_read_back(#[trigger] items[i]),
        Body::Push(items) => count_reads_back(items.len() as int) && forall|i: int|
            0 <= i < items.len() ==> numbers_read_back(#[trigger] items[i]),
        Body::SetFrame(items) => count_reads_back(items.len() as int) && forall|i: int|
            0 <= i < items.len() ==> numbers_read_back(#[trigger] items[i]),
        Body::MapFrame(pairs) => count_reads_back(pairs.len() as int) && forall|i: int|
            0 <= i < pairs.len() ==> numbers_read_back((#[trigger] pairs[i]).0)
                && numbers_read_back(pairs[i].1),
        _ => true,
    }
}

/// `f` is faithful as far as its numbers are read back.
pub open spec fn keeps(f: FrameView) -> bool {
    numbers_read_back(f) ==> faithful(f)
}

/// Entries as an attribute block holds them: no key occurs twice or is a
/// map, a set or a push, no key or value has attributes, and each is
/// faithful as far as its numbers are read back.
pub open spec fn block_shape(block: Seq<(FrameView, FrameView)>) -> bool {
    &&& no_repeats(keys(block))
    &&& forall|i: int|
        0 <= i < block.len() ==> !is_aggregate((#[trigger] block[i]).0)
            && block[i].0.attributes is None && block[i].1.attributes is None && keeps(block[i].0)
            && keeps(block[i].1)
}

/// What holds of every item holds of every key and value of the entries
/// that the items come to.
pub proof fn lemma_entries_all(items: Seq<FrameView>, holds: spec_fn(FrameView) -> bool)
    requires
        forall|i: int| 0 <= i < items.len() ==> holds(#[trigger] items[i]),
    ensures
        forall|i: int|
            0 <= i < entries(items).len() ==> holds((#[trigger] entries(items)[i]).0) && holds(
                entries(items)[i].1,
            ),
    decreases items.len(),
{
    if items.len() < 2 {
        assert(entries(items).len() == 0);
    } else if items.len() % 2 == 1 {
        let shorter = items.drop_last();
        assert forall|i: int| 0 <= i < shorter.len() implies holds(#[trigger] shorter[i]) by {
            assert(shorter[i] == items[i]);
        }
        lemma_entries_all(shorter, holds);
        assert(entries(items) == entries(shorter));
    } else {
        let shorter = items.take(items.len() - 2);
        assert forall|i: int| 0 <= i < shorter.len() implies holds(#[trigger] shorter[i]) by {
            assert(shorter[i] == items[i]);
        }
        lemma_entries_all(shorter, holds);
        let key = items[items.len() - 2];
        let value = items[items.len() - 1];
        assert(holds(key) && holds(value));
        let before = entries(shorter);
        let after = entries(items);
        lemma_key_index(before, key);
        assert(after == insert(before, key, value));
        assert forall|i: int| 0 <= i < after.len() implies holds((#[trigger] after[i]).0) && holds(
            after[i].1,
        ) by {
            match key_index(before, key) {
                Some(at) => {
                    if i != at {
                        assert(after[i] == before[i]);
                    }
                },
                None => {
                    if i < before.len() {
                        assert(after[i] == before[i]);
                    }
                },
            }
        }
    }
}

/// No line ends inside the range of a token.
pub proof fn lemma_token_clean(s: Seq<u8>, pos: int)
    requires
        0 <= pos,
        s.len() <= usize::MAX,
    ensures
        token_at(s, pos) matches Some(Ok((t, _))) ==> clean(
            s.subrange(t.start_position as int, t.end_position as int),
        ),
{
    lemma_token_bounds(s, pos);
    lemma_line_end(s, pos);
    if let Some(Ok((t, next))) = token_at(s, pos) {
        let end = line_end(s, pos).unwrap();
        let text = s.subrange(t.start_position as int, t.end_position as int);
        if t.tag_type is BulkString || t.tag_type is BulkError || t.tag_type is VerbatimString {
            lemma_line_end(s, end + 2);
        }
        assert forall|i: int| 0 <= i && i + 1 < text.len() implies !(#[trigger] text[i] == CR
            && text[i + 1] == LF) by {
            assert(text[i] == s[t.start_position + i]);
            assert(text[i + 1] == s[t.start_position + i + 1]);
            assert(!is_line_end(s, t.start_position + i));
        }
    }
}

/// A leaf whose token holds no line end is faithful as far as its numbers
/// are read back, where its attributes are as a block holds them.
pub proof fn lemma_leaf_keeps(s: Seq<u8>, t: Tag, attributes: Option<Seq<(FrameView, FrameView)>>)
    requires
        t.start_position <= t.end_position <= s.len(),
        clean(s.subrange(t.start_position as int, t.end_position as int)),
        attributes matches Some(block) ==> !(t.tag_type is Null) && block_shape(block),
    ensures
        leaf(s, t, attributes) matches Ok(f) ==> keeps(f),
{
    if let Ok(f) = leaf(s, t, attributes) {
        let text = s.subrange(t.start_position as int, t.end_position as int);
        if let Body::VerbatimString(format, data) = f.body {
            assert(format + seq![COLON] + data =~= text);
        }
    }
}

/// What the decoder hands out is faithful as far as its numbers are read
/// back, and has no attributes where it is an entry of an attribute block.
#[verifier::rlimit(100)]
#[verifier::spinoff_prover]
pub proof fn lemma_frame_keeps(s: Seq<u8>, pos: int, inside: bool)
    requires
        0 <= pos,
        s.len() <= usize::MAX,
    ensures
        frame_at(s, pos, inside) matches Some(Ok((f, _))) ==> keeps(f) && (inside
            ==> f.attributes is None),
    decreases s.len() - pos, 0int,
{
    lemma_token_bounds(s, pos);
    lemma_token_clean(s, pos);
    if let Some(Ok((t, next))) = token_at(s, pos) {
        match opens(t.tag_type) {
            None => {
                lemma_leaf_keeps(s, t, None);
            },
            Some((group, count)) => {
                lemma_group_keeps(s, next, group, count, None);
            },
        }
    }
}

/// The frame that a group comes to is faithful as far as its numbers are
/// read back, and has no attributes unless the group gets some or is an
/// attribute block.
#[verifier::rlimit(100)]
#[verifier::spinoff_prover]
pub proof fn lemma_group_keeps(
    s: Seq<u8>,
    pos: int,
    group: Group,
    count: nat,
    attributes: Option<Seq<(FrameView, FrameView)>>,
)
    requires
        0 <= pos <= s.len() <= usize::MAX,
        attributes matches Some(block) ==> group is Array && block_shape(block),
    ensures
        group_at(s, pos, group, Seq::empty(), count, attributes) matches Ok((f, _)) ==> keeps(f)
            && (attributes is None && !(group is Attributes) ==> f.attributes is None),
    decreases s.len() - pos, 2 + count,
{
    lemma_items_keeps(s, pos, group, 0, count);
    lemma_items_well_formed(s, pos, group, 0, count);
    lemma_items_bounds(s, pos, group, 0, count);
    if let Ok((rest, end)) = items_at(s, pos, group, 0, count) {
        let items = Seq::<FrameView>::empty() + rest;
        assert(items =~= rest);
        match group {
            Group::Attributes => {
                lemma_entries(items);
                lemma_entries_all(items, |x: FrameView| keeps(x) && x.attributes is None);
                lemma_attached_keeps(s, end, entries(items));
            },
            Group::MapFrame => {
                lemma_entries(items);
                lemma_entries_all(items, |x: FrameView| keeps(x));
            },
            Group::SetFrame => {
                lemma_distinct(items);
                let kept = distinct(items);
                assert forall|i: int| 0 <= i < kept.len() implies keeps(#[trigger] kept[i])
                    && !is_aggregate(kept[i]) by {
                    let x = kept[i];
                    assert(items.contains(x));
                    let j = choose|j: int| 0 <= j < items.len() && items[j] == x;
                    assert(refusal(group, 0 + j, items[j]) is None);
                }
            },
            _ => {},
        }
    }
}

/// The members of a group are faithful as far as their numbers are read
/// back, and have no attributes where the group is an attribute block.
pub proof fn lemma_items_keeps(s: Seq<u8>, pos: int, group: Group, index: int, count: nat)
    requires
        0 <= pos <= s.len() <= usize::MAX,
    ensures
        items_at(s, pos, group, index, count) matches Ok((items, _)) ==> forall|i: int|
            0 <= i < items.len() ==> keeps(#[trigger] items[i]) && (group is Attributes
                ==> items[i].attributes is None),
    decreases s.len() - pos, 1 + count,
{
    if count > 0 {
        lemma_frame_bounds(s, pos, group is Attributes);
        lemma_frame_keeps(s, pos, group is Attributes);
        if let Some(Ok((first, next))) = frame_at(s, pos, group is Attributes) {
            lemma_items_keeps(s, next, group, index + 1, (count - 1) as nat);
            if let Ok((items, _)) = items_at(s, pos, group, index, count) {
                let rest = items_at(s, next, group, index + 1, (count - 1) as nat).unwrap().0;
                assert forall|i: int| 0 <= i < items.len() implies keeps(#[trigger] items[i]) && (
                group is Attributes ==> items[i].attributes is None) by {
                    if i > 0 {
                        assert(items[i] == rest[i - 1]);
                    }
                }
            }
        }
    }
}

/// The frame after an attribute block is faithful as far as its numbers are
/// read back, where the block's entries are as a block holds them.
#[verifier::rlimit(100)]
#[verifier::spinoff_prover]
pub proof fn lemma_attached_keeps(s: Seq<u8>, pos: int, block: Seq<(FrameView, FrameView)>)
    requires
        0 <= pos <= s.len() <= usize::MAX,
        block_shape(block),
    ensures
        attached_at(s, pos, block) matches Ok((f, _)) ==> keeps(f),
    decreases s.len() - pos, 0int,
{
    lemma_token_bounds(s, pos);
    lemma_token_clean(s, pos);
    if let Some(Ok((t, next))) = token_at(s, pos) {
        match t.tag_type {
            TagType::Array(count) => {
                lemma_group_keeps(s, next, Group::Array, count as nat, Some(block));
            },
            _ => {
                if attached_at(s, pos, block) is Ok {
                    lemma_leaf_keeps(s, t, Some(block));
                }
            },
        }
    }
}

/// Round trip, as far as the number parser reads back the numbers that are
/// written: the encoding of a frame that the decoder handed out is read as
/// that frame, and wholly.
pub proof fn lemma_round_trip(s: Seq<u8>, pos: int, f: FrameView)
    requires
        0 <= pos,
        s.len() <= usize::MAX,
        frame_at(s, pos, false) matches Some(Ok((g, _))) && g == f,
        numbers_read_back(f),
        encoding(f).len() <= usize::MAX,
    ensures
        frame_at(encoding(f), 0, false) == Some(
            Ok::<(FrameView, int), Error>((f, encoding(f).len() as int)),
        ),
{
    lemma_frame_keeps(s, pos, false);
    lemma_round_trip_in_context(f, false, Seq::empty(), Seq::empty());
    assert(Seq::<u8>::empty() + encoding(f) + Seq::<u8>::empty() =~= encoding(f));
}

/// Whether the number parser reads the decimal text of the count `n` as
/// `n`: the text is written and read, and what is read is compared with `n`.
pub fn count_is_read_back(n: i128) -> (r: bool)
    ensures
        r == count_reads_back(n as int),
{
    if n < 0 || n > 18446744073709551615 {
        return false;
    }
    let text = number_text(n);
    match parse_u64(text.as_slice()) {
        Ok(m) => m as i128 == n,
        Err(_) => false,
    }
}

fn items_read_back(items: &Vec<Frame>) -> (r: bool)
    ensures
        r == forall|i: int|
            0 <= i < items@.len() ==> numbers_read_back(#[trigger] views(items@)[i]),
    decreases items,
{
    let mut i: usize = 0;
    while i < items.len()
        invariant
            0 <= i <= items.len(),
            forall|j: int| 0 <= j < i ==> numbers_read_back(#[trigger] views(items@)[j]),
        decreases items.len() - i,
    {
        assert(decreases_to!(items => items[i as int]));
        assert(views(items@)[i as int] == items[i as int]@);
        if !items[i].reads_back() {
            return false;
        }
        i += 1;
    }
    true
}

fn pairs_read_back(pairs: &Vec<(Frame, Frame)>) -> (r: bool)
    ensures
        r == forall|i: int|
            0 <= i < pairs@.len() ==> numbers_read_back((#[trigger] pair_views(pairs@)[i]).0)
                && numbers_read_back(pair_views(pairs@)[i].1),
    decreases pairs,
{
    let mut i: usize = 0;
    while i < pairs.len()
        invariant
            0 <= i <= pairs.len(),
            forall|j: int|
                0 <= j < i ==> numbers_read_back((#[trigger] pair_views(pairs@)[j]).0)
                    && numbers_read_back(pair_views(pairs@)[j].1),
        decreases pairs.len() - i,
    {
        assert(decreases_to!(pairs => pairs[i as int]));
        assert(decreases_to!(pairs[i as int] => pairs[i as int].0));
        assert(decreases_to!(pairs[i as int] => pairs[i as int].1));
        assert(pair_views(pairs@)[i as int] == (pairs[i as int].0@, pairs[i as int].1@));
        if !pairs[i].0.reads_back() || !pairs[i].1.reads_back() {
            return false;
        }
        i += 1;
    }
    true
}

fn attributes_read_back(attributes: &Option<Vec<(Frame, Frame)>>) -> (r: bool)
    ensures
        r == match option_views(*attributes) {
            None => true,
            Some(block) => count_reads_back(block.len() as int) && forall|i: int|
                0 <= i < block.len() ==> numbers_read_back((#[trigger] block[i]).0)
                    && numbers_read_back(block[i].1),
        },
    decreases attributes,
{
    match attributes {
        None => true,
        Some(pairs) => count_is_read_back(pairs.len() as i128) && pairs_read_back(pairs),
    }
}

impl<'a> Frame<'a> {
    /// Whether the number parser reads every number that the frame's
    /// encoding holds as that number: each is written, read and compared.
    pub fn reads_back(&self) -> (r: bool)
        ensures
            r == numbers_read_back(self@),
        decreases self, 1int,
    {
        proof {
            lemma_view(*self);
        }
        let head = match self {
            Frame::SimpleString { attributes, .. } => attributes_read_back(attributes),
            Frame::SimpleError { attributes, .. } => attributes_read_back(attributes),
            Frame::Boolean { attributes, .. } => attributes_read_back(attributes),
            Frame::Null { .. } => true,
            Frame::Integer { attributes, .. } => attributes_read_back(attributes),
            Frame::Double { attributes, .. } => attributes_read_back(attributes),
            Frame::BulkString { attributes, .. } => attributes_read_back(attributes),
            Frame::BulkError { attributes, .. } => attributes_read_back(attributes),
            Frame::BigNumber { attributes, .. } => attributes_read_back(attributes),
            Frame::VerbatimString { attributes, .. } => attributes_read_back(attributes),
            Frame::Array { attributes, .. } => attributes_read_back(attributes),
            Frame::MapFrame { attributes, .. } => attributes_read_back(attributes),
            Frame::SetFrame { attributes, .. } => attributes_read_back(attributes),
            Frame::Push { .. } => true,
        };
        head && self.body_reads_back()
    }

    fn body_reads_back(&self) -> (r: bool)
        ensures
            r == numbers_read_back(FrameView { body: self@.body, attributes: None }),
        decreases self, 0int,
    {
        proof {
            lemma_view(*self);
        }
        match self {
            Frame::Integer { data, .. } => number_reads_back(*data as i128),
            Frame::BulkString { data, .. } => number_reads_back(data.len() as i128),
            Frame::BulkError { data, .. } => count_is_read_back(data.len() as i128),
            Frame::VerbatimString { data, .. } => count_is_read_back(data.1.len() as i128 + 4),
            Frame::Array { data, .. } => number_reads_back(data.len() as i128) && items_read_back(
                data,
            ),
            Frame::Push { data } => count_is_read_back(data.len() as i128) && items_read_back(data),
            Frame::SetFrame { data, .. } => count_is_read_back(data.len() as i128)
                && items_read_back(data),
            Frame::MapFrame { data, .. } => count_is_read_back(data.len() as i128)
                && pairs_read_back(data),
            _ => true,
        }
    }
}

} // verus!
