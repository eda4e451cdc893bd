use crate::common::error::Error;
use crate::common::scan::{lemma_line_end, line_end};
use crate::v2::laws::{lemma_line_end_agrees, lemma_subrange_agrees, lemma_within_wider, within};
use crate::v3::frame::{Body, Frame, FrameView};
use crate::v3::grammar::{
    attached_at, frame_at, group_at, items_at, leaf, lemma_attached_bounds, lemma_frame_bounds,
    lemma_group_bounds, lemma_items_bounds, opens, Group,
};
use crate::v3::lexer::{lemma_token_bounds, token_at};
use crate::v3::members::{distinct, entries, lemma_key_index};
use crate::v3::shape::lemma_distinct;
use crate::v3::tag::{Tag, TagType};
use crate::v3::wire::encoding;
use crate::v3::V3;
use crate::{EncodeLen, Parser};
use vstd::prelude::*;

verus! {

/// Length fidelity: the bytes that encoding a frame gives are as many as
/// the frame's predicted length.
pub proof fn lemma_length_fidelity(frame: Frame, bytes: Seq<u8>)
    requires
        bytes == encoding(frame@),
    ensures
        bytes.len() == frame.encoded_len(),
{
}

/// Determinism: two outcomes of parsing the same bytes are the same
/// outcome, with frames that are equal as values and the same count of
/// bytes taken.
pub proof fn lemma_determinism(
    input: Seq<u8>,
    first: Result<Option<(Frame, usize)>, Error>,
    second: Result<Option<(Frame, usize)>, Error>,
)
    requires
        V3::parses(input, first),
        V3::parses(input, second),
    ensures
        match (first, second) {
            (Ok(Some(a)), Ok(Some(b))) => a.0@ == b.0@ && a.1 == b.1,
            (Ok(None), Ok(None)) => true,
            (Err(a), Err(b)) => a == b,
            _ => false,
        },
{
}

/// Every byte payload in `f`, at any depth and in its attributes too, is a
/// part of `s` that lies between `from` and `to`.
pub open spec fn payloads_within(f: FrameView, s: Seq<u8>, from: int, to: int) -> bool
    decreases f,
{
    &&& match f.attributes {
        Some(block) => pairs_within(block, s, from, to),
        None => true,
    }
    &&& match f.body {
        Body::SimpleString(data) => within(s, data, from, to),
        Body::SimpleError(data) => within(s, data, from, to),
        Body::Double(data) => within(s, data, from, to),
        Body::BulkString(data) => within(s, data, from, to),
        Body::BulkError(data) => within(s, data, from, to),
        Body::BigNumber(data) => within(s, data, from, to),
        Body::VerbatimString(format, data) => within(s, format, from, to) && within(
            s,
            data,
            from,
            to,
        ),
        Body::Array(items) => all_within(items, s, from, to),
        Body::SetFrame(items) => all_within(items, s, from, to),
        Body::Push(items) => all_within(items, s, from, to),
        Body::MapFrame(pairs) => pairs_within(pairs, s, from, to),
        _ => true,
    }
}

/// Every byte payload in `items` is a part of `s` between `from` and `to`.
pub open spec fn all_within(items: Seq<FrameView>, s: Seq<u8>, from: int, to: int) -> bool
    decreases items,
{
    forall|i: int| 0 <= i < items.len() ==> payloads_within(#[trigger] items[i], s, from, to)
}

/// Every byte payload in `pairs` is a part of `s` between `from` and `to`.
pub open spec fn pairs_within(pairs: Seq<(FrameView, FrameView)>, s: Seq<u8>, from: int, to: int)
    -> bool
    decreases pairs,
{
    forall|i: int|
        0 <= i < pairs.len() ==> payloads_within((#[trigger] pairs[i]).0, s, from, to)
            && payloads_within(pairs[i].1, s, from, to)
}

/// Payloads that lie in a range lie in every wider range.
pub proof fn lemma_payloads_wider(
    f: FrameView,
    s: Seq<u8>,
    from: int,
    to: int,
    lower: int,
    upper: int,
)
    requires
        payloads_within(f, s, from, to),
        lower <= from,
        to <= upper,
    ensures
        payloads_within(f, s, lower, upper),
    decreases f,
{
    if let Some(block) = f.attributes {
        assert forall|i: int| 0 <= i < block.len() implies payloads_within(
            (#[trigger] block[i]).0,
            s,
            lower,
            upper,
        ) && payloads_within(block[i].1, s, lower, upper) by {
            lemma_payloads_wider(block[i].0, s, from, to, lower, upper);
            lemma_payloads_wider(block[i].1, s, from, to, lower, upper);
        }
    }
    match f.body {
        Body::SimpleString(data) => lemma_within_wider(s, data, from, to, lower, upper),
        Body::SimpleError(data) => lemma_within_wider(s, data, from, to, lower, upper),
        Body::Double(data) => lemma_within_wider(s, data, from, to, lower, upper),
        Body::BulkString(data) => lemma_within_wider(s, data, from, to, lower, upper),
        Body::BulkError(data) => lemma_within_wider(s, data, from, to, lower, upper),
        Body::BigNumber(data) => lemma_within_wider(s, data, from, to, lower, upper),
        Body::VerbatimString(format, data) => {
            lemma_within_wider(s, format, from, to, lower, upper);
            lemma_within_wider(s, data, from, to, lower, upper);
        },
        Body::Array(items) => lemma_all_wider(items, s, from, to, lower, upper),
        Body::SetFrame(items) => lemma_all_wider(items, s, from, to, lower, upper),
        Body::Push(items) => lemma_all_wider(items, s, from, to, lower, upper),
        Body::MapFrame(pairs) => {
            assert forall|i: int| 0 <= i < pairs.len() implies payloads_within(
                (#[trigger] pairs[i]).0,
                s,
                lower,
                upper,
            ) && payloads_within(pairs[i].1, s, lower, upper) by {
                lemma_payloads_wider(pairs[i].0, s, from, to, lower, upper);
                lemma_payloads_wider(pairs[i].1, s, from, to, lower, upper);
            }
        },
        _ => {},
    }
}

/// Payloads of items that lie in a range lie in every wider range.
pub proof fn lemma_all_wider(
    items: Seq<FrameView>,
    s: Seq<u8>,
    from: int,
    to: int,
    lower: int,
    upper: int,
)
    requires
        all_within(items, s, from, to),
        lower <= from,
        to <= upper,
    ensures
        all_within(items, s, lower, upper),
    decreases items,
{
    assert forall|i: int| 0 <= i < items.len() implies payloads_within(
        #[trigger] items[i],
        s,
        lower,
        upper,
    ) by {
        lemma_payloads_wider(items[i], s, from, to, lower, upper);
    }
}

/// The entries that items come to hold no payload that the items do not.
pub proof fn lemma_entries_within(items: Seq<FrameView>, s: Seq<u8>, from: int, to: int)
    requires
        all_within(items, s, from, to),
    ensures
        pairs_within(entries(items), s, from, to),
    decreases items.len(),
{
    if items.len() < 2 {
    } else if items.len() % 2 == 1 {
        let shorter = items.drop_last();
        assert forall|i: int| 0 <= i < shorter.len() implies payloads_within(
            #[trigger] shorter[i],
            s,
            from,
            to,
        ) by {
            assert(shorter[i] == items[i]);
        }
        lemma_entries_within(shorter, s, from, to);
    } else {
        let shorter = items.take(items.len() - 2);
        assert forall|i: int| 0 <= i < shorter.len() implies payloads_within(
            #[trigger] shorter[i],
            s,
            from,
            to,
        ) by {
            assert(shorter[i] == items[i]);
        }
        lemma_entries_within(shorter, s, from, to);
        let key = items[items.len() - 2];
        let value = items[items.len() - 1];
        assert(payloads_within(key, s, from, to) && payloads_within(value, s, from, to));
        lemma_key_index(entries(shorter), key);
    }
}

/// A leaf holds no payload outside its token's range and its attributes.
pub proof fn lemma_leaf_payloads(
    s: Seq<u8>,
    t: Tag,
    attributes: Option<Seq<(FrameView, FrameView)>>,
    lower: int,
    upper: int,
)
    requires
        lower <= t.start_position <= t.end_position <= upper,
        t.end_position <= s.len(),
        attributes matches Some(block) ==> pairs_within(block, s, lower, upper),
    ensures
        leaf(s, t, attributes) matches Ok(f) ==> payloads_within(f, s, lower, upper),
{
    if let Ok(f) = leaf(s, t, attributes) {
        let text = s.subrange(t.start_position as int, t.end_position as int);
        if let Body::VerbatimString(format, data) = f.body {
            assert(format =~= s.subrange(t.start_position as int, t.start_position + 3));
            assert(data =~= s.subrange(t.start_position + 4, t.end_position as int));
        }
    }
}

/// No copy, at any depth: every byte payload in the frame read at `pos`,
/// and in its attributes, is a part of the input, and lies among the bytes
/// that the frame takes.
pub proof fn lemma_payloads_in_input(s: Seq<u8>, pos: int, inside: bool)
    requires
        0 <= pos,
        s.len() <= usize::MAX,
    ensures
        frame_at(s, pos, inside) matches Some(Ok((f, next))) ==> payloads_within(f, s, pos, next),
    decreases s.len() - pos, 0int,
{
    lemma_token_bounds(s, pos);
    if let Some(Ok((t, next))) = token_at(s, pos) {
        match opens(t.tag_type) {
            None => {
                lemma_leaf_payloads(s, t, None, pos, next);
            },
            Some((group, count)) => {
                lemma_group_payloads(s, next, group, count, None, pos);
            },
        }
    }
}

/// Every byte payload in the frame that a group comes to is a part of the
/// input between `lower` and the group's end, where the payloads of the
/// attributes that it gets lie between `lower` and `pos`.
pub proof fn lemma_group_payloads(
    s: Seq<u8>,
    pos: int,
    group: Group,
    count: nat,
    attributes: Option<Seq<(FrameView, FrameView)>>,
    lower: int,
)
    requires
        0 <= lower <= pos <= s.len() <= usize::MAX,
        attributes matches Some(block) ==> pairs_within(block, s, lower, pos),
    ensures
        group_at(s, pos, group, Seq::empty(), count, attributes) matches Ok((f, end))
            ==> payloads_within(f, s, lower, end),
    decreases s.len() - pos, 2 + count,
{
    lemma_items_payloads(s, pos, group, 0, count);
    lemma_items_bounds(s, pos, group, 0, count);
    if let Ok((rest, end)) = items_at(s, pos, group, 0, count) {
        let items = Seq::<FrameView>::empty() + rest;
        assert(items =~= rest);
        lemma_all_wider(items, s, pos, end, lower, end);
        match group {
            Group::Attributes => {
                lemma_entries_within(items, s, lower, end);
                lemma_attached_payloads(s, end, entries(items), lower);
            },
            Group::MapFrame => {
                lemma_entries_within(items, s, lower, end);
            },
            Group::SetFrame => {
                lemma_distinct(items);
                let kept = distinct(items);
                assert forall|i: int| 0 <= i < kept.len() implies payloads_within(
                    #[trigger] kept[i],
                    s,
                    lower,
                    end,
                ) by {
                    let x = kept[i];
                    assert(items.contains(x));
                }
            },
            _ => {},
        }
        if let Some(block) = attributes {
            if let Ok((f, _)) = group_at(s, pos, group, Seq::empty(), count, attributes) {
                assert forall|i: int| 0 <= i < block.len() implies payloads_within(
                    (#[trigger] block[i]).0,
                    s,
                    lower,
                    end,
                ) && payloads_within(block[i].1, s, lower, end) by {
                    lemma_payloads_wider(block[i].0, s, lower, pos, lower, end);
                    lemma_payloads_wider(block[i].1, s, lower, pos, lower, end);
                }
            }
        }
    }
}

/// Every byte payload in the members of a group is a part of the input,
/// and lies among the bytes that they take.
pub proof fn lemma_items_payloads(s: Seq<u8>, pos: int, group: Group, index: int, count: nat)
    requires
        0 <= pos <= s.len() <= usize::MAX,
    ensures
        items_at(s, pos, group, index, count) matches Ok((items, end)) ==> all_within(
            items,
            s,
            pos,
            end,
        ),
    decreases s.len() - pos, 1 + count,
{
    if count > 0 {
        lemma_frame_bounds(s, pos, group is Attributes);
        lemma_payloads_in_input(s, pos, group is Attributes);
        if let Some(Ok((first, next))) = frame_at(s, pos, group is Attributes) {
            lemma_items_payloads(s, next, group, index + 1, (count - 1) as nat);
            lemma_items_bounds(s, next, group, index + 1, (count - 1) as nat);
            if let Ok((items, end)) = items_at(s, pos, group, index, count) {
                let rest = items_at(s, next, group, index + 1, (count - 1) as nat).unwrap().0;
                assert forall|i: int| 0 <= i < items.len() implies payloads_within(
                    #[trigger] items[i],
                    s,
                    pos,
                    end,
                ) by {
                    if i == 0 {
                        lemma_payloads_wider(first, s, pos, next, pos, end);
                    } else {
                        assert(items[i] == rest[i - 1]);
                        lemma_payloads_wider(rest[i - 1], s, next, end, pos, end);
                    }
                }
            }
        }
    }
}

/// Every byte payload in the frame after an attribute block is a part of
/// the input between `lower` and the frame's end, where the payloads of the
/// block's entries lie between `lower` and `pos`.
pub proof fn lemma_attached_payloads(
    s: Seq<u8>,
    pos: int,
    attributes: Seq<(FrameView, FrameView)>,
    lower: int,
)
    requires
        0 <= lower <= pos <= s.len() <= usize::MAX,
        pairs_within(attributes, s, lower, pos),
    ensures
        attached_at(s, pos, attributes) matches Ok((f, end)) ==> payloads_within(f, s, lower, end),
    decreases s.len() - pos, 0int,
{
    lemma_token_bounds(s, pos);
    if let Some(Ok((t, next))) = token_at(s, pos) {
        assert forall|i: int| 0 <= i < attributes.len() implies payloads_within(
            (#[trigger] attributes[i]).0,
            s,
            lower,
            next,
        ) && payloads_within(attributes[i].1, s, lower, next) by {
            lemma_payloads_wider(attributes[i].0, s, lower, pos, lower, next);
            lemma_payloads_wider(attributes[i].1, s, lower, pos, lower, next);
        }
        match t.tag_type {
            TagType::Array(count) => {
                lemma_group_payloads(s, next, Group::Array, count as nat, Some(attributes), lower);
            },
            _ => {
                lemma_leaf_payloads(s, t, Some(attributes), lower, next);
            },
        }
    }
}

/// Reading stops for want of input: there is no frame yet, and no error
/// other than that the input ended.
pub open spec fn incomplete(outcome: Option<Result<(FrameView, int), Error>>) -> bool {
    outcome is None || outcome == Some(
        Err::<(FrameView, int), Error>(Error::NotComplete),
    )
}

/// A token that is read from the part on which two inputs agree is read
/// from both.
pub proof fn lemma_token_agrees(a: Seq<u8>, b: Seq<u8>, pos: int, n: int)
    requires
        0 <= pos,
        n <= a.len() <= usize::MAX,
        n <= b.len(),
        a.take(n) == b.take(n),
        token_at(a, pos) matches Some(Ok((_, next))) && next <= n,
    ensures
        token_at(b, pos) == token_at(a, pos),
{
    lemma_line_end(a, pos);
    let end = line_end(a, pos).unwrap();
    lemma_line_end(a, end + 2);
    lemma_token_bounds(a, pos);
    lemma_line_end_agrees(a, b, pos, n);
    lemma_subrange_agrees(a, b, pos + 1, end, n);
    assert(a[pos] == a.take(n)[pos]);
    assert(b[pos] == b.take(n)[pos]);
    let (t, next) = token_at(a, pos).unwrap().unwrap();
    if t.tag_type is BulkString || t.tag_type is BulkError || t.tag_type is VerbatimString {
        lemma_line_end_agrees(a, b, end + 2, n);
    }
}

/// A leaf whose token lies in the part on which two inputs agree is the
/// same leaf in both.
pub proof fn lemma_leaf_agrees(
    a: Seq<u8>,
    b: Seq<u8>,
    t: Tag,
    attributes: Option<Seq<(FrameView, FrameView)>>,
    n: int,
)
    requires
        t.start_position <= t.end_position <= n,
        n <= a.len(),
        n <= b.len(),
        a.take(n) == b.take(n),
    ensures
        leaf(b, t, attributes) == leaf(a, t, attributes),
{
    lemma_subrange_agrees(a, b, t.start_position as int, t.end_position as int, n);
}

/// A frame that is read from the part on which two inputs agree is read
/// from both.
pub proof fn lemma_frame_agrees(a: Seq<u8>, b: Seq<u8>, pos: int, inside: bool, n: int)
    requires
        0 <= pos,
        n <= a.len() <= usize::MAX,
        n <= b.len(),
        a.take(n) == b.take(n),
        frame_at(a, pos, inside) matches Some(Ok((_, next))) && next <= n,
    ensures
        frame_at(b, pos, inside) == frame_at(a, pos, inside),
    decreases a.len() - pos, 0int,
{
    lemma_token_bounds(a, pos);
    let (t, next) = token_at(a, pos).unwrap().unwrap();
    match opens(t.tag_type) {
        None => {
            lemma_token_agrees(a, b, pos, n);
            lemma_leaf_agrees(a, b, t, None, n);
        },
        Some((group, count)) => {
            lemma_group_bounds(a, next, group, Seq::empty(), count, None);
            lemma_token_agrees(a, b, pos, n);
            lemma_group_agrees(a, b, next, group, Seq::empty(), count, None, n);
        },
    }
}

/// A group that is read from the part on which two inputs agree is read
/// from both.
pub proof fn lemma_group_agrees(
    a: Seq<u8>,
    b: Seq<u8>,
    pos: int,
    group: Group,
    items: Seq<FrameView>,
    count: nat,
    attributes: Option<Seq<(FrameView, FrameView)>>,
    n: int,
)
    requires
        0 <= pos <= a.len(),
        n <= a.len() <= usize::MAX,
        n <= b.len(),
        a.take(n) == b.take(n),
        group_at(a, pos, group, items, count, attributes) matches Ok((_, end)) && end <= n,
    ensures
        group_at(b, pos, group, items, count, attributes) == group_at(
            a,
            pos,
            group,
            items,
            count,
            attributes,
        ),
    decreases a.len() - pos, 2 + count,
{
    lemma_items_bounds(a, pos, group, items.len() as int, count);
    let (rest, end) = items_at(a, pos, group, items.len() as int, count).unwrap();
    if group is Attributes {
        lemma_attached_bounds(a, end, entries(items + rest));
        lemma_items_agree(a, b, pos, group, items.len() as int, count, n);
        lemma_attached_agrees(a, b, end, entries(items + rest), n);
    } else {
        lemma_items_agree(a, b, pos, group, items.len() as int, count, n);
    }
}

/// Members that are read from the part on which two inputs agree are read
/// from both.
pub proof fn lemma_items_agree(
    a: Seq<u8>,
    b: Seq<u8>,
    pos: int,
    group: Group,
    index: int,
    count: nat,
    n: int,
)
    requires
        0 <= pos <= a.len(),
        n <= a.len() <= usize::MAX,
        n <= b.len(),
        a.take(n) == b.take(n),
        items_at(a, pos, group, index, count) matches Ok((_, end)) && end <= n,
    ensures
        items_at(b, pos, group, index, count) == items_at(a, pos, group, index, count),
    decreases a.len() - pos, 1 + count,
{
    if count > 0 {
        lemma_frame_bounds(a, pos, group is Attributes);
        let next = frame_at(a, pos, group is Attributes).unwrap().unwrap().1;
        lemma_items_bounds(a, next, group, index + 1, (count - 1) as nat);
        lemma_frame_agrees(a, b, pos, group is Attributes, n);
        lemma_items_agree(a, b, next, group, index + 1, (count - 1) as nat, n);
    }
}

/// The frame after an attribute block that is read from the part on which
/// two inputs agree is read from both.
pub proof fn lemma_attached_agrees(
    a: Seq<u8>,
    b: Seq<u8>,
    pos: int,
    attributes: Seq<(FrameView, FrameView)>,
    n: int,
)
    requires
        0 <= pos <= a.len(),
        n <= a.len() <= usize::MAX,
        n <= b.len(),
        a.take(n) == b.take(n),
        attached_at(a, pos, attributes) matches Ok((_, end)) && end <= n,
    ensures
        attached_at(b, pos, attributes) == attached_at(a, pos, attributes),
    decreases a.len() - pos, 0int,
{
    lemma_token_bounds(a, pos);
    let (t, next) = token_at(a, pos).unwrap().unwrap();
    match t.tag_type {
        TagType::Array(count) => {
            lemma_group_bounds(a, next, Group::Array, Seq::empty(), count as nat, Some(attributes));
            lemma_token_agrees(a, b, pos, n);
            lemma_group_agrees(
                a,
                b,
                next,
                Group::Array,
                Seq::empty(),
                count as nat,
                Some(attributes),
                n,
            );
        },
        _ => {
            lemma_token_agrees(a, b, pos, n);
            lemma_leaf_agrees(a, b, t, Some(attributes), n);
        },
    }
}

/// Incremental safety: where the first `k` bytes of a buffer do not give a
/// frame for want of input, and `longer` is the least greater length whose
/// bytes do not end so, those bytes give an error, or a frame that takes all
/// of them.
pub proof fn lemma_incremental(buf: Seq<u8>, k: int, longer: int)
    requires
        0 <= k < longer <= buf.len() <= usize::MAX,
        incomplete(frame_at(buf.take(k), 0, false)),
        !incomplete(frame_at(buf.take(longer), 0, false)),
        forall|j: int| k < j < longer ==> incomplete(#[trigger] frame_at(buf.take(j), 0, false)),
    ensures
        match frame_at(buf.take(longer), 0, false) {
            Some(Ok((_, taken))) => taken == longer,
            Some(Err(e)) => e != Error::NotComplete,
            None => false,
        },
{
    if let Some(Ok((f, taken))) = frame_at(buf.take(longer), 0, false) {
        lemma_frame_bounds(buf.take(longer), 0, false);
        if taken < longer {
            let shorter = if taken <= k {
                k
            } else {
                taken
            };
            assert(buf.take(longer).take(taken) =~= buf.take(shorter).take(taken));
            lemma_frame_agrees(buf.take(longer), buf.take(shorter), 0, false, taken);
        }
    }
}

} // verus!
