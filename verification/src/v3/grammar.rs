use crate::common::error::Error;
use crate::common::mark::{COLON, LETTER_F, LETTER_T};
use crate::common::text::parsed_i64;
use crate::v3::frame::{Body, FrameView};
use crate::v3::lexer::{lemma_token_bounds, token_at};
use crate::v3::members::{distinct, entries};
use crate::v3::tag::{Tag, TagType};
use vstd::prelude::*;

verus! {

/// What the members that follow a token are gathered into.
#[derive(Debug, PartialEq, Eq, Clone, Copy, Structural)]
pub enum Group {
    Array,
    Push,
    SetFrame,
    MapFrame,
    Attributes,
}

/// The group that a token opens and the number of frames that it is made
/// of: two for each entry of a map or of an attribute block.
pub open spec fn opens(tag_type: TagType) -> Option<(Group, nat)> {
    match tag_type {
        TagType::Array(n) => Some((Group::Array, n as nat)),
        TagType::Push(n) => Some((Group::Push, n as nat)),
        TagType::SetFrame(n) => Some((Group::SetFrame, n as nat)),
        TagType::MapFrame(n) => Some((Group::MapFrame, 2 * (n as nat))),
        TagType::Attribute(n) => Some((Group::Attributes, 2 * (n as nat))),
        _ => None,
    }
}

/// A map, a set or a push: what can be neither a key nor a set's item.
pub open spec fn is_aggregate(f: FrameView) -> bool {
    f.body is MapFrame || f.body is SetFrame || f.body is Push
}

/// Why `f` cannot be the member of a group that already has `index`
/// members, if it cannot.
pub open spec fn refusal(group: Group, index: int, f: FrameView) -> Option<Error> {
    match group {
        Group::SetFrame => if is_aggregate(f) {
            Some(Error::InvalidSet)
        } else {
            None
        },
        Group::MapFrame | Group::Attributes => if index % 2 == 0 && is_aggregate(f) {
            Some(Error::InvalidMap)
        } else {
            None
        },
        _ => None,
    }
}

/// The frame that a leaf token stands for, with `attributes` attached.
pub open spec fn leaf(s: Seq<u8>, t: Tag, attributes: Option<Seq<(FrameView, FrameView)>>)
    -> Result<FrameView, Error> {
    let text = s.subrange(t.start_position as int, t.end_position as int);
    match t.tag_type {
        TagType::SimpleString => Ok(FrameView { body: Body::SimpleString(text), attributes }),
        TagType::SimpleError => Ok(FrameView { body: Body::SimpleError(text), attributes }),
        TagType::Double => Ok(FrameView { body: Body::Double(text), attributes }),
        TagType::BigNumber => Ok(FrameView { body: Body::BigNumber(text), attributes }),
        TagType::BulkString => Ok(FrameView { body: Body::BulkString(text), attributes }),
        TagType::BulkError => Ok(FrameView { body: Body::BulkError(text), attributes }),
        TagType::Null => Ok(FrameView { body: Body::Null, attributes: None }),
        TagType::Boolean => if text.len() == 1 && text[0] == LETTER_T {
            Ok(FrameView { body: Body::Boolean(true), attributes })
        } else if text.len() == 1 && text[0] == LETTER_F {
            Ok(FrameView { body: Body::Boolean(false), attributes })
        } else {
            Err(Error::InvalidBoolean)
        },
        TagType::Integer => match parsed_i64(text) {
            Ok(n) => Ok(FrameView { body: Body::Integer(n), attributes }),
            Err(e) => Err(Error::SyntaxLen(e)),
        },
        TagType::VerbatimString => if text.len() >= 4 && text[3] == COLON {
            Ok(
                FrameView {
                    body: Body::VerbatimString(
                        text.subrange(0, 3),
                        text.subrange(4, text.len() as int),
                    ),
                    attributes,
                },
            )
        } else {
            Err(Error::Unknown)
        },
        _ => Err(Error::Unknown),
    }
}

/// The frame that the members of a group make.
pub open spec fn assemble(
    group: Group,
    items: Seq<FrameView>,
    attributes: Option<Seq<(FrameView, FrameView)>>,
) -> FrameView {
    match group {
        Group::Array => FrameView { body: Body::Array(items), attributes },
        Group::Push => FrameView { body: Body::Push(items), attributes: None },
        Group::SetFrame => FrameView { body: Body::SetFrame(distinct(items)), attributes },
        Group::MapFrame => FrameView { body: Body::MapFrame(entries(items)), attributes },
        Group::Attributes => FrameView { body: Body::Null, attributes: None },
    }
}

/// The frame that starts at `pos` with the place after it: `None` where the
/// input ends before the frame's first token does, an error where the frame
/// is malformed or the input ends inside it. `inside` says that the frame is
/// an entry of an attribute block, where no attribute block may stand.
pub open spec fn frame_at(s: Seq<u8>, pos: int, inside: bool) -> Option<
    Result<(FrameView, int), Error>,
>
    decreases s.len() - pos, 0int,
{
    match token_at(s, pos) {
        None => None,
        Some(Err(e)) => Some(Err(e)),
        Some(Ok((t, next))) => if !(pos < next <= s.len()) {
            None
        } else if t.tag_type is Attribute && inside {
            Some(Err(Error::Unknown))
        } else {
            match opens(t.tag_type) {
                None => match leaf(s, t, None) {
                    Ok(f) => Some(Ok((f, next))),
                    Err(e) => Some(Err(e)),
                },
                Some((group, count)) => Some(group_at(s, next, group, Seq::empty(), count, None)),
            }
        },
    }
}

/// The frame that a group comes to of which `items` are read and `count`
/// more members start at `pos`. An attribute block comes to the frame that
/// follows it, with the block's entries as that frame's attributes.
pub open spec fn group_at(
    s: Seq<u8>,
    pos: int,
    group: Group,
    items: Seq<FrameView>,
    count: nat,
    attributes: Option<Seq<(FrameView, FrameView)>>,
) -> Result<(FrameView, int), Error>
    decreases s.len() - pos, 2 + count,
{
    match items_at(s, pos, group, items.len() as int, count) {
        Err(e) => Err(e),
        Ok((rest, end)) => if group is Attributes {
            if pos <= end <= s.len() {
                attached_at(s, end, entries(items + rest))
            } else {
                Err(Error::NotComplete)
            }
        } else {
            Ok((assemble(group, items + rest, attributes), end))
        },
    }
}

/// The `count` members of a group that start at `pos`, where the group has
/// `index` members already, with the place after the last.
pub open spec fn items_at(s: Seq<u8>, pos: int, group: Group, index: int, count: nat) -> Result<
    (Seq<FrameView>, int),
    Error,
>
    decreases s.len() - pos, 1 + count,
{
    if count == 0 {
        Ok((Seq::empty(), pos))
    } else {
        match frame_at(s, pos, group is Attributes) {
            None => Err(Error::NotComplete),
            Some(Err(e)) => Err(e),
            Some(Ok((first, next))) => if !(pos < next <= s.len()) {
                Err(Error::NotComplete)
            } else {
                match refusal(group, index, first) {
                    Some(e) => Err(e),
                    None => match items_at(s, next, group, index + 1, (count - 1) as nat) {
                        Err(e) => Err(e),
                        Ok((rest, end)) => Ok((seq![first] + rest, end)),
                    },
                }
            },
        }
    }
}

/// The frame that follows an attribute block at `pos`, with `attributes`
/// attached: a leaf other than a null, or an array.
pub open spec fn attached_at(s: Seq<u8>, pos: int, attributes: Seq<(FrameView, FrameView)>)
    -> Result<(FrameView, int), Error>
    decreases s.len() - pos, 0int,
{
    match token_at(s, pos) {
        None => Err(Error::NotComplete),
        Some(Err(e)) => Err(e),
        Some(Ok((t, next))) => if !(pos < next <= s.len()) {
            Err(Error::NotComplete)
        } else {
            match t.tag_type {
                TagType::Array(n) => group_at(
                    s,
                    next,
                    Group::Array,
                    Seq::empty(),
                    n as nat,
                    Some(attributes),
                ),
                TagType::Null => Err(Error::Unknown),
                TagType::MapFrame(_) => Err(Error::Unknown),
                TagType::SetFrame(_) => Err(Error::Unknown),
                TagType::Push(_) => Err(Error::Unknown),
                TagType::Attribute(_) => Err(Error::Unknown),
                _ => match leaf(s, t, Some(attributes)) {
                    Ok(f) => Ok((f, next)),
                    Err(e) => Err(e),
                },
            }
        },
    }
}

/// A leaf is no map, set or push.
pub proof fn lemma_leaf_plain(s: Seq<u8>, t: Tag, attributes: Option<Seq<(FrameView, FrameView)>>)
    ensures
        leaf(s, t, attributes) matches Ok(f) ==> !is_aggregate(f),
{
}

/// A group that is being read: its kind, the members read so far, the
/// number still to come, and the attributes that the finished frame gets.
pub struct LevelView {
    pub group: Group,
    pub items: Seq<FrameView>,
    pub pending: nat,
    pub attributes: Option<Seq<(FrameView, FrameView)>>,
}

/// What reading ends in, from `pos` on, where `inner` is the innermost
/// group that is open and each group that gets complete is the next member
/// of the one above it in `outer`.
pub open spec fn resume(s: Seq<u8>, outer: Seq<LevelView>, inner: LevelView, pos: int) -> Result<
    (FrameView, int),
    Error,
>
    decreases outer.len(), 1int,
{
    match group_at(s, pos, inner.group, inner.items, inner.pending, inner.attributes) {
        Err(e) => Err(e),
        Ok((f, end)) => deliver(s, outer, f, end),
    }
}

/// What reading ends in once the frame `f` is complete at `end`: `f` itself
/// where no group is open, and otherwise what it ends in with `f` as the
/// next member of the innermost group of `outer`.
pub open spec fn deliver(s: Seq<u8>, outer: Seq<LevelView>, f: FrameView, end: int) -> Result<
    (FrameView, int),
    Error,
>
    decreases outer.len(), 0int,
{
    if outer.len() == 0 {
        Ok((f, end))
    } else {
        let parent = outer.last();
        match refusal(parent.group, parent.items.len() as int, f) {
            Some(e) => Err(e),
            None => if parent.pending == 0 {
                Err(Error::NotComplete)
            } else {
                resume(
                    s,
                    outer.drop_last(),
                    LevelView {
                        items: parent.items.push(f),
                        pending: (parent.pending - 1) as nat,
                        ..parent
                    },
                    end,
                )
            },
        }
    }
}

/// Reading the next member of the innermost group at `pos` and going on
/// after it comes to the same as going on from `pos`.
pub proof fn lemma_resume_step(s: Seq<u8>, outer: Seq<LevelView>, inner: LevelView, pos: int)
    requires
        0 <= pos,
        s.len() <= usize::MAX,
        inner.pending > 0,
    ensures
        match frame_at(s, pos, inner.group is Attributes) {
            None => resume(s, outer, inner, pos) == Err::<(FrameView, int), Error>(
                Error::NotComplete,
            ),
            Some(Err(e)) => resume(s, outer, inner, pos) == Err::<(FrameView, int), Error>(e),
            Some(Ok((first, next))) => pos < next <= s.len() && resume(s, outer, inner, pos)
                == deliver(s, outer.push(inner), first, next),
        },
{
    lemma_frame_bounds(s, pos, inner.group is Attributes);
    if let Some(Ok((first, next))) = frame_at(s, pos, inner.group is Attributes) {
        assert(outer.push(inner).drop_last() =~= outer);
        assert(outer.push(inner).last() == inner);
        if refusal(inner.group, inner.items.len() as int, first) is None {
            let after = LevelView {
                items: inner.items.push(first),
                pending: (inner.pending - 1) as nat,
                ..inner
            };
            if let Ok((rest, end)) = items_at(
                s,
                next,
                inner.group,
                inner.items.len() as int + 1,
                (inner.pending - 1) as nat,
            ) {
                assert(inner.items + (seq![first] + rest) =~= after.items + rest);
                lemma_items_bounds(
                    s,
                    next,
                    inner.group,
                    inner.items.len() as int + 1,
                    (inner.pending - 1) as nat,
                );
            }
        }
    }
}

/// A frame ends after the place where it starts, and inside the input.
pub proof fn lemma_frame_bounds(s: Seq<u8>, pos: int, inside: bool)
    requires
        0 <= pos,
        s.len() <= usize::MAX,
    ensures
        frame_at(s, pos, inside) matches Some(Ok((_, next))) ==> pos + 2 <= next <= s.len(),
    decreases s.len() - pos, 0int,
{
    lemma_token_bounds(s, pos);
    if let Some(Ok((t, next))) = token_at(s, pos) {
        if let Some((group, count)) = opens(t.tag_type) {
            lemma_group_bounds(s, next, group, Seq::empty(), count, None);
        }
    }
}

/// A group ends at or after the place from which it is read, and inside
/// the input.
pub proof fn lemma_group_bounds(
    s: Seq<u8>,
    pos: int,
    group: Group,
    items: Seq<FrameView>,
    count: nat,
    attributes: Option<Seq<(FrameView, FrameView)>>,
)
    requires
        0 <= pos <= s.len() <= usize::MAX,
    ensures
        group_at(s, pos, group, items, count, attributes) matches Ok((_, end)) ==> pos <= end
            <= s.len(),
    decreases s.len() - pos, 2 + count,
{
    lemma_items_bounds(s, pos, group, items.len() as int, count);
    if let Ok((rest, end)) = items_at(s, pos, group, items.len() as int, count) {
        if group is Attributes {
            lemma_attached_bounds(s, end, entries(items + rest));
        }
    }
}

/// A run of members ends at or after the place where it starts, and inside
/// the input.
pub proof fn lemma_items_bounds(s: Seq<u8>, pos: int, group: Group, index: int, count: nat)
    requires
        0 <= pos <= s.len() <= usize::MAX,
    ensures
        items_at(s, pos, group, index, count) matches Ok((items, end)) ==> pos <= end <= s.len()
            && items.len() == count,
    decreases s.len() - pos, 1 + count,
{
    if count > 0 {
        lemma_frame_bounds(s, pos, group is Attributes);
        if let Some(Ok((_, next))) = frame_at(s, pos, group is Attributes) {
            lemma_items_bounds(s, next, group, index + 1, (count - 1) as nat);
        }
    }
}

/// The frame after an attribute block ends after the place where it
/// starts, and inside the input.
pub proof fn lemma_attached_bounds(s: Seq<u8>, pos: int, attributes: Seq<(FrameView, FrameView)>)
    requires
        0 <= pos <= s.len() <= usize::MAX,
    ensures
        attached_at(s, pos, attributes) matches Ok((_, end)) ==> pos + 2 <= end <= s.len(),
    decreases s.len() - pos, 0int,
{
    lemma_token_bounds(s, pos);
    if let Some(Ok((t, next))) = token_at(s, pos) {
        if let TagType::Array(n) = t.tag_type {
            lemma_group_bounds(s, next, Group::Array, Seq::empty(), n as nat, Some(attributes));
        }
    }
}

} // verus!
