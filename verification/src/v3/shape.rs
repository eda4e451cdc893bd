
use crate::v3::frame::{Body, FrameView};
use crate::v3::grammar::{
    attached_at, frame_at, group_at, is_aggregate, items_at, leaf, opens, refusal, Group,
};
use crate::v3::lexer::{lemma_token_bounds, token_at};
use crate::v3::members::{distinct, entries, insert, key_index, lemma_key_index};
use crate::v3::tag::{Tag, TagType};
use vstd::prelude::*;

verus! {

/// Nothing occurs twice in `s`.
pub open spec fn no_repeats(s: Seq<FrameView>) -> bool {
    forall|i: int, j: int| 0 <= i < j < s.len() ==> s[i] != s[j]
}

/// The keys of `entries`, in order.
pub open spec fn keys(entries: Seq<(FrameView, FrameView)>) -> Seq<FrameView> {
    Seq::new(entries.len(), |i: int| entries[i].0)
}

/// A frame as the decoder hands it out: in every map and every attribute
/// block in it no key occurs twice and no key is a map, a set or a push; in
/// every set in it no item occurs twice and no item is a map, a set or a
/// push.
pub open spec fn well_formed(f: FrameView) -> bool
    decreases f,
{
    &&& match f.attributes {
        Some(block) => entries_well_formed(block),
        None => true,
    }
    &&& match f.body {
        Body::Array(items) => all_well_formed(items),
        Body::Push(items) => all_well_formed(items),
        Body::SetFrame(items) => all_well_formed(items) && no_repeats(items) && forall|i: int|
            0 <= i < items.len() ==> !is_aggregate(#[trigger] items[i]),
        Body::MapFrame(pairs) => entries_well_formed(pairs),
        _ => true,
    }
}

/// Each of `items` is well formed.
pub open spec fn all_well_formed(items: Seq<FrameView>) -> bool
    decreases items,
{
    forall|i: int| 0 <= i < items.len() ==> well_formed(#[trigger] items[i])
}

/// Entries as the decoder hands them out: no key occurs twice, no key is a
/// map, a set or a push, and every key and value is well formed.
pub open spec fn entries_well_formed(pairs: Seq<(FrameView, FrameView)>) -> bool
    decreases pairs,
{
    &&& no_repeats(keys(pairs))
    &&& forall|i: int| 0 <= i < pairs.len() ==> !is_aggregate(#[trigger] pairs[i].0)
    &&& forall|i: int|
        0 <= i < pairs.len() ==> well_formed((#[trigger] pairs[i]).0) && well_formed(pairs[i].1)
}

/// Where `key_index` finds nothing, no entry has the key.
pub proof fn lemma_key_index_none(pairs: Seq<(FrameView, FrameView)>, key: FrameView)
    ensures
        key_index(pairs, key) is None ==> forall|i: int|
            0 <= i < pairs.len() ==> (#[trigger] pairs[i]).0 != key,
    decreases pairs.len(),
{
    if pairs.len() > 0 {
        lemma_key_index_none(pairs.drop_last(), key);
        if key_index(pairs, key) is None {
            assert forall|i: int| 0 <= i < pairs.len() implies (#[trigger] pairs[i]).0 != key by {
                if i < pairs.len() - 1 {
                    assert(pairs.drop_last()[i] == pairs[i]);
                }
            }
        }
    }
}

/// In what `distinct` keeps nothing occurs twice, and everything comes
/// from the items.
pub proof fn lemma_distinct(items: Seq<FrameView>)
    ensures
        no_repeats(distinct(items)),
        forall|i: int|
            0 <= i < distinct(items).len() ==> items.contains(#[trigger] distinct(items)[i]),
    decreases items.len(),
{
    if items.len() > 0 {
        lemma_distinct(items.drop_last());
        let before = distinct(items.drop_last());
        assert forall|i: int| 0 <= i < distinct(items).len() implies items.contains(
            #[trigger] distinct(items)[i],
        ) by {
            if i < before.len() {
                let x = before[i];
                assert(items.drop_last().contains(x));
                let j = choose|j: int|
                    0 <= j < items.drop_last().len() && items.drop_last()[j] == x;
                assert(items[j] == x);
            } else {
                assert(items[items.len() - 1] == items.last());
            }
        }
    }
}

/// The entries that well formed items come to are well formed, where no
/// item in the place of a key is a map, a set or a push.
pub proof fn lemma_entries(items: Seq<FrameView>)
    requires
        all_well_formed(items),
        forall|i: int| 0 <= i < items.len() && i % 2 == 0 ==> !is_aggregate(#[trigger] items[i]),
    ensures
        entries_well_formed(entries(items)),
    decreases items.len(),
{
    if items.len() < 2 {
        assert(keys(entries(items)) =~= Seq::empty());
    } else if items.len() % 2 == 1 {
        let shorter = items.drop_last();
        assert forall|i: int| 0 <= i < shorter.len() implies well_formed(
            #[trigger] shorter[i],
        ) by {
            assert(shorter[i] == items[i]);
        }
        assert forall|i: int| 0 <= i < shorter.len() && i % 2 == 0 implies !is_aggregate(
            #[trigger] shorter[i],
        ) by {
            assert(shorter[i] == items[i]);
        }
        lemma_entries(shorter);
    } else {
        let shorter = items.take(items.len() - 2);
        assert forall|i: int| 0 <= i < shorter.len() implies well_formed(
            #[trigger] shorter[i],
        ) by {
            assert(shorter[i] == items[i]);
        }
        assert forall|i: int| 0 <= i < shorter.len() && i % 2 == 0 implies !is_aggregate(
            #[trigger] shorter[i],
        ) by {
            assert(shorter[i] == items[i]);
        }
        lemma_entries(shorter);
        let before = entries(shorter);
        let key = items[items.len() - 2];
        let value = items[items.len() - 1];
        assert(well_formed(key) && well_formed(value) && !is_aggregate(key));
        lemma_key_index(before, key);
        lemma_key_index_none(before, key);
        let after = insert(before, key, value);
        match key_index(before, key) {
            Some(at) => {
                assert(keys(after) =~= keys(before));
            },
            None => {
                assert(keys(after) =~= keys(before).push(key));
                assert forall|i: int, j: int| 0 <= i < j < keys(after).len() implies keys(
                    after,
                )[i] != keys(after)[j] by {
                    if j < before.len() {
                        assert(keys(before)[i] != keys(before)[j]);
                    } else {
                        assert(before[i].0 != key);
                    }
                }
            },
        }
    }
}

/// A leaf with well formed attributes is well formed.
pub proof fn lemma_leaf_well_formed(
    s: Seq<u8>,
    t: Tag,
    attributes: Option<Seq<(FrameView, FrameView)>>,
)
    requires
        attributes matches Some(block) ==> entries_well_formed(block),
    ensures
        leaf(s, t, attributes) matches Ok(f) ==> well_formed(f),
{
}

/// What the decoder hands out is well formed: the frame that is read at
/// `pos` holds no map or attribute block in which a key occurs twice or is a
/// map, a set or a push, and no set in which an item occurs twice or is one
/// of these.
pub proof fn lemma_frame_well_formed(s: Seq<u8>, pos: int, inside: bool)
    requires
        0 <= pos,
        s.len() <= usize::MAX,
    ensures
        frame_at(s, pos, inside) matches Some(Ok((f, _))) ==> well_formed(f),
    decreases s.len() - pos, 0int,
{
    lemma_token_bounds(s, pos);
    if let Some(Ok((t, next))) = token_at(s, pos) {
        match opens(t.tag_type) {
            None => {
                lemma_leaf_well_formed(s, t, None);
            },
            Some((group, count)) => {
                lemma_group_well_formed(s, next, group, count, None);
            },
        }
    }
}

/// The frame that a group comes to is well formed, where the attributes
/// that it gets are.
pub proof fn lemma_group_well_formed(
    s: Seq<u8>,
    pos: int,
    group: Group,
    count: nat,
    attributes: Option<Seq<(FrameView, FrameView)>>,
)
    requires
        0 <= pos <= s.len() <= usize::MAX,
        attributes matches Some(block) ==> entries_well_formed(block),
    ensures
        group_at(s, pos, group, Seq::empty(), count, attributes) matches Ok((f, _))
            ==> well_formed(f),
    decreases s.len() - pos, 2 + count,
{
    lemma_items_well_formed(s, pos, group, 0, count);
    if let Ok((rest, end)) = items_at(s, pos, group, 0, count) {
        let items = Seq::<FrameView>::empty() + rest;
        assert(items =~= rest);
        match group {
            Group::Attributes => {
                lemma_entries(items);
                if pos <= end <= s.len() {
                    lemma_attached_well_formed(s, end, entries(items));
                }
            },
            Group::MapFrame => {
                lemma_entries(items);
            },
            Group::SetFrame => {
                lemma_distinct(items);
                let kept = distinct(items);
                assert forall|i: int| 0 <= i < kept.len() implies well_formed(
                    #[trigger] kept[i],
                ) && !is_aggregate(kept[i]) by {
                    let x = kept[i];
                    assert(items.contains(x));
                    let j = choose|j: int| 0 <= j < items.len() && items[j] == x;
                    assert(refusal(group, 0 + j, items[j]) is None);
                }
            },
            _ => {},
        }
    }
}

/// The members of a group are well formed, and none is refused.
pub proof fn lemma_items_well_formed(s: Seq<u8>, pos: int, group: Group, index: int, count: nat)
    requires
        0 <= pos <= s.len() <= usize::MAX,
    ensures
        items_at(s, pos, group, index, count) matches Ok((items, _)) ==> all_well_formed(items)
            && forall|i: int|
            0 <= i < items.len() ==> refusal(group, index + i, #[trigger] items[i]) is None,
    decreases s.len() - pos, 1 + count,
{
    if count > 0 {
        lemma_frame_well_formed(s, pos, group is Attributes);
        if let Some(Ok((first, next))) = frame_at(s, pos, group is Attributes) {
            if pos < next <= s.len() {
                lemma_items_well_formed(s, next, group, index + 1, (count - 1) as nat);
                if let Ok((items, _)) = items_at(s, pos, group, index, count) {
                    let rest = items_at(s, next, group, index + 1, (count - 1) as nat).unwrap().0;
                    assert forall|i: int| 0 <= i < items.len() implies well_formed(
                        #[trigger] items[i],
                    ) && refusal(group, index + i, items[i]) is None by {
                        if i > 0 {
                            assert(items[i] == rest[i - 1]);
                            assert(refusal(group, index + 1 + (i - 1), rest[i - 1]) is None);
                        }
                    }
                }
            }
        }
    }
}

/// The frame after an attribute block is well formed, where the block's
/// entries are.
pub proof fn lemma_attached_well_formed(
    s: Seq<u8>,
    pos: int,
    attributes: Seq<(FrameView, FrameView)>,
)
    requires
        0 <= pos <= s.len() <= usize::MAX,
        entries_well_formed(attributes),
    ensures
        attached_at(s, pos, attributes) matches Ok((f, _)) ==> well_formed(f),
    decreases s.len() - pos, 0int,
{
    lemma_token_bounds(s, pos);
    if let Some(Ok((t, next))) = token_at(s, pos) {
        match t.tag_type {
            TagType::Array(count) => {
                lemma_group_well_formed(s, next, Group::Array, count as nat, Some(attributes));
            },
            _ => {
                lemma_leaf_well_formed(s, t, Some(attributes));
            },
        }
    }
}

} // verus!
