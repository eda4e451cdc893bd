use crate::v3::frame::{lemma_view, option_views, pair_views, views, Frame};
use vstd::prelude::*;

verus! {

broadcast use vstd::std_specs::vec::group_vec_axioms;

/// Whether two byte strings hold the same bytes.
pub fn same_bytes(a: &[u8], b: &[u8]) -> (r: bool)
    ensures
        r == (a@ == b@),
{
    if a.len() != b.len() {
        return false;
    }
    let mut i: usize = 0;
    while i < a.len()
        invariant
            0 <= i <= a@.len(),
            a@.len() == b@.len(),
            forall|j: int| 0 <= j < i ==> a@[j] == b@[j],
        decreases a.len() - i,
    {
        if a[i] != b[i] {
            return false;
        }
        i += 1;
    }
    assert(a@ =~= b@);
    true
}

fn same_items(a: &Vec<Frame>, b: &Vec<Frame>) -> (r: bool)
    ensures
        r == (views(a@) == views(b@)),
    decreases a,
{
    if a.len() != b.len() {
        assert(views(a@).len() != views(b@).len());
        return false;
    }
    let mut i: usize = 0;
    while i < a.len()
        invariant
            0 <= i <= a@.len(),
            a@.len() == b@.len(),
            forall|j: int| 0 <= j < i ==> a@[j]@ == b@[j]@,
        decreases a.len() - i,
    {
        assert(decreases_to!(a => a[i as int]));
        if !a[i].same(&b[i]) {
            assert(views(a@)[i as int] != views(b@)[i as int]);
            return false;
        }
        i += 1;
    }
    assert(views(a@) =~= views(b@));
    true
}

fn same_pairs(a: &Vec<(Frame, Frame)>, b: &Vec<(Frame, Frame)>) -> (r: bool)
    ensures
        r == (pair_views(a@) == pair_views(b@)),
    decreases a,
{
    if a.len() != b.len() {
        assert(pair_views(a@).len() != pair_views(b@).len());
        return false;
    }
    let mut i: usize = 0;
    while i < a.len()
        invariant
            0 <= i <= a@.len(),
            a@.len() == b@.len(),
            forall|j: int| 0 <= j < i ==> a@[j].0@ == b@[j].0@ && a@[j].1@ == b@[j].1@,
        decreases a.len() - i,
    {
        assert(decreases_to!(a => a[i as int]));
        assert(decreases_to!(a[i as int] => a[i as int].0));
        assert(decreases_to!(a[i as int] => a[i as int].1));
        if !a[i].0.same(&b[i].0) || !a[i].1.same(&b[i].1) {
            assert(pair_views(a@)[i as int] != pair_views(b@)[i as int]);
            return false;
        }
        i += 1;
    }
    assert(pair_views(a@) =~= pair_views(b@));
    true
}

fn same_attributes(a: &Option<Vec<(Frame, Frame)>>, b: &Option<Vec<(Frame, Frame)>>) -> (r: bool)
    ensures
        r == (option_views(*a) == option_views(*b)),
    decreases a,
{
    match a {
        None => b.is_none(),
        Some(x) => match b {
            None => false,
            Some(y) => same_pairs(x, y),
        },
    }
}

impl<'a> Frame<'a> {
    /// Whether two frames are the same: of one kind, with the same payload,
    /// the same members in the same order and the same attributes.
    pub fn same(&self, other: &Frame) -> (r: bool)
        ensures
            r == (self@ == other@),
        decreases self, 1int,
    {
        proof {
            lemma_view(*self);
            lemma_view(*other);
        }
        let no_attributes: Option<Vec<(Frame, Frame)>> = None;
        let mine = match self {
            Frame::SimpleString { attributes, .. } => attributes,
            Frame::SimpleError { attributes, .. } => attributes,
            Frame::Boolean { attributes, .. } => attributes,
            Frame::Null { .. } => &no_attributes,
            Frame::Integer { attributes, .. } => attributes,
            Frame::Double { attributes, .. } => attributes,
            Frame::BulkString { attributes, .. } => attributes,
            Frame::BulkError { attributes, .. } => attributes,
            Frame::BigNumber { attributes, .. } => attributes,
            Frame::VerbatimString { attributes, .. } => attributes,
            Frame::Array { attributes, .. } => attributes,
            Frame::MapFrame { attributes, .. } => attributes,
            Frame::SetFrame { attributes, .. } => attributes,
            Frame::Push { .. } => &no_attributes,
        };
        let theirs = match other {
            Frame::SimpleString { attributes, .. } => attributes,
            Frame::SimpleError { attributes, .. } => attributes,
            Frame::Boolean { attributes, .. } => attributes,
            Frame::Null { .. } => &no_attributes,
            Frame::Integer { attributes, .. } => attributes,
            Frame::Double { attributes, .. } => attributes,
            Frame::BulkString { attributes, .. } => attributes,
            Frame::BulkError { attributes, .. } => attributes,
            Frame::BigNumber { attributes, .. } => attributes,
            Frame::VerbatimString { attributes, .. } => attributes,
            Frame::Array { attributes, .. } => attributes,
            Frame::MapFrame { attributes, .. } => attributes,
            Frame::SetFrame { attributes, .. } => attributes,
            Frame::Push { .. } => &no_attributes,
        };
        assert(option_views(*mine) == self@.attributes);
        assert(option_views(*theirs) == other@.attributes);
        if mine.is_some() {
            assert(decreases_to!(self => mine));
            if !same_attributes(mine, theirs) {
                return false;
            }
        } else if theirs.is_some() {
            return false;
        }
        self.same_body(other)
    }

    fn same_body(&self, other: &Frame) -> (r: bool)
        ensures
            r == (self@.body == other@.body),
        decreases self, 0int,
    {
        proof {
            lemma_view(*self);
            lemma_view(*other);
        }
        match self {
            Frame::SimpleString { data: a, .. } => match other {
                Frame::SimpleString { data: b, .. } => same_bytes(a, b),
                _ => false,
            },
            Frame::SimpleError { data: a, .. } => match other {
                Frame::SimpleError { data: b, .. } => same_bytes(a, b),
                _ => false,
            },
            Frame::Boolean { data: a, .. } => match other {
                Frame::Boolean { data: b, .. } => *a == *b,
                _ => false,
            },
            Frame::Null { .. } => match other {
                Frame::Null { .. } => true,
                _ => false,
            },
            Frame::Integer { data: a, .. } => match other {
                Frame::Integer { data: b, .. } => *a == *b,
                _ => false,
            },
            Frame::Double { data: a, .. } => match other {
                Frame::Double { data: b, .. } => same_bytes(a, b),
                _ => false,
            },
            Frame::BulkString { data: a, .. } => match other {
                Frame::BulkString { data: b, .. } => same_bytes(a, b),
                _ => false,
            },
            Frame::BulkError { data: a, .. } => match other {
                Frame::BulkError { data: b, .. } => same_bytes(a, b),
                _ => false,
            },
            Frame::BigNumber { data: a, .. } => match other {
                Frame::BigNumber { data: b, .. } => same_bytes(a, b),
                _ => false,
            },
            Frame::VerbatimString { data: a, .. } => match other {
                Frame::VerbatimString { data: b, .. } => same_bytes(a.0.as_slice(), b.0.as_slice())
                    && same_bytes(a.1, b.1),
                _ => false,
            },
            Frame::Array { data: a, .. } => match other {
                Frame::Array { data: b, .. } => same_items(a, b),
                _ => false,
            },
            Frame::MapFrame { data: a, .. } => match other {
                Frame::MapFrame { data: b, .. } => same_pairs(a, b),
                _ => false,
            },
            Frame::SetFrame { data: a, .. } => match other {
                Frame::SetFrame { data: b, .. } => same_items(a, b),
                _ => false,
            },
            Frame::Push { data: a } => match other {
                Frame::Push { data: b } => same_items(a, b),
                _ => false,
            },
        }
    }
}

} // verus!
