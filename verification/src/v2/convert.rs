use crate::common::error::Error;
use crate::common::list::{flip, reversed};
use crate::v2::frame::{lemma_array_view, views, Frame, FrameView};
use crate::v3::frame::{
    lemma_view as lemma_new_view, views as new_views, Body, Frame as NewFrame, FrameView as
    NewView,
};
use vstd::prelude::*;

verus! {

broadcast use vstd::std_specs::vec::group_vec_axioms;

/// The frame of the classical revision that stands for a frame of the
/// extended one, if there is one: of the same kind, where the classical
/// revision has the kind and neither the frame nor a frame inside it has
/// attributes.
pub open spec fn lowered(f: NewView) -> Option<FrameView>
    decreases f,
{
    if f.attributes is Some {
        None
    } else {
        match f.body {
            Body::SimpleString(data) => Some(FrameView::SimpleString(data)),
            Body::SimpleError(data) => Some(FrameView::SimpleError(data)),
            Body::Integer(n) => Some(FrameView::Integer(n)),
            Body::BulkString(data) => Some(FrameView::BulkString(data)),
            Body::Null => Some(FrameView::Null),
            Body::Array(items) => match lowered_all(items) {
                Some(all) => Some(FrameView::Array(all)),
                None => None,
            },
            _ => None,
        }
    }
}

/// The frames that stand for `items`, in order, if each has one.
pub open spec fn lowered_all(items: Seq<NewView>) -> Option<Seq<FrameView>>
    decreases items,
{
    if items.len() == 0 {
        Some(Seq::empty())
    } else {
        match (lowered_all(items.drop_last()), lowered(items.last())) {
            (Some(before), Some(last)) => Some(before.push(last)),
            _ => None,
        }
    }
}

/// The number of frames in `f` that a conversion may visit.
pub open spec fn weight(f: NewView) -> nat
    decreases f,
{
    match f.body {
        Body::Array(items) => 1 + weight_all(items),
        _ => 1,
    }
}

/// The number of frames in `items` that a conversion may visit.
pub open spec fn weight_all(items: Seq<NewView>) -> nat
    decreases items,
{
    if items.len() == 0 {
        0
    } else {
        weight_all(items.drop_last()) + weight(items.last())
    }
}

/// An array that is being converted: the frames made so far, last first,
/// and the frames that are still to be converted, in order.
pub struct Level<'a> {
    pub done: Vec<Frame<'a>>,
    pub rest: Vec<NewFrame<'a>>,
}

/// The arrays that are open, outermost first, as plain values.
pub open spec fn levels(stack: Seq<Level>) -> Seq<(Seq<FrameView>, Seq<NewView>)> {
    Seq::new(stack.len(), |i: int| (views(stack[i].done@), new_views(stack[i].rest@)))
}

/// The number of frames that are still to be converted in the open arrays.
pub open spec fn backlog(outer: Seq<(Seq<FrameView>, Seq<NewView>)>) -> nat
    decreases outer.len(),
{
    if outer.len() == 0 {
        0
    } else {
        backlog(outer.drop_last()) + weight_all(outer.last().1)
    }
}

/// The items of the outermost array once everything is converted, if
/// everything can be, where the innermost open array has `done` made, last
/// first, and `rest` to come.
pub open spec fn finish(
    outer: Seq<(Seq<FrameView>, Seq<NewView>)>,
    done: Seq<FrameView>,
    rest: Seq<NewView>,
) -> Option<Seq<FrameView>>
    decreases outer.len(),
{
    match lowered_all(rest) {
        None => None,
        Some(made) => {
            let all = made + flip(done);
            if outer.len() == 0 {
                Some(all)
            } else {
                finish(outer.drop_last(), outer.last().0.push(FrameView::Array(all)), outer.last().1)
            }
        },
    }
}

/// Converting the last of the frames that are to come leaves the outcome as
/// it is; where that frame has no counterpart, nothing comes out.
pub proof fn lemma_finish_step(
    outer: Seq<(Seq<FrameView>, Seq<NewView>)>,
    done: Seq<FrameView>,
    rest: Seq<NewView>,
)
    requires
        rest.len() > 0,
    ensures
        match lowered(rest.last()) {
            None => finish(outer, done, rest) is None,
            Some(last) => finish(outer, done, rest) == finish(
                outer,
                done.push(last),
                rest.drop_last(),
            ),
        },
{
    if let Some(last) = lowered(rest.last()) {
        if let Some(before) = lowered_all(rest.drop_last()) {
            assert(before.push(last) + flip(done) =~= before + flip(done.push(last)));
        }
    }
}

/// The counterpart of a frame that is no array.
fn lower_leaf<'a>(frame: NewFrame<'a>) -> (r: Result<Frame<'a>, Error>)
    requires
        !(frame is Array),
    ensures
        match lowered(frame@) {
            Some(v) => r matches Ok(f) && f@ == v,
            None => r == Err::<Frame, Error>(Error::Unknown),
        },
{
    proof {
        lemma_new_view(frame);
    }
    match frame {
        NewFrame::Null { .. } => Ok(Frame::Null),
        NewFrame::Integer { data, attributes } => if attributes.is_some() {
            Err(Error::Unknown)
        } else {
            Ok(Frame::Integer(data))
        },
        NewFrame::SimpleString { data, attributes } => if attributes.is_some() {
            Err(Error::Unknown)
        } else {
            Ok(Frame::SimpleString(data))
        },
        NewFrame::SimpleError { data, attributes } => if attributes.is_some() {
            Err(Error::Unknown)
        } else {
            Ok(Frame::SimpleError(data))
        },
        NewFrame::BulkString { data, attributes } => if attributes.is_some() {
            Err(Error::Unknown)
        } else {
            Ok(Frame::BulkString(data))
        },
        _ => Err(Error::Unknown),
    }
}

/// Converts the items of an array, with a stack of the arrays that are open
/// in place of a call for each.
fn lower_items<'a>(data: Vec<NewFrame<'a>>) -> (r: Result<Vec<Frame<'a>>, Error>)
    ensures
        match lowered_all(new_views(data@)) {
            Some(all) => r matches Ok(v) && views(v@) == all,
            None => r == Err::<Vec<Frame>, Error>(Error::Unknown),
        },
{
    let ghost goal = lowered_all(new_views(data@));
    let mut stack: Vec<Level<'a>> = Vec::new();
    let mut rest = data;
    let mut done: Vec<Frame<'a>> = Vec::new();
    proof {
        assert(levels(stack@) =~= Seq::empty());
        assert(flip(views(done@)) =~= Seq::empty());
        if let Some(made) = goal {
            assert(made + flip(views(done@)) =~= made);
        }
    }
    loop
        invariant
            finish(levels(stack@), views(done@), new_views(rest@)) == goal,
            goal == lowered_all(new_views(data@)),
        decreases backlog(levels(stack@)) + weight_all(new_views(rest@)), stack@.len(),
    {
        let ghost outer = levels(stack@);
        let ghost made = views(done@);
        let ghost left = new_views(rest@);
        match rest.pop() {
            None => {
                proof {
                    assert(left =~= Seq::empty());
                    assert(Seq::<FrameView>::empty() + flip(made) =~= flip(made));
                }
                let all = reversed(done);
                assert(views(all@) =~= flip(made));
                match stack.pop() {
                    None => {
                        return Ok(all);
                    },
                    Some(parent) => {
                        proof {
                            assert(outer.last() == (views(parent.done@), new_views(parent.rest@)));
                            assert(outer.drop_last() =~= levels(stack@));
                            assert(backlog(outer) == backlog(outer.drop_last()) + weight_all(
                                outer.last().1,
                            ));
                            assert(weight_all(left) == 0);
                            lemma_array_view(all);
                        }
                        let Level { done: mut above, rest: waiting } = parent;
                        let ghost was = above@;
                        above.push(Frame::Array(all));
                        assert(views(above@) =~= views(was).push(FrameView::Array(flip(made))));
                        done = above;
                        rest = waiting;
                    },
                }
            },
            Some(first) => {
                proof {
                    assert(left.last() == first@);
                    assert(left.drop_last() =~= new_views(rest@));
                    lemma_finish_step(outer, made, left);
                    lemma_new_view(first);
                    assert(weight_all(left) == weight_all(left.drop_last()) + weight(first@));
                    assert(weight(first@) >= 1);
                }
                match first {
                    NewFrame::Array { data: inner, attributes } => {
                        if attributes.is_some() {
                            return Err(Error::Unknown);
                        }
                        stack.push(Level { done, rest });
                        proof {
                            let deeper = levels(stack@);
                            assert(deeper.drop_last() =~= outer);
                            assert(deeper.last() == (made, left.drop_last()));
                            assert(backlog(deeper) == backlog(outer) + weight_all(left.drop_last()));
                            assert(weight(first@) == 1 + weight_all(new_views(inner@)));
                        }
                        done = Vec::new();
                        rest = inner;
                        proof {
                            assert(flip(views(done@)) =~= Seq::empty());
                            if let Some(lower) = lowered_all(new_views(rest@)) {
                                assert(lower + flip(views(done@)) =~= lower);
                            }
                        }
                    },
                    leaf => {
                        let ghost was = done@;
                        match lower_leaf(leaf) {
                            Err(e) => {
                                return Err(e);
                            },
                            Ok(frame) => {
                                done.push(frame);
                                assert(views(done@) =~= views(was).push(frame@));
                            },
                        }
                    },
                }
            },
        }
    }
}

impl<'a> Frame<'a> {
    /// The frame that stands for a frame of the extended revision, where
    /// there is one; `Unknown` where the classical revision lacks the
    /// frame's kind, or the frame or a frame inside it has attributes.
    pub fn try_from(value: NewFrame<'a>) -> (r: Result<Frame<'a>, Error>)
        ensures
            match lowered(value@) {
                Some(v) => r matches Ok(f) && f@ == v,
                None => r == Err::<Frame, Error>(Error::Unknown),
            },
    {
        proof {
            lemma_new_view(value);
        }
        match value {
            NewFrame::Array { data, attributes } => {
                if attributes.is_some() {
                    return Err(Error::Unknown);
                }
                match lower_items(data) {
                    Ok(items) => {
                        proof {
                            lemma_array_view(items);
                        }
                        Ok(Frame::Array(items))
                    },
                    Err(e) => Err(e),
                }
            },
            leaf => lower_leaf(leaf),
        }
    }
}

} // verus!
