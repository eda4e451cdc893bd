use crate::common::error::Error;
use crate::common::list::{flip, reversed};
use crate::v2::frame::{
    lemma_array_view as lemma_old_array_view, views as old_views, Frame as OldFrame, FrameView
    as OldView,
};
use crate::v3::frame::{lemma_view, views, Body, Frame, FrameView};
use vstd::prelude::*;

verus! {

broadcast use vstd::std_specs::vec::group_vec_axioms;

/// A frame of the extended revision that holds `body` and has no attributes.
pub open spec fn plain(body: Body) -> FrameView {
    FrameView { body, attributes: None }
}

/// The frame of the extended revision that stands for a frame of the
/// classical one: of the same kind, without attributes.
pub open spec fn lifted(f: OldView) -> FrameView
    decreases f,
{
    match f {
        OldView::BulkString(data) => plain(Body::BulkString(data)),
        OldView::Null => plain(Body::Null),
        OldView::Integer(n) => plain(Body::Integer(n)),
        OldView::Array(items) => plain(Body::Array(lifted_all(items))),
        OldView::SimpleError(data) => plain(Body::SimpleError(data)),
        OldView::SimpleString(data) => plain(Body::SimpleString(data)),
    }
}

/// The frames that stand for `items`, in order.
pub open spec fn lifted_all(items: Seq<OldView>) -> Seq<FrameView>
    decreases items,
{
    if items.len() == 0 {
        Seq::empty()
    } else {
        lifted_all(items.drop_last()).push(lifted(items.last()))
    }
}

/// The number of frames in `f`, itself included.
pub open spec fn weight(f: OldView) -> nat
    decreases f,
{
    match f {
        OldView::Array(items) => 1 + weight_all(items),
        _ => 1,
    }
}

/// The number of frames in `items`.
pub open spec fn weight_all(items: Seq<OldView>) -> nat
    decreases items,
{
    if items.len() == 0 {
        0
    } else {
        weight_all(items.drop_last()) + weight(items.last())
    }
}

/// An array that is being converted: the frames made so far, last first,
/// and the frames that are still to be converted, in order.
pub struct Level<'a> {
    pub done: Vec<Frame<'a>>,
    pub rest: Vec<OldFrame<'a>>,
}

/// The arrays that are open, outermost first, as plain values.
pub open spec fn levels(stack: Seq<Level>) -> Seq<(Seq<FrameView>, Seq<OldView>)> {
    Seq::new(stack.len(), |i: int| (views(stack[i].done@), old_views(stack[i].rest@)))
}

/// The number of frames that are still to be converted in the open arrays.
pub open spec fn backlog(outer: Seq<(Seq<FrameView>, Seq<OldView>)>) -> nat
    decreases outer.len(),
{
    if outer.len() == 0 {
        0
    } else {
        backlog(outer.drop_last()) + weight_all(outer.last().1)
    }
}

/// The items of the outermost array once everything is converted, where
/// the innermost open array has `done` made, last first, and `rest` to come.
pub open spec fn finish(
    outer: Seq<(Seq<FrameView>, Seq<OldView>)>,
    done: Seq<FrameView>,
    rest: Seq<OldView>,
) -> Seq<FrameView>
    decreases outer.len(),
{
    let all = lifted_all(rest) + flip(done);
    if outer.len() == 0 {
        all
    } else {
        finish(outer.drop_last(), outer.last().0.push(plain(Body::Array(all))), outer.last().1)
    }
}

/// Converting the last of the frames that are to come leaves the outcome as
/// it is.
pub proof fn lemma_finish_step(
    outer: Seq<(Seq<FrameView>, Seq<OldView>)>,
    done: Seq<FrameView>,
    rest: Seq<OldView>,
)
    requires
        rest.len() > 0,
    ensures
        finish(outer, done, rest) == finish(outer, done.push(lifted(rest.last())), rest.drop_last()),
{
    assert(lifted_all(rest) + flip(done) =~= lifted_all(rest.drop_last()) + flip(
        done.push(lifted(rest.last())),
    ));
}

fn lift_leaf<'a>(frame: OldFrame<'a>) -> (r: Frame<'a>)
    requires
        !(frame is Array),
    ensures
        r@ == lifted(frame@),
{
    let r = match frame {
        OldFrame::BulkString(data) => Frame::BulkString { data, attributes: None },
        OldFrame::SimpleError(data) => Frame::SimpleError { data, attributes: None },
        OldFrame::SimpleString(data) => Frame::SimpleString { data, attributes: None },
        OldFrame::Integer(data) => Frame::Integer { data, attributes: None },
        _ => Frame::Null { data: () },
    };
    proof {
        lemma_view(r);
    }
    r
}

/// Converts the items of an array, with a stack of the arrays that are open
/// in place of a call for each.
fn lift_items<'a>(data: Vec<OldFrame<'a>>) -> (r: Vec<Frame<'a>>)
    ensures
        views(r@) == lifted_all(old_views(data@)),
{
    let ghost goal = lifted_all(old_views(data@));
    let mut stack: Vec<Level<'a>> = Vec::new();
    let mut rest = data;
    let mut done: Vec<Frame<'a>> = Vec::new();
    proof {
        assert(levels(stack@) =~= Seq::empty());
        assert(flip(views(done@)) =~= Seq::empty());
        assert(lifted_all(old_views(rest@)) + flip(views(done@)) =~= goal);
    }
    loop
        invariant
            finish(levels(stack@), views(done@), old_views(rest@)) == goal,
            goal == lifted_all(old_views(data@)),
        decreases backlog(levels(stack@)) + weight_all(old_views(rest@)), stack@.len(),
    {
        let ghost outer = levels(stack@);
        let ghost made = views(done@);
        let ghost left = old_views(rest@);
        let ghost before = rest@;
        match rest.pop() {
            None => {
                proof {
                    assert(left =~= Seq::empty());
                    assert(lifted_all(left) + flip(made) =~= flip(made));
                }
                let all = reversed(done);
                assert(views(all@) =~= flip(made));
                match stack.pop() {
                    None => {
                        return all;
                    },
                    Some(parent) => {
                        proof {
                            assert(outer.last() == (views(parent.done@), old_views(parent.rest@)));
                            assert(outer.drop_last() =~= levels(stack@));
                            assert(backlog(outer) == backlog(outer.drop_last()) + weight_all(
                                outer.last().1,
                            ));
                            assert(weight_all(left) == 0);
                        }
                        let Level { done: mut above, rest: waiting } = parent;
                        let ghost was = above@;
                        let frame = Frame::Array { data: all, attributes: None };
                        proof {
                            lemma_view(frame);
                        }
                        above.push(frame);
                        assert(views(above@) =~= views(was).push(plain(Body::Array(flip(made)))));
                        done = above;
                        rest = waiting;
                    },
                }
            },
            Some(first) => {
                proof {
                    assert(left.last() == first@);
                    assert(left.drop_last() =~= old_views(rest@));
                    lemma_finish_step(outer, made, left);
                    assert(weight_all(left) == weight_all(left.drop_last()) + weight(first@));
                    assert(weight(first@) >= 1);
                }
                match first {
                    OldFrame::Array(inner) => {
                        proof {
                            lemma_old_array_view(inner);
                        }
                        stack.push(Level { done, rest });
                        proof {
                            let deeper = levels(stack@);
                            assert(deeper.drop_last() =~= outer);
                            assert(deeper.last() == (made, left.drop_last()));
                            assert(backlog(deeper) == backlog(outer) + weight_all(left.drop_last()));
                            assert(weight(first@) == 1 + weight_all(old_views(inner@)));
                        }
                        done = Vec::new();
                        rest = inner;
                        proof {
                            assert(flip(views(done@)) =~= Seq::empty());
                            assert(lifted_all(old_views(rest@)) + flip(views(done@))
                                =~= lifted_all(old_views(rest@)));
                        }
                    },
                    leaf => {
                        let ghost was = done@;
                        let frame = lift_leaf(leaf);
                        done.push(frame);
                        assert(views(done@) =~= views(was).push(frame@));
                    },
                }
            },
        }
    }
}

impl<'a> Frame<'a> {
    /// The frame that stands for a frame of the classical revision: of the
    /// same kind, without attributes. It never fails.
    pub fn try_from(v2_frame: OldFrame<'a>) -> (r: Result<Frame<'a>, Error>)
        ensures
            r matches Ok(f) && f@ == lifted(v2_frame@),
    {
        match v2_frame {
            OldFrame::Array(data) => {
                proof {
                    lemma_old_array_view(data);
                }
                let frame = Frame::Array { data: lift_items(data), attributes: None };
                proof {
                    lemma_view(frame);
                }
                Ok(frame)
            },
            leaf => Ok(lift_leaf(leaf)),
        }
    }
}

} // verus!
