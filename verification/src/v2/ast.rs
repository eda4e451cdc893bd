use crate::common::error::Error;
use crate::v2::frame::{lemma_array_view, views, Frame, FrameView};
use crate::v2::lexer::{lemma_token_bounds, token_at, Lexer};
use crate::v2::tag::{Tag, TagView};
use vstd::prelude::*;

verus! {

/// The frame that a token stands for by itself. An array's token stands for
/// the empty array here; its items are read by `frame_at`.
pub open spec fn leaf(tag: TagView) -> FrameView {
    match tag {
        TagView::SimpleString(data) => FrameView::SimpleString(data),
        TagView::SimpleError(data) => FrameView::SimpleError(data),
        TagView::BulkString(data) => FrameView::BulkString(data),
        TagView::Null => FrameView::Null,
        TagView::Integer(n) => FrameView::Integer(n),
        TagView::Array(_) => FrameView::Array(Seq::empty()),
    }
}

/// The frame that starts at `pos` with the place after it: `None` where the
/// input ends before the frame's first token does, an error where a token is
/// malformed or the input ends inside an array.
pub open spec fn frame_at(s: Seq<u8>, pos: int) -> Option<Result<(FrameView, int), Error>>
    decreases s.len() - pos, 0int,
{
    match token_at(s, pos) {
        None => None,
        Some(Err(e)) => Some(Err(e)),
        Some(Ok((TagView::Array(n), next))) => if pos < next <= s.len() {
            match items_at(s, next, n as int) {
                Err(e) => Some(Err(e)),
                Ok((items, end)) => Some(Ok((FrameView::Array(items), end))),
            }
        } else {
            None
        },
        Some(Ok((tag, next))) => Some(Ok((leaf(tag), next))),
    }
}

/// The `count` frames that start at `pos`, one after the other, with the
/// place after the last.
pub open spec fn items_at(s: Seq<u8>, pos: int, count: int) -> Result<(Seq<FrameView>, int), Error>
    decreases s.len() - pos, 1 + count,
{
    if count <= 0 {
        Ok((Seq::empty(), pos))
    } else {
        match frame_at(s, pos) {
            None => Err(Error::NotComplete),
            Some(Err(e)) => Err(e),
            Some(Ok((first, next))) => if pos < next <= s.len() {
                match items_at(s, next, count - 1) {
                    Err(e) => Err(e),
                    Ok((rest, end)) => Ok((seq![first] + rest, end)),
                }
            } else {
                Err(Error::NotComplete)
            },
        }
    }
}

/// A frame ends after the place where it starts, and inside the input.
pub proof fn lemma_frame_bounds(s: Seq<u8>, pos: int)
    requires
        0 <= pos,
    ensures
        frame_at(s, pos) matches Some(Ok((_, next))) ==> pos + 2 <= next <= s.len(),
    decreases s.len() - pos, 0int,
{
    lemma_token_bounds(s, pos);
    if let Some(Ok((TagView::Array(n), next))) = token_at(s, pos) {
        lemma_items_bounds(s, next, n as int);
    }
}

/// A run of frames ends at or after the place where it starts, and inside
/// the input.
pub proof fn lemma_items_bounds(s: Seq<u8>, pos: int, count: int)
    requires
        0 <= pos <= s.len(),
    ensures
        items_at(s, pos, count) matches Ok((items, end)) ==> pos <= end <= s.len() && items.len()
            == if count <= 0 {
            0
        } else {
            count
        },
    decreases s.len() - pos, 1 + count,
{
    if count > 0 {
        lemma_frame_bounds(s, pos);
        if let Some(Ok((_, next))) = frame_at(s, pos) {
            lemma_items_bounds(s, next, count - 1);
        }
    }
}

/// An array that is being read: the items read so far and the number that
/// are still to come.
pub struct Level<'a> {
    pub items: Vec<Frame<'a>>,
    pub pending: u64,
}

/// The levels below the innermost one, outermost first, as plain values.
pub open spec fn levels(stack: Seq<Level>) -> Seq<(Seq<FrameView>, int)> {
    Seq::new(stack.len(), |i: int| (views(stack[i].items@), stack[i].pending as int))
}

/// What reading ends in, from `pos` on, where `pending` more items complete
/// the innermost array, which so far holds `items`, and each array so
/// completed is the next item of the level above it in `outer`.
pub open spec fn resume(
    s: Seq<u8>,
    outer: Seq<(Seq<FrameView>, int)>,
    items: Seq<FrameView>,
    pending: int,
    pos: int,
) -> Result<(Seq<FrameView>, int), Error>
    decreases outer.len(),
{
    match items_at(s, pos, pending) {
        Err(e) => Err(e),
        Ok((rest, end)) => if outer.len() == 0 {
            Ok((items + rest, end))
        } else {
            resume(
                s,
                outer.drop_last(),
                outer.last().0.push(FrameView::Array(items + rest)),
                outer.last().1 - 1,
                end,
            )
        },
    }
}

/// Reading one frame at `pos` and going on after it comes to the same as
/// going on from `pos`.
pub proof fn lemma_resume_step(
    s: Seq<u8>,
    outer: Seq<(Seq<FrameView>, int)>,
    items: Seq<FrameView>,
    pending: int,
    pos: int,
)
    requires
        0 <= pos,
        pending > 0,
    ensures
        match frame_at(s, pos) {
            None => resume(s, outer, items, pending, pos) == Err::<(Seq<FrameView>, int), Error>(
                Error::NotComplete,
            ),
            Some(Err(e)) => resume(s, outer, items, pending, pos) == Err::<
                (Seq<FrameView>, int),
                Error,
            >(e),
            Some(Ok((first, next))) => resume(s, outer, items, pending, pos) == resume(
                s,
                outer,
                items.push(first),
                pending - 1,
                next,
            ),
        },
{
    lemma_frame_bounds(s, pos);
    if let Some(Ok((first, next))) = frame_at(s, pos) {
        if let Ok((rest, end)) = items_at(s, next, pending - 1) {
            assert(items + (seq![first] + rest) =~= items.push(first) + rest);
        }
    }
}

/// Builds frames from the tokens of a buffer.
#[derive(Debug)]
pub struct Ast<'a> {
    lexer: Lexer<'a>,
}

impl<'a> Ast<'a> {
    /// The bytes that are read.
    pub closed spec fn input(&self) -> Seq<u8> {
        self.lexer.input()
    }

    /// The place just after the last frame that was handed out.
    pub closed spec fn position(&self) -> int {
        self.lexer.position()
    }

    /// The position lies inside the input.
    pub closed spec fn wf(&self) -> bool {
        self.lexer.wf() && 0 <= self.lexer.position() <= self.lexer.input().len() <= usize::MAX
    }

    /// A builder at the start of `input`.
    pub fn new(input: &'a [u8]) -> (ast: Self)
        ensures
            ast.wf(),
            ast.input() == input@,
            ast.position() == 0,
    {
        let _ = input.len();
        Ast { lexer: Lexer::new(input) }
    }

    /// The number of bytes taken by the frames handed out so far.
    pub fn remaining(&self) -> (n: usize)
        ensures
            n == self.position(),
    {
        self.lexer.remaining()
    }

    /// Reads the next frame. The builder moves past the frame where there
    /// is one, and stays where it is otherwise.
    pub fn next(&mut self) -> (r: Option<Result<Frame<'a>, Error>>)
        requires
            old(self).wf(),
        ensures
            final(self).wf(),
            final(self).input() == old(self).input(),
            match frame_at(old(self).input(), old(self).position()) {
                None => r is None && final(self).position() == old(self).position(),
                Some(Err(e)) => r == Some(Err::<Frame, Error>(e))
                    && final(self).position() == old(self).position(),
                Some(Ok((frame, next))) => r matches Some(Ok(f)) && f@ == frame
                    && final(self).position() == next,
            },
    {
        self.next_frame()
    }

    fn next_frame(&mut self) -> (r: Option<Result<Frame<'a>, Error>>)
        requires
            old(self).wf(),
        ensures
            final(self).wf(),
            final(self).input() == old(self).input(),
            match frame_at(old(self).input(), old(self).position()) {
                None => r is None && final(self).position() == old(self).position(),
                Some(Err(e)) => r == Some(Err::<Frame, Error>(e))
                    && final(self).position() == old(self).position(),
                Some(Ok((frame, next))) => r matches Some(Ok(f)) && f@ == frame
                    && final(self).position() == next,
            },
    {
        let start = self.lexer.remaining();
        proof {
            lemma_token_bounds(self.lexer.input(), start as int);
        }
        match self.lexer.next() {
            None => None,
            Some(Err(e)) => Some(Err(e)),
            Some(Ok(tag)) => match tag {
                Tag::BulkString(buf) => Some(Ok(Frame::BulkString(buf))),
                Tag::Null => Some(Ok(Frame::Null)),
                Tag::Integer(i) => Some(Ok(Frame::Integer(i))),
                Tag::SimpleString(buf) => Some(Ok(Frame::SimpleString(buf))),
                Tag::SimpleError(buf) => Some(Ok(Frame::SimpleError(buf))),
                Tag::Array(len) => match self.array_frame(len) {
                    Ok(items) => {
                        proof {
                            lemma_array_view(items);
                        }
                        Some(Ok(Frame::Array(items)))
                    },
                    Err(e) => {
                        self.lexer.rewind(start);
                        Some(Err(e))
                    },
                },
            },
        }
    }

    /// Reads the `len` items of an array whose first token was just read,
    /// with a stack of the arrays that are open in place of a call for each.
    fn array_frame(&mut self, len: u64) -> (r: Result<Vec<Frame<'a>>, Error>)
        requires
            old(self).wf(),
        ensures
            final(self).wf(),
            final(self).input() == old(self).input(),
            match items_at(old(self).input(), old(self).position(), len as int) {
                Err(e) => r == Err::<Vec<Frame>, Error>(e),
                Ok((items, end)) => r matches Ok(v) && views(v@) == items
                    && final(self).position() == end,
            },
    {
        let ghost s = self.lexer.input();
        let ghost goal = items_at(s, self.lexer.position(), len as int);
        let mut stack: Vec<Level<'a>> = Vec::new();
        let mut items: Vec<Frame<'a>> = Vec::new();
        let mut pending: u64 = len;
        proof {
            assert(views(items@) =~= Seq::empty());
            assert(levels(stack@) =~= Seq::empty());
            if let Ok((rest, end)) = goal {
                assert(Seq::<FrameView>::empty() + rest =~= rest);
            }
        }
        loop
            invariant
                self.lexer.wf(),
                self.lexer.input() == s,
                0 <= self.lexer.position() <= s.len() <= usize::MAX,
                forall|i: int| 0 <= i < stack@.len() ==> (#[trigger] stack@[i]).pending >= 1,
                resume(s, levels(stack@), views(items@), pending as int, self.lexer.position())
                    == goal,
                s == old(self).input(),
                goal == items_at(old(self).input(), old(self).position(), len as int),
            decreases s.len() - self.lexer.position(), stack@.len(),
        {
            let ghost outer = levels(stack@);
            let ghost pos = self.lexer.position();
            if pending == 0 {
                match stack.pop() {
                    None => {
                        proof {
                            assert(outer.len() == 0);
                            assert(views(items@) + Seq::<FrameView>::empty() =~= views(items@));
                        }
                        return Ok(items);
                    },
                    Some(parent) => {
                        let Level { items: mut above, pending: left } = parent;
                        proof {
                            lemma_array_view(items);
                            assert(views(items@) + Seq::<FrameView>::empty() =~= views(items@));
                            assert(outer.last() == (views(above@), left as int));
                            assert(outer.drop_last() =~= levels(stack@));
                        }
                        let ghost before = above@;
                        above.push(Frame::Array(items));
                        proof {
                            assert(views(above@) =~= views(before).push(
                                FrameView::Array(views(items@)),
                            ));
                        }
                        items = above;
                        pending = left - 1;
                        continue ;
                    },
                }
            }
            proof {
                lemma_resume_step(s, outer, views(items@), pending as int, pos);
                lemma_token_bounds(s, pos);
                lemma_frame_bounds(s, pos);
            }
            let ghost before = items@;
            match self.lexer.next() {
                None => {
                    return Err(Error::NotComplete);
                },
                Some(Err(e)) => {
                    return Err(e);
                },
                Some(Ok(Tag::SimpleString(buf))) => {
                    items.push(Frame::SimpleString(buf));
                    pending = pending - 1;
                    proof {
                        assert(views(items@) =~= views(before).push(FrameView::SimpleString(buf@)));
                    }
                },
                Some(Ok(Tag::SimpleError(buf))) => {
                    items.push(Frame::SimpleError(buf));
                    pending = pending - 1;
                    proof {
                        assert(views(items@) =~= views(before).push(FrameView::SimpleError(buf@)));
                    }
                },
                Some(Ok(Tag::Integer(number))) => {
                    items.push(Frame::Integer(number));
                    pending = pending - 1;
                    proof {
                        assert(views(items@) =~= views(before).push(FrameView::Integer(number)));
                    }
                },
                Some(Ok(Tag::BulkString(buf))) => {
                    items.push(Frame::BulkString(buf));
                    pending = pending - 1;
                    proof {
                        assert(views(items@) =~= views(before).push(FrameView::BulkString(buf@)));
                    }
                },
                Some(Ok(Tag::Null)) => {
                    items.push(Frame::Null);
                    pending = pending - 1;
                    proof {
                        assert(views(items@) =~= views(before).push(FrameView::Null));
                    }
                },
                Some(Ok(Tag::Array(inner))) => {
                    let ghost next = self.lexer.position();
                    let ghost was = pending as int;
                    stack.push(Level { items, pending });
                    items = Vec::new();
                    pending = inner;
                    proof {
                        let deeper = levels(stack@);
                        assert(deeper.last() == (views(before), was));
                        assert(deeper.drop_last() =~= outer);
                        assert(views(items@) =~= Seq::empty());
                        if let Ok((rest, end)) = items_at(s, next, inner as int) {
                            assert(Seq::<FrameView>::empty() + rest =~= rest);
                            lemma_items_bounds(s, next, inner as int);
                        }
                    }
                },
            }
        }
    }
}

} // verus!

