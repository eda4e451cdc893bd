use crate::common::error::Error;
use crate::common::mark::{COLON, LETTER_F, LETTER_T};
use crate::common::text::parse_i64;
use crate::v3::frame::{lemma_view, option_views, views, Frame, FrameView};
use crate::v3::grammar::{
    assemble, deliver, frame_at, group_at, leaf, lemma_leaf_plain, lemma_resume_step, opens,
    refusal, resume, Group, LevelView,
};
use crate::v3::lexer::{lemma_token_bounds, Lexer};
use crate::v3::members::{distinct_frames, entries, entries_of};
use crate::v3::tag::{Tag, TagType};
use vstd::prelude::*;
use vstd::slice::slice_subrange;

verus! {

broadcast use vstd::std_specs::vec::group_vec_axioms;

/// A group that is being read: its kind, the members read so far, the
/// number still to come, and the attributes that the finished frame gets.
pub struct Level<'a> {
    pub group: Group,
    pub items: Vec<Frame<'a>>,
    pub pending: u128,
    pub attributes: Option<Vec<(Frame<'a>, Frame<'a>)>>,
}

impl<'a> View for Level<'a> {
    type V = LevelView;

    open spec fn view(&self) -> LevelView {
        LevelView {
            group: self.group,
            items: views(self.items@),
            pending: self.pending as nat,
            attributes: option_views(self.attributes),
        }
    }
}

/// The groups that are open, outermost first, as plain values.
pub open spec fn levels(stack: Seq<Level>) -> Seq<LevelView> {
    Seq::new(stack.len(), |i: int| stack[i]@)
}

fn parse_boolean<'a>(data: &'a [u8], attributes: Option<Vec<(Frame<'a>, Frame<'a>)>>) -> (r: Result<
    Frame<'a>,
    Error,
>)
    ensures
        r matches Ok(f) ==> f == (Frame::Boolean { data: data@[0] == LETTER_T, attributes }),
        r is Ok <==> data@.len() == 1 && (data@[0] == LETTER_T || data@[0] == LETTER_F),
        r is Err ==> r == Err::<Frame, Error>(Error::InvalidBoolean),
{
    if data.len() != 1 {
        return Err(Error::InvalidBoolean);
    }
    if data[0] == LETTER_T {
        Ok(Frame::Boolean { data: true, attributes })
    } else if data[0] == LETTER_F {
        Ok(Frame::Boolean { data: false, attributes })
    } else {
        Err(Error::InvalidBoolean)
    }
}

fn parse_verbatim_string<'a>(data: &'a [u8], attributes: Option<Vec<(Frame<'a>, Frame<'a>)>>) -> (r:
    Result<Frame<'a>, Error>)
    ensures
        r is Ok <==> data@.len() >= 4 && data@[3] == COLON,
        r matches Ok(f) ==> f matches Frame::VerbatimString { data: d, attributes: a } && a
            == attributes && d.0@ == data@.subrange(0, 3) && d.1@ == data@.subrange(
            4,
            data@.len() as int,
        ),
        r is Err ==> r == Err::<Frame, Error>(Error::Unknown),
{
    if data.len() < 4 || data[3] != COLON {
        return Err(Error::Unknown);
    }
    let format: [u8; 3] = [data[0], data[1], data[2]];
    let text = slice_subrange(data, 4, data.len());
    assert(format@ =~= data@.subrange(0, 3));
    Ok(Frame::VerbatimString { data: (format, text), attributes })
}

/// The frame that a leaf token stands for, with `attributes` attached.
fn parse_leaf<'a>(input: &'a [u8], t: Tag, attributes: Option<Vec<(Frame<'a>, Frame<'a>)>>) -> (r:
    Result<Frame<'a>, Error>)
    requires
        t.start_position <= t.end_position <= input@.len(),
    ensures
        match leaf(input@, t, option_views(attributes)) {
            Ok(f) => r matches Ok(g) && g@ == f,
            Err(e) => r == Err::<Frame, Error>(e),
        },
{
    let data = slice_subrange(input, t.start_position, t.end_position);
    let r = match t.tag_type {
        TagType::SimpleString => Ok(Frame::SimpleString { data, attributes }),
        TagType::SimpleError => Ok(Frame::SimpleError { data, attributes }),
        TagType::Double => Ok(Frame::Double { data, attributes }),
        TagType::BigNumber => Ok(Frame::BigNumber { data, attributes }),
        TagType::BulkString => Ok(Frame::BulkString { data, attributes }),
        TagType::BulkError => Ok(Frame::BulkError { data, attributes }),
        TagType::Null => Ok(Frame::Null { data: () }),
        TagType::Boolean => parse_boolean(data, attributes),
        TagType::Integer => match parse_i64(data) {
            Ok(n) => Ok(Frame::Integer { data: n, attributes }),
            Err(e) => Err(Error::SyntaxLen(e)),
        },
        TagType::VerbatimString => parse_verbatim_string(data, attributes),
        _ => Err(Error::Unknown),
    };
    proof {
        if r is Ok {
            lemma_view(r->Ok_0);
        }
    }
    r
}

/// The frame that the members of a group make.
fn build<'a>(
    group: Group,
    items: Vec<Frame<'a>>,
    attributes: Option<Vec<(Frame<'a>, Frame<'a>)>>,
) -> (f: Frame<'a>)
    ensures
        f@ == assemble(group, views(items@), option_views(attributes)),
{
    let f = match group {
        Group::Array => Frame::Array { data: items, attributes },
        Group::Push => Frame::Push { data: items },
        Group::SetFrame => Frame::SetFrame { data: distinct_frames(items), attributes },
        Group::MapFrame => Frame::MapFrame { data: entries_of(items), attributes },
        Group::Attributes => Frame::Null { data: () },
    };
    proof {
        lemma_view(f);
    }
    f
}

/// Why `frame` cannot be the next member of `parent`, if it cannot.
fn refuses(parent: &Level, frame: &Frame) -> (r: Option<Error>)
    ensures
        r == refusal(parent.group, parent.items@.len() as int, frame@),
{
    proof {
        lemma_view(*frame);
    }
    let aggregate = match frame {
        Frame::MapFrame { .. } => true,
        Frame::SetFrame { .. } => true,
        Frame::Push { .. } => true,
        _ => false,
    };
    match parent.group {
        Group::SetFrame => if aggregate {
            Some(Error::InvalidSet)
        } else {
            None
        },
        Group::MapFrame | Group::Attributes => if parent.items.len() % 2 == 0 && aggregate {
            Some(Error::InvalidMap)
        } else {
            None
        },
        _ => None,
    }
}

/// The group that a token opens, and the number of its members.
fn opened(tag_type: TagType) -> (r: Option<(Group, u128)>)
    ensures
        match opens(tag_type) {
            Some((group, count)) => r == Some((group, count as u128)) && count <= u128::MAX,
            None => r is None,
        },
{
    match tag_type {
        TagType::Array(n) => Some((Group::Array, n as u128)),
        TagType::Push(n) => Some((Group::Push, n as u128)),
        TagType::SetFrame(n) => Some((Group::SetFrame, n as u128)),
        TagType::MapFrame(n) => Some((Group::MapFrame, 2 * (n as u128))),
        TagType::Attribute(n) => Some((Group::Attributes, 2 * (n as u128))),
        _ => None,
    }
}

/// Builds frames from the tokens of a buffer.
#[derive(Debug)]
pub struct Ast<'a> {
    input: &'a [u8],
    lexer: Lexer<'a>,
}

impl<'a> Ast<'a> {
    /// The bytes that are read.
    pub closed spec fn input(&self) -> Seq<u8> {
        self.lexer.input()
    }

    /// The place just after the last frame that was handed out.
    pub closed spec fn position(&self) -> int {
        self.lexer.position()
    }

    /// The position lies inside the input.
    pub closed spec fn wf(&self) -> bool {
        &&& self.lexer.wf()
        &&& self.input@ == self.lexer.input()
        &&& 0 <= self.lexer.position() <= self.lexer.input().len() <= usize::MAX
    }

    /// A builder at the start of `input`.
    pub fn new(input: &'a [u8]) -> (ast: Self)
        ensures
            ast.wf(),
            ast.input() == input@,
            ast.position() == 0,
    {
        let _ = input.len();
        Ast { input, lexer: Lexer::new(input) }
    }

    /// The number of bytes taken by the frames handed out so far.
    pub fn remaining(&self) -> (n: usize)
        ensures
            n == self.position(),
    {
        self.lexer.remaining()
    }

    /// Reads the next frame. The builder moves past the frame where there
    /// is one, and stays where it is otherwise.
    pub fn next(&mut self) -> (r: Option<Result<Frame<'a>, Error>>)
        requires
            old(self).wf(),
        ensures
            final(self).wf(),
            final(self).input() == old(self).input(),
            match frame_at(old(self).input(), old(self).position(), false) {
                None => r is None && final(self).position() == old(self).position(),
                Some(Err(e)) => r == Some(Err::<Frame, Error>(e))
                    && final(self).position() == old(self).position(),
                Some(Ok((frame, next))) => r matches Some(Ok(f)) && f@ == frame
                    && final(self).position() == next,
            },
    {
        self.next_frame()
    }

    fn next_frame(&mut self) -> (r: Option<Result<Frame<'a>, Error>>)
        requires
            old(self).wf(),
        ensures
            final(self).wf(),
            final(self).input() == old(self).input(),
            match frame_at(old(self).input(), old(self).position(), false) {
                None => r is None && final(self).position() == old(self).position(),
                Some(Err(e)) => r == Some(Err::<Frame, Error>(e))
                    && final(self).position() == old(self).position(),
                Some(Ok((frame, next))) => r matches Some(Ok(f)) && f@ == frame
                    && final(self).position() == next,
            },
    {
        let start = self.lexer.remaining();
        proof {
            lemma_token_bounds(self.lexer.input(), start as int);
        }
        match self.lexer.next() {
            None => None,
            Some(Err(e)) => Some(Err(e)),
            Some(Ok(t)) => match opened(t.tag_type) {
                None => match parse_leaf(self.input, t, None) {
                    Ok(f) => Some(Ok(f)),
                    Err(e) => {
                        self.lexer.rewind(start);
                        Some(Err(e))
                    },
                },
                Some((group, count)) => match self.parse_group(group, count) {
                    Ok(f) => Some(Ok(f)),
                    Err(e) => {
                        self.lexer.rewind(start);
                        Some(Err(e))
                    },
                },
            },
        }
    }

    /// Reads the frame that a group comes to whose opening token was just
    /// read, with a stack of the groups that are open in place of a call for
    /// each: nesting costs memory, and no depth of calls.
    #[verifier::rlimit(40)]
    fn parse_group(&mut self, group: Group, count: u128) -> (r: Result<Frame<'a>, Error>)
        requires
            old(self).wf(),
        ensures
            final(self).wf(),
            final(self).input() == old(self).input(),
            match group_at(
                old(self).input(),
                old(self).position(),
                group,
                Seq::empty(),
                count as nat,
                None,
            ) {
                Err(e) => r == Err::<Frame, Error>(e),
                Ok((f, end)) => r matches Ok(g) && g@ == f && final(self).position() == end,
            },
    {
        let input: &'a [u8] = self.input;
        let ghost s = self.lexer.input();
        let ghost goal = group_at(s, self.lexer.position(), group, Seq::empty(), count as nat, None);
        let mut stack: Vec<Level<'a>> = Vec::new();
        let mut kind = group;
        let mut items: Vec<Frame<'a>> = Vec::new();
        let mut pending: u128 = count;
        let mut attributes: Option<Vec<(Frame<'a>, Frame<'a>)>> = None;
        proof {
            assert(views(items@) =~= Seq::empty());
            assert(levels(stack@) =~= Seq::empty());
        }
        loop
            invariant
                self.lexer.wf(),
                self.lexer.input() == s,
                self.input == input,
                input@ == s,
                0 <= self.lexer.position() <= s.len() <= usize::MAX,
                s == old(self).input(),
                goal == group_at(
                    old(self).input(),
                    old(self).position(),
                    group,
                    Seq::empty(),
                    count as nat,
                    None,
                ),
                forall|i: int| 0 <= i < stack@.len() ==> (#[trigger] stack@[i]).pending >= 1,
                resume(
                    s,
                    levels(stack@),
                    LevelView {
                        group: kind,
                        items: views(items@),
                        pending: pending as nat,
                        attributes: option_views(attributes),
                    },
                    self.lexer.position(),
                ) == goal,
            decreases s.len() - self.lexer.position(), stack@.len(),
        {
            let ghost outer = levels(stack@);
            let ghost inner = LevelView {
                group: kind,
                items: views(items@),
                pending: pending as nat,
                attributes: option_views(attributes),
            };
            let ghost pos = self.lexer.position();
            proof {
                lemma_token_bounds(s, pos);
            }
            if pending == 0 {
                proof {
                    assert(inner.items + Seq::<FrameView>::empty() =~= inner.items);
                }
                let frame = match kind {
                    Group::Attributes => {
                        let entries = entries_of(items);
                        match self.lexer.next() {
                            None => {
                                return Err(Error::NotComplete);
                            },
                            Some(Err(e)) => {
                                return Err(e);
                            },
                            Some(Ok(t)) => match t.tag_type {
                                TagType::Array(n) => {
                                    kind = Group::Array;
                                    items = Vec::new();
                                    pending = n as u128;
                                    attributes = Some(entries);
                                    proof {
                                        assert(views(items@) =~= Seq::empty());
                                    }
                                    continue ;
                                },
                                TagType::Null => {
                                    return Err(Error::Unknown);
                                },
                                TagType::MapFrame(_) => {
                                    return Err(Error::Unknown);
                                },
                                TagType::SetFrame(_) => {
                                    return Err(Error::Unknown);
                                },
                                TagType::Push(_) => {
                                    return Err(Error::Unknown);
                                },
                                TagType::Attribute(_) => {
                                    return Err(Error::Unknown);
                                },
                                _ => match parse_leaf(input, t, Some(entries)) {
                                    Err(e) => {
                                        return Err(e);
                                    },
                                    Ok(f) => f,
                                },
                            },
                        }
                    },
                    _ => build(kind, items, attributes),
                };
                assert(deliver(s, outer, frame@, self.lexer.position()) == goal);
                match stack.pop() {
                    None => {
                        return Ok(frame);
                    },
                    Some(parent) => {
                        proof {
                            assert(outer.last() == parent@);
                            assert(outer.drop_last() =~= levels(stack@));
                        }
                        match refuses(&parent, &frame) {
                            Some(e) => {
                                return Err(e);
                            },
                            None => {},
                        }
                        let Level { group: g, items: mut above, pending: left, attributes: a } =
                            parent;
                        let ghost before = above@;
                        above.push(frame);
                        proof {
                            assert(views(above@) =~= views(before).push(frame@));
                        }
                        kind = g;
                        items = above;
                        pending = left - 1;
                        attributes = a;
                        continue ;
                    },
                }
            }
            proof {
                lemma_resume_step(s, outer, inner, pos);
            }
            let ghost before = items@;
            match self.lexer.next() {
                None => {
                    return Err(Error::NotComplete);
                },
                Some(Err(e)) => {
                    return Err(e);
                },
                Some(Ok(t)) => match opened(t.tag_type) {
                    None => match parse_leaf(input, t, None) {
                        Err(e) => {
                            return Err(e);
                        },
                        Ok(f) => {
                            proof {
                                lemma_leaf_plain(s, t, None);
                                assert(outer.push(inner).last() == inner);
                                assert(outer.push(inner).drop_last() =~= outer);
                            }
                            items.push(f);
                            pending = pending - 1;
                            proof {
                                assert(views(items@) =~= views(before).push(f@));
                            }
                        },
                    },
                    Some((opening, members)) => {
                        if let Group::Attributes = kind {
                            if let Group::Attributes = opening {
                                return Err(Error::Unknown);
                            }
                        }
                        stack.push(Level { group: kind, items, pending, attributes });
                        proof {
                            assert(levels(stack@) =~= outer.push(inner));
                        }
                        kind = opening;
                        items = Vec::new();
                        pending = members;
                        attributes = None;
                        proof {
                            assert(views(items@) =~= Seq::empty());
                        }
                    },
                },
            }
        }
    }
}

} // verus!
