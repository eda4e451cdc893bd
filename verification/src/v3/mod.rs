pub mod ast;
pub mod convert;
pub mod equal;
pub mod frame;
pub mod grammar;
pub mod laws;
pub mod lexer;
pub mod members;
pub mod round;
pub mod shape;
pub mod tag;
pub mod wire;

pub use ast::Ast;
pub use frame::{Body, Frame, FrameView};
pub use lexer::Lexer;
pub use tag::{Tag, TagType};

use crate::common::{EncodeWithWriter, Encoder, Error, ParseIter, Parser, Remaining};
use crate::v3::grammar::frame_at;
use crate::v3::wire::encoding;
use vstd::prelude::*;

verus! {

/// The extended revision of the protocol.
pub struct V3;

/// Hands out the frames of a buffer one after the other. After an error it
/// hands out nothing more.
pub struct DecodeIter<'a> {
    ast: Ast<'a>,
    halted: bool,
}

impl<'a> DecodeIter<'a> {
    /// The bytes that are read.
    pub closed spec fn input(&self) -> Seq<u8> {
        self.ast.input()
    }

    /// The place just after the last frame that was handed out.
    pub closed spec fn position(&self) -> int {
        self.ast.position()
    }

    /// Whether an error was handed out.
    pub closed spec fn halted(&self) -> bool {
        self.halted
    }

    /// The position lies inside the input.
    pub closed spec fn wf(&self) -> bool {
        self.ast.wf()
    }

    /// Reads the next frame. The reader moves past the frame where there is
    /// one, and stays where it is otherwise: `None` where the buffer does not
    /// hold the start of another frame, or an error was handed out before.
    pub fn next(&mut self) -> (r: Option<Result<Frame<'a>, Error>>)
        requires
            old(self).wf(),
        ensures
            final(self).wf(),
            final(self).input() == old(self).input(),
            old(self).halted() ==> r is None && final(self).halted()
                && final(self).position() == old(self).position(),
            !old(self).halted() ==> match frame_at(old(self).input(), old(self).position(), false) {
                None => r is None && !final(self).halted()
                    && final(self).position() == old(self).position(),
                Some(Err(e)) => r == Some(Err::<Frame, Error>(e)) && final(self).halted()
                    && final(self).position() == old(self).position(),
                Some(Ok((frame, next))) => r matches Some(Ok(f)) && f@ == frame
                    && !final(self).halted() && final(self).position() == next,
            },
    {
        if self.halted {
            return None;
        }
        let r = self.ast.next();
        if let Some(Err(_)) = &r {
            self.halted = true;
        }
        r
    }
}

impl<'a> Remaining for DecodeIter<'a> {
    open spec fn consumed(&self) -> nat {
        self.position() as nat
    }

    fn remaining(&self) -> (n: usize) {
        self.ast.remaining()
    }
}

impl<'a> Parser<'a> for V3 {
    type Frame = (Frame<'a>, usize);

    open spec fn parses(input: Seq<u8>, result: Result<Option<(Frame<'a>, usize)>, Error>) -> bool {
        match frame_at(input, 0, false) {
            None => result == Ok::<Option<(Frame<'a>, usize)>, Error>(None),
            Some(Err(e)) => result == Err::<Option<(Frame<'a>, usize)>, Error>(e),
            Some(Ok((frame, next))) => result matches Ok(Some(got)) && got.0@ == frame && got.1
                == next,
        }
    }

    fn parse(input: &'a [u8]) -> (r: Result<Option<(Frame<'a>, usize)>, Error>) {
        let mut ast = Ast::new(input);
        match ast.next() {
            None => Ok(None),
            Some(Err(e)) => Err(e),
            Some(Ok(frame)) => {
                let remaining = ast.remaining();
                Ok(Some((frame, remaining)))
            },
        }
    }
}

impl<'a> ParseIter<'a> for V3 {
    type Iter = DecodeIter<'a>;

    open spec fn starts(input: Seq<u8>, iter: DecodeIter<'a>) -> bool {
        iter.wf() && iter.input() == input && iter.position() == 0 && !iter.halted()
    }

    fn parse_iter(input: &'a [u8]) -> (iter: DecodeIter<'a>) {
        DecodeIter { ast: Ast::new(input), halted: false }
    }
}

impl<'a> Encoder<'a> for V3 {
    type Frame = Frame<'a>;

    type Item = Vec<u8>;

    open spec fn encodes(frame: Frame<'a>, result: Result<Vec<u8>, Error>) -> bool {
        result matches Ok(bytes) && bytes@ == encoding(frame@)
    }

    fn encode(frame: Frame<'a>) -> (r: Result<Vec<u8>, Error>) {
        Ok(frame.encode())
    }
}

impl<'a> EncodeWithWriter<'a> for V3 {
    type Frame = Frame<'a>;

    open spec fn written(frame: Frame<'a>) -> Seq<u8> {
        encoding(frame@)
    }

    fn encode_with_writer(frame: Frame<'a>, writer: &mut Vec<u8>) -> (r: Result<(), Error>) {
        frame.encode_with_writer(writer)
    }
}

} // verus!
