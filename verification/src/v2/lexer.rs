use crate::common::error::Error;
use crate::common::mark::{COLON, DOLLAR, MINUS, PLUS, STAR};
use crate::common::scan::{lemma_line_end, line_end, next_line_end, payload_at, read_payload};
use crate::common::text::{parse_i64, parsed_i64};
use crate::v2::tag::{Tag, TagView};
use vstd::prelude::*;
use vstd::slice::slice_subrange;

verus! {

/// The token that starts at `pos` with the place after it: `None` where the
/// input ends before the token does, an error where the token is malformed.
pub open spec fn token_at(s: Seq<u8>, pos: int) -> Option<Result<(TagView, int), Error>> {
    match line_end(s, pos) {
        None => None,
        Some(end) => {
            let rest = s.subrange(pos + 1, end);
            if end == pos {
                Some(Err(Error::Unknown))
            } else if s[pos] == PLUS {
                Some(Ok((TagView::SimpleString(rest), end + 2)))
            } else if s[pos] == MINUS {
                Some(Ok((TagView::SimpleError(rest), end + 2)))
            } else if s[pos] == COLON {
                match parsed_i64(rest) {
                    Ok(n) => Some(Ok((TagView::Integer(n), end + 2))),
                    Err(e) => Some(Err(Error::SyntaxLen(e))),
                }
            } else if s[pos] == DOLLAR {
                match parsed_i64(rest) {
                    Ok(n) => if n == -1 {
                        Some(Ok((TagView::Null, end + 2)))
                    } else {
                        match payload_at(s, end + 2, n as int, Error::InvalidBulkString) {
                            None => None,
                            Some(Err(e)) => Some(Err(e)),
                            Some(Ok((data, next))) => Some(Ok((TagView::BulkString(data), next))),
                        }
                    },
                    Err(e) => Some(Err(Error::SyntaxLen(e))),
                }
            } else if s[pos] == STAR {
                match parsed_i64(rest) {
                    Ok(n) => if n == -1 {
                        Some(Ok((TagView::Null, end + 2)))
                    } else if n < 0 {
                        Some(Err(Error::InvalidArray))
                    } else {
                        Some(Ok((TagView::Array(n as u64), end + 2)))
                    },
                    Err(e) => Some(Err(Error::SyntaxLen(e))),
                }
            } else {
                Some(Err(Error::Unknown))
            }
        },
    }
}

/// A token ends after the place where it starts, and inside the input.
pub proof fn lemma_token_bounds(s: Seq<u8>, pos: int)
    requires
        0 <= pos,
    ensures
        token_at(s, pos) matches Some(Ok((_, next))) ==> pos + 2 <= next <= s.len(),
{
    lemma_line_end(s, pos);
    if let Some(end) = line_end(s, pos) {
        lemma_line_end(s, end + 2);
    }
}

/// Reads tokens from a buffer, one after the other.
#[derive(Debug)]
pub struct Lexer<'a> {
    input: &'a [u8],
    last_position: usize,
}

impl<'a> Lexer<'a> {
    /// The bytes that the lexer reads.
    pub closed spec fn input(&self) -> Seq<u8> {
        self.input@
    }

    /// The place just after the last token that was handed out.
    pub closed spec fn position(&self) -> int {
        self.last_position as int
    }

    /// The position lies inside the input.
    pub closed spec fn wf(&self) -> bool {
        self.last_position <= self.input@.len()
    }

    /// A lexer at the start of `input`.
    pub fn new(input: &'a [u8]) -> (lexer: Self)
        ensures
            lexer.wf(),
            lexer.input() == input@,
            lexer.position() == 0,
    {
        Lexer { input, last_position: 0 }
    }

    /// The number of bytes taken so far.
    pub fn remaining(&self) -> (n: usize)
        ensures
            n == self.position(),
    {
        self.last_position
    }

    /// Moves the lexer to `position`.
    pub(crate) fn rewind(&mut self, position: usize)
        requires
            position <= old(self).input().len(),
        ensures
            final(self).wf(),
            final(self).input() == old(self).input(),
            final(self).position() == position,
    {
        self.last_position = position;
    }

    /// Reads the next token. The lexer moves past the token where there is
    /// one, and stays where it is otherwise.
    pub fn next(&mut self) -> (r: Option<Result<Tag<'a>, Error>>)
        requires
            old(self).wf(),
        ensures
            final(self).wf(),
            final(self).input() == old(self).input(),
            match token_at(old(self).input(), old(self).position()) {
                None => r is None && final(self).position() == old(self).position(),
                Some(Err(e)) => r == Some(Err::<Tag, Error>(e))
                    && final(self).position() == old(self).position(),
                Some(Ok((tag, next))) => r matches Some(Ok(t)) && t@ == tag
                    && final(self).position() == next,
            },
    {
        let input: &'a [u8] = self.input;
        let start = self.last_position;
        let end = match next_line_end(input, start) {
            None => {
                return None;
            },
            Some(end) => end,
        };
        proof {
            lemma_line_end(input@, start as int);
            lemma_line_end(input@, end + 2);
        }
        if end == start {
            return Some(Err(Error::Unknown));
        }
        let first = input[start];
        let rest = slice_subrange(input, start + 1, end);
        if first == PLUS {
            self.last_position = end + 2;
            Some(Ok(Tag::SimpleString(rest)))
        } else if first == MINUS {
            self.last_position = end + 2;
            Some(Ok(Tag::SimpleError(rest)))
        } else if first == COLON {
            match parse_i64(rest) {
                Ok(n) => {
                    self.last_position = end + 2;
                    Some(Ok(Tag::Integer(n)))
                },
                Err(e) => Some(Err(Error::SyntaxLen(e))),
            }
        } else if first == DOLLAR {
            match parse_i64(rest) {
                Ok(n) => {
                    if n == -1 {
                        self.last_position = end + 2;
                        Some(Ok(Tag::Null))
                    } else if n < 0 {
                        match next_line_end(input, end + 2) {
                            None => None,
                            Some(_) => Some(Err(Error::InvalidBulkString)),
                        }
                    } else {
                        match read_payload(input, end + 2, n as u64, Error::InvalidBulkString) {
                            None => None,
                            Some(Err(e)) => Some(Err(e)),
                            Some(Ok((data, next))) => {
                                self.last_position = next;
                                Some(Ok(Tag::BulkString(data)))
                            },
                        }
                    }
                },
                Err(e) => Some(Err(Error::SyntaxLen(e))),
            }
        } else if first == STAR {
            match parse_i64(rest) {
                Ok(n) => {
                    if n == -1 {
                        self.last_position = end + 2;
                        Some(Ok(Tag::Null))
                    } else if n < 0 {
                        Some(Err(Error::InvalidArray))
                    } else {
                        self.last_position = end + 2;
                        Some(Ok(Tag::Array(n as u64)))
                    }
                },
                Err(e) => Some(Err(Error::SyntaxLen(e))),
            }
        } else {
            Some(Err(Error::Unknown))
        }
    }
}

} // verus!
