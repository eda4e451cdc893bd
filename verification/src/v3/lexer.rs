use crate::common::error::Error;
use crate::common::mark::{
    BANG, COLON, COMMA, DOLLAR, EQUALS, GREATER, HASH, MINUS, PAREN, PERCENT, PIPE, PLUS, STAR,
    TILDE, UNDERSCORE,
};
use crate::common::scan::{lemma_line_end, line_end, next_line_end, payload_at, read_payload};
use crate::common::text::{parse_i64, parse_u64, parsed_i64, parsed_u64};
use crate::v3::tag::{Tag, TagType};
use vstd::prelude::*;
use vstd::slice::slice_subrange;

verus! {

/// A token of kind `tag_type` over the range from `start` to `end`.
pub open spec fn tag(tag_type: TagType, start: int, end: int) -> Tag {
    Tag { start_position: start as usize, end_position: end as usize, tag_type }
}

/// The token of a line whose first byte alone decides its kind, if `first`
/// is such a byte.
pub open spec fn plain_kind(first: u8) -> Option<TagType> {
    if first == PLUS {
        Some(TagType::SimpleString)
    } else if first == MINUS {
        Some(TagType::SimpleError)
    } else if first == COLON {
        Some(TagType::Integer)
    } else if first == UNDERSCORE {
        Some(TagType::Null)
    } else if first == HASH {
        Some(TagType::Boolean)
    } else if first == COMMA {
        Some(TagType::Double)
    } else if first == PAREN {
        Some(TagType::BigNumber)
    } else {
        None
    }
}

/// The kind of a token that opens a group of `count` members, if `first` is
/// a byte that opens one with an unsigned count.
pub open spec fn group_kind(first: u8, count: u64) -> Option<TagType> {
    if first == TILDE {
        Some(TagType::SetFrame(count))
    } else if first == PERCENT {
        Some(TagType::MapFrame(count))
    } else if first == GREATER {
        Some(TagType::Push(count))
    } else if first == PIPE {
        Some(TagType::Attribute(count))
    } else {
        None
    }
}

/// The token whose payload line starts at `start` and is announced with
/// `len` bytes.
pub open spec fn payload_token(s: Seq<u8>, start: int, len: int, tag_type: TagType, short: Error)
    -> Option<Result<(Tag, int), Error>> {
    match payload_at(s, start, len, short) {
        None => None,
        Some(Err(e)) => Some(Err(e)),
        Some(Ok((_, next))) => Some(Ok((tag(tag_type, start, start + len), next))),
    }
}

/// The token that starts at `pos` with the place after it: `None` where the
/// input ends before the token does, an error where the token is malformed.
pub open spec fn token_at(s: Seq<u8>, pos: int) -> Option<Result<(Tag, int), Error>> {
    match line_end(s, pos) {
        None => None,
        Some(end) => {
            let first = s[pos];
            let text = s.subrange(pos + 1, end);
            if end == pos {
                Some(Err(Error::Unknown))
            } else if plain_kind(first) is Some {
                Some(Ok((tag(plain_kind(first).unwrap(), pos + 1, end), end + 2)))
            } else if first == DOLLAR {
                match parsed_i64(text) {
                    Ok(n) => if n == -1 {
                        Some(Ok((tag(TagType::Null, pos + 1, end), end + 2)))
                    } else {
                        payload_token(
                            s,
                            end + 2,
                            n as int,
                            TagType::BulkString,
                            Error::InvalidBulkString,
                        )
                    },
                    Err(e) => Some(Err(Error::SyntaxLen(e))),
                }
            } else if first == STAR {
                match parsed_i64(text) {
                    Ok(n) => if n == -1 {
                        Some(Ok((tag(TagType::Null, pos + 1, end), end + 2)))
                    } else if n < 0 {
                        Some(Err(Error::InvalidArray))
                    } else {
                        Some(Ok((tag(TagType::Array(n as u64), pos + 1, end), end + 2)))
                    },
                    Err(e) => Some(Err(Error::SyntaxLen(e))),
                }
            } else if first == BANG || first == EQUALS {
                match parsed_u64(text) {
                    Ok(n) => payload_token(
                        s,
                        end + 2,
                        n as int,
                        if first == BANG {
                            TagType::BulkError
                        } else {
                            TagType::VerbatimString
                        },
                        Error::InvalidError,
                    ),
                    Err(e) => Some(Err(Error::SyntaxLen(e))),
                }
            } else if group_kind(first, 0) is Some {
                match parsed_u64(text) {
                    Ok(n) => Some(Ok((tag(group_kind(first, n).unwrap(), pos + 1, end), end + 2))),
                    Err(e) => Some(Err(Error::SyntaxLen(e))),
                }
            } else {
                Some(Err(Error::Unknown))
            }
        },
    }
}

/// A token ends after the place where it starts, and inside the input; its
/// range lies inside the input and before the place after the token.
pub proof fn lemma_token_bounds(s: Seq<u8>, pos: int)
    requires
        0 <= pos,
        s.len() <= usize::MAX,
    ensures
        token_at(s, pos) matches Some(Ok((t, next))) ==> pos + 2 <= next <= s.len() && pos
            < t.start_position <= t.end_position <= next - 2,
{
    lemma_line_end(s, pos);
    if let Some(end) = line_end(s, pos) {
        lemma_line_end(s, end + 2);
    }
}

/// Reads tokens from a buffer, one after the other.
#[derive(Debug)]
pub struct Lexer<'a> {
    input: &'a [u8],
    last_position: usize,
}

impl<'a> Lexer<'a> {
    /// The bytes that the lexer reads.
    pub closed spec fn input(&self) -> Seq<u8> {
        self.input@
    }

    /// The place just after the last token that was handed out.
    pub closed spec fn position(&self) -> int {
        self.last_position as int
    }

    /// The position lies inside the input.
    pub closed spec fn wf(&self) -> bool {
        self.last_position <= self.input@.len()
    }

    /// A lexer at the start of `input`.
    pub fn new(input: &'a [u8]) -> (lexer: Self)
        ensures
            lexer.wf(),
            lexer.input() == input@,
            lexer.position() == 0,
    {
        Lexer { input, last_position: 0 }
    }

    /// The number of bytes taken so far.
    pub fn remaining(&self) -> (n: usize)
        ensures
            n == self.position(),
    {
        self.last_position
    }

    /// Moves the lexer to `position`.
    pub(crate) fn rewind(&mut self, position: usize)
        requires
            position <= old(self).input().len(),
        ensures
            final(self).wf(),
            final(self).input() == old(self).input(),
            final(self).position() == position,
    {
        self.last_position = position;
    }

    /// Reads the next token. The lexer moves past the token where there is
    /// one, and stays where it is otherwise.
    pub fn next(&mut self) -> (r: Option<Result<Tag, Error>>)
        requires
            old(self).wf(),
        ensures
            final(self).wf(),
            final(self).input() == old(self).input(),
            match token_at(old(self).input(), old(self).position()) {
                None => r is None && final(self).position() == old(self).position(),
                Some(Err(e)) => r == Some(Err::<Tag, Error>(e))
                    && final(self).position() == old(self).position(),
                Some(Ok((t, next))) => r == Some(Ok::<Tag, Error>(t))
                    && final(self).position() == next,
            },
    {
        let start = self.last_position;
        let _ = self.input.len();
        proof {
            lemma_token_bounds(self.input@, start as int);
        }
        match self.match_tag(start) {
            None => None,
            Some(Err(e)) => Some(Err(e)),
            Some(Ok((t, next))) => {
                self.last_position = next;
                Some(Ok(t))
            },
        }
    }

    /// Reads the token that starts at `start`, and the place after it.
    fn match_tag(&self, start: usize) -> (r: Option<Result<(Tag, usize), Error>>)
        requires
            start <= self.input().len(),
        ensures
            match token_at(self.input(), start as int) {
                None => r is None,
                Some(Err(e)) => r == Some(Err::<(Tag, usize), Error>(e)),
                Some(Ok((t, next))) => r == Some(Ok::<(Tag, usize), Error>((t, next as usize)))
                    && next <= self.input().len(),
            },
    {
        let input: &'a [u8] = self.input;
        let end = match next_line_end(input, start) {
            None => {
                return None;
            },
            Some(end) => end,
        };
        proof {
            lemma_line_end(input@, start as int);
            lemma_line_end(input@, end + 2);
        }
        assert(end + 1 < input.len());
        if end == start {
            return Some(Err(Error::Unknown));
        }
        let first = input[start];
        let text = slice_subrange(input, start + 1, end);
        let plain = Tag { start_position: start + 1, end_position: end, tag_type: TagType::Null };
        if first == PLUS {
            Some(Ok((Tag { tag_type: TagType::SimpleString, ..plain }, end + 2)))
        } else if first == MINUS {
            Some(Ok((Tag { tag_type: TagType::SimpleError, ..plain }, end + 2)))
        } else if first == COLON {
            Some(Ok((Tag { tag_type: TagType::Integer, ..plain }, end + 2)))
        } else if first == UNDERSCORE {
            Some(Ok((plain, end + 2)))
        } else if first == HASH {
            Some(Ok((Tag { tag_type: TagType::Boolean, ..plain }, end + 2)))
        } else if first == COMMA {
            Some(Ok((Tag { tag_type: TagType::Double, ..plain }, end + 2)))
        } else if first == PAREN {
            Some(Ok((Tag { tag_type: TagType::BigNumber, ..plain }, end + 2)))
        } else if first == DOLLAR {
            match parse_i64(text) {
                Ok(n) => {
                    if n == -1 {
                        Some(Ok((plain, end + 2)))
                    } else if n < 0 {
                        match next_line_end(input, end + 2) {
                            None => None,
                            Some(_) => Some(Err(Error::InvalidBulkString)),
                        }
                    } else {
                        payload_tag(
                            input,
                            end + 2,
                            n as u64,
                            TagType::BulkString,
                            Error::InvalidBulkString,
                        )
                    }
                },
                Err(e) => Some(Err(Error::SyntaxLen(e))),
            }
        } else if first == STAR {
            match parse_i64(text) {
                Ok(n) => {
                    if n == -1 {
                        Some(Ok((plain, end + 2)))
                    } else if n < 0 {
                        Some(Err(Error::InvalidArray))
                    } else {
                        Some(Ok((Tag { tag_type: TagType::Array(n as u64), ..plain }, end + 2)))
                    }
                },
                Err(e) => Some(Err(Error::SyntaxLen(e))),
            }
        } else if first == BANG {
            match parse_u64(text) {
                Ok(n) => payload_tag(input, end + 2, n, TagType::BulkError, Error::InvalidError),
                Err(e) => Some(Err(Error::SyntaxLen(e))),
            }
        } else if first == EQUALS {
            match parse_u64(text) {
                Ok(n) => payload_tag(
                    input,
                    end + 2,
                    n,
                    TagType::VerbatimString,
                    Error::InvalidError,
                ),
                Err(e) => Some(Err(Error::SyntaxLen(e))),
            }
        } else if first == TILDE || first == PERCENT || first == GREATER || first == PIPE {
            match parse_u64(text) {
                Ok(n) => {
                    let tag_type = if first == TILDE {
                        TagType::SetFrame(n)
                    } else if first == PERCENT {
                        TagType::MapFrame(n)
                    } else if first == GREATER {
                        TagType::Push(n)
                    } else {
                        TagType::Attribute(n)
                    };
                    Some(Ok((Tag { tag_type, ..plain }, end + 2)))
                },
                Err(e) => Some(Err(Error::SyntaxLen(e))),
            }
        } else {
            Some(Err(Error::Unknown))
        }
    }
}

/// Reads the payload line that starts at `start` for a token of kind
/// `tag_type` that announces `len` bytes.
fn payload_tag(input: &[u8], start: usize, len: u64, tag_type: TagType, short: Error) -> (r: Option<
    Result<(Tag, usize), Error>,
>)
    requires
        start <= input@.len(),
    ensures
        match payload_token(input@, start as int, len as int, tag_type, short) {
            None => r is None,
            Some(Err(e)) => r == Some(Err::<(Tag, usize), Error>(e)),
            Some(Ok((t, next))) => r == Some(Ok::<(Tag, usize), Error>((t, next as usize)))
                && next <= input@.len(),
        },
{
    proof {
        lemma_line_end(input@, start as int);
    }
    match read_payload(input, start, len, short) {
        None => None,
        Some(Err(e)) => Some(Err(e)),
        Some(Ok((data, next))) => {
            assert(next <= input.len());
            let stop: usize = start + data.len();
            Some(Ok((Tag { start_position: start, end_position: stop, tag_type }, next)))
        },
    }
}

} // verus!
