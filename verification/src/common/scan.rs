use crate::common::error::Error;
use vstd::prelude::*;
use vstd::slice::slice_subrange;

verus! {

/// The carriage return, the first byte of a line's end.
pub const CR: u8 = 13;

/// The line feed, the second byte of a line's end.
pub const LF: u8 = 10;

/// `i` is where a line of `s` ends: a carriage return stands at `i` and a
/// line feed right after it.
pub open spec fn is_line_end(s: Seq<u8>, i: int) -> bool {
    0 <= i && i + 1 < s.len() && s[i] == CR && s[i + 1] == LF
}

/// The first line end of `s` at or after `from`, if there is one. A carriage
/// return that no line feed follows is passed over.
pub open spec fn line_end(s: Seq<u8>, from: int) -> Option<int>
    decreases s.len() - from,
{
    if from < 0 || from + 1 >= s.len() {
        None
    } else if s[from] == CR && s[from + 1] == LF {
        Some(from)
    } else {
        line_end(s, from + 1)
    }
}

/// `line_end` returns the least line end at or after `from`, and `None` only
/// where there is none.
pub proof fn lemma_line_end(s: Seq<u8>, from: int)
    requires
        0 <= from,
    ensures
        match line_end(s, from) {
            Some(e) => from <= e && is_line_end(s, e) && forall|j: int|
                from <= j < e ==> !is_line_end(s, j),
            None => forall|j: int| from <= j ==> !is_line_end(s, j),
        },
    decreases s.len() - from,
{
    if from + 1 >= s.len() {
    } else if s[from] == CR && s[from + 1] == LF {
    } else {
        lemma_line_end(s, from + 1);
    }
}

/// Where no carriage return stands in `from..to`, the search from `from`
/// finds what the search from `to` finds.
pub proof fn lemma_line_end_skip(s: Seq<u8>, from: int, to: int)
    requires
        0 <= from <= to,
        forall|j: int| from <= j < to && j < s.len() ==> s[j] != CR,
    ensures
        line_end(s, from) == line_end(s, to),
    decreases to - from,
{
    if from < to {
        lemma_line_end_skip(s, from + 1, to);
        if from + 1 >= s.len() {
            assert(line_end(s, to) is None);
        }
    }
}

/// Calls `memchr::memchr`. The contract claims what its documentation
/// promises: the index of the first byte of `haystack` equal to `needle`, or
/// `None` where no byte is.
#[verifier::external_body]
fn first_byte(needle: u8, haystack: &[u8]) -> (r: Option<usize>)
    ensures
        match r {
            Some(i) => i < haystack@.len() && haystack@[i as int] == needle && forall|j: int|
                0 <= j < i ==> haystack@[j] != needle,
            None => forall|j: int| 0 <= j < haystack@.len() ==> haystack@[j] != needle,
        },
{
    memchr::memchr(needle, haystack)
}

/// Finds the end of the line that starts at `from`.
pub fn next_line_end(input: &[u8], from: usize) -> (r: Option<usize>)
    requires
        from <= input@.len(),
    ensures
        match r {
            Some(e) => line_end(input@, from as int) == Some(e as int),
            None => line_end(input@, from as int) is None,
        },
{
    let len = input.len();
    let mut at: usize = from;
    while at < len
        invariant
            from <= at <= len,
            len == input@.len(),
            line_end(input@, from as int) == line_end(input@, at as int),
        decreases len - at,
    {
        let rest = slice_subrange(input, at, len);
        match first_byte(CR, rest) {
            None => {
                proof {
                    assert forall|j: int| at <= j < len implies input@[j] != CR by {
                        assert(rest@[j - at] == input@[j]);
                    }
                    lemma_line_end_skip(input@, at as int, len as int);
                }
                return None;
            },
            Some(off) => {
                let cr: usize = at + off;
                proof {
                    assert forall|j: int| at <= j < cr implies input@[j] != CR by {
                        assert(rest@[j - at] == input@[j]);
                    }
                    assert(rest@[off as int] == input@[cr as int]);
                    lemma_line_end_skip(input@, at as int, cr as int);
                }
                if cr + 1 < len && input[cr + 1] == LF {
                    return Some(cr);
                }
                at = cr + 1;
            },
        }
    }
    None
}

/// The payload of a length-prefixed frame whose payload line starts at
/// `start`: the first `len` bytes of that line and the place after the line.
/// `None` where the line has no end yet; `short` where the line holds fewer
/// than `len` bytes, or `len` is negative.
pub open spec fn payload_at(s: Seq<u8>, start: int, len: int, short: Error) -> Option<
    Result<(Seq<u8>, int), Error>,
> {
    match line_end(s, start) {
        None => None,
        Some(end) => if len < 0 || len > end - start {
            Some(Err(short))
        } else {
            Some(Ok((s.subrange(start, start + len), end + 2)))
        },
    }
}

/// Reads the payload line that starts at `start` and hands out its first
/// `len` bytes with the place after the line.
pub fn read_payload<'a>(input: &'a [u8], start: usize, len: u64, short: Error) -> (r: Option<
    Result<(&'a [u8], usize), Error>,
>)
    requires
        start <= input@.len(),
    ensures
        match payload_at(input@, start as int, len as int, short) {
            None => r is None,
            Some(Err(e)) => r == Some(Err::<(&[u8], usize), Error>(e)),
            Some(Ok((data, next))) => r matches Some(Ok(got)) && got.0@ == data && got.1 == next,
        },
{
    match next_line_end(input, start) {
        None => None,
        Some(end) => {
            proof {
                lemma_line_end(input@, start as int);
            }
            assert(end + 1 < input.len());
            let room: usize = end - start;
            if len > room as u64 {
                Some(Err(short))
            } else {
                let n: usize = len as usize;
                Some(Ok((slice_subrange(input, start, start + n), end + 2)))
            }
        },
    }
}

} // verus!
