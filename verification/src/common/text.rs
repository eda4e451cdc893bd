use crate::common::error::NumberError;
use crate::common::mark::MINUS;
use lexical::format::STANDARD;
use vstd::prelude::*;

verus! {

/// The decimal digits of `n`, most significant first, without leading zeros.
pub open spec fn digits(n: nat) -> Seq<u8>
    decreases n,
{
    if n < 10 {
        seq![(48 + n) as u8]
    } else {
        digits(n / 10).push((48 + n % 10) as u8)
    }
}

/// The decimal text of `n`: a minus sign where `n` is negative, then the
/// digits of its magnitude.
pub open spec fn decimal(n: int) -> Seq<u8> {
    if n < 0 {
        seq![MINUS] + digits((-n) as nat)
    } else {
        digits(n as nat)
    }
}

/// What the number parser makes of `text` read as a signed 64-bit integer in
/// base 10: the number, or its report.
pub uninterp spec fn parsed_i64(text: Seq<u8>) -> Result<i64, NumberError>;

/// What the number parser makes of `text` read as an unsigned 64-bit integer
/// in base 10: the number, or its report.
pub uninterp spec fn parsed_u64(text: Seq<u8>) -> Result<u64, NumberError>;

/// Calls `lexical::parse_with_options` for an `i64` in the standard format
/// with default options, and writes the report of a failure as a
/// `NumberError`. The contract names the outcome `parsed_i64` and claims no
/// more than that the same text gives the same outcome.
#[verifier::external_body]
pub(crate) fn parse_i64(text: &[u8]) -> (r: Result<i64, NumberError>)
    ensures
        r == parsed_i64(text@),
{
    let options = lexical::ParseIntegerOptions::new();
    match lexical::parse_with_options::<i64, _, STANDARD>(text, &options) {
        Ok(n) => Ok(n),
        Err(lexical::Error::Overflow(at)) => Err(NumberError::Overflow(at)),
        Err(lexical::Error::Underflow(at)) => Err(NumberError::Underflow(at)),
        Err(lexical::Error::InvalidDigit(at)) => Err(NumberError::InvalidDigit(at)),
        Err(lexical::Error::Empty(at)) => Err(NumberError::Empty(at)),
        Err(_) => Err(NumberError::Other),
    }
}

/// Calls `lexical::parse_with_options` for a `u64` in the standard format
/// with default options, and writes the report of a failure as a
/// `NumberError`. The contract names the outcome `parsed_u64` and claims no
/// more than that the same text gives the same outcome.
#[verifier::external_body]
pub(crate) fn parse_u64(text: &[u8]) -> (r: Result<u64, NumberError>)
    ensures
        r == parsed_u64(text@),
{
    let options = lexical::ParseIntegerOptions::new();
    match lexical::parse_with_options::<u64, _, STANDARD>(text, &options) {
        Ok(n) => Ok(n),
        Err(lexical::Error::Overflow(at)) => Err(NumberError::Overflow(at)),
        Err(lexical::Error::Underflow(at)) => Err(NumberError::Underflow(at)),
        Err(lexical::Error::InvalidDigit(at)) => Err(NumberError::InvalidDigit(at)),
        Err(lexical::Error::Empty(at)) => Err(NumberError::Empty(at)),
        Err(_) => Err(NumberError::Other),
    }
}

/// Calls `lexical::to_string` on an `i128`, the type in which every integer
/// of a frame and every length fit, and hands out the bytes of the string.
/// The contract claims that they are the decimal text of `n`.
#[verifier::external_body]
pub(crate) fn number_text(n: i128) -> (r: Vec<u8>)
    ensures
        r@ == decimal(n as int),
{
    lexical::to_string(n).into_bytes()
}

} // verus!
