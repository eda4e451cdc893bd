use rresp::v2::{Lexer, Tag};
use rresp::{Error, NumberError};

#[test]
fn lexer_test_simple_string() {
    let input = b"+hello\r\n+world\r\n";
    let mut lexer = Lexer::new(input);

    assert_eq!(lexer.next().unwrap(), Ok(Tag::SimpleString(b"hello")));
    assert_eq!(lexer.next().unwrap(), Ok(Tag::SimpleString(b"world")));
}

#[test]
fn test_unknown() {
    let input = b"hello\r\nworld\r\n";
    let mut lexer = Lexer::new(input);

    assert_eq!(lexer.next().unwrap(), Err(Error::Unknown));
    assert_eq!(lexer.next().unwrap(), Err(Error::Unknown));
}

#[test]
fn test_error() {
    let input = b"-error1\r\n-error2\r\n";
    let mut lexer = Lexer::new(input);

    assert_eq!(lexer.next().unwrap(), Ok(Tag::SimpleError(b"error1")));
    assert_eq!(lexer.next().unwrap(), Ok(Tag::SimpleError(b"error2")));
}

#[test]
fn test_blob_string() {
    let input = b"$5\r\nhello\r\n$5\r\nworld\r\n";
    let mut lexer = Lexer::new(input);

    assert_eq!(lexer.next().unwrap(), Ok(Tag::BulkString(b"hello")));
    assert_eq!(lexer.next().unwrap(), Ok(Tag::BulkString(b"world")));

    let input = b"$-1\r\n$5\r\nhello\r\n";
    let mut lexer = Lexer::new(input);
    assert_eq!(lexer.next().unwrap(), Ok(Tag::Null));
    assert_eq!(lexer.next().unwrap(), Ok(Tag::BulkString(b"hello")));

    let input = b"$3.0\r\n";
    let mut lexer = Lexer::new(input);
    assert_eq!(
        lexer.next().unwrap(),
        Err(Error::SyntaxLen(NumberError::InvalidDigit(1)))
    );
}

#[test]
fn test_number() {
    let input = b":1\r\n:-1\r\n:+1\r\n";
    let mut lexer = Lexer::new(input);

    assert_eq!(lexer.next().unwrap(), Ok(Tag::Integer(1)));
    assert_eq!(lexer.next().unwrap(), Ok(Tag::Integer(-1)));
    assert_eq!(lexer.next().unwrap(), Ok(Tag::Integer(1)));
}

#[test]
fn lexer_test_array() {
    let input = b"*1\r\n$5\r\nhello\r\n";
    let mut lexer = Lexer::new(input);

    assert_eq!(lexer.next().unwrap(), Ok(Tag::Array(1)));
    assert_eq!(lexer.next().unwrap(), Ok(Tag::BulkString(b"hello")));

    let input = b"*0\r\n";
    let mut lexer = Lexer::new(input);

    assert_eq!(lexer.next().unwrap(), Ok(Tag::Array(0)));
}

#[test]
fn lexer_reports_position_after_each_token() {
    let input = b"+a\r\n$3\r\nabc\r\n:";
    let mut lexer = Lexer::new(input);
    assert_eq!(lexer.remaining(), 0);
    assert_eq!(lexer.next().unwrap(), Ok(Tag::SimpleString(b"a")));
    assert_eq!(lexer.remaining(), 4);
    assert_eq!(lexer.next().unwrap(), Ok(Tag::BulkString(b"abc")));
    assert_eq!(lexer.remaining(), 13);
    assert!(lexer.next().is_none());
    assert_eq!(lexer.remaining(), 13);
}

#[test]
fn lexer_passes_over_a_lone_carriage_return() {
    let input = b"+a\rb\r\n";
    let mut lexer = Lexer::new(input);
    assert_eq!(lexer.next().unwrap(), Ok(Tag::SimpleString(b"a\rb")));
    assert_eq!(lexer.remaining(), 6);
}

#[test]
fn lexer_length_errors() {
    let mut lexer = Lexer::new(b"$5\r\nhel\r\n");
    assert_eq!(lexer.next().unwrap(), Err(Error::InvalidBulkString));
    assert_eq!(lexer.remaining(), 0);

    let mut lexer = Lexer::new(b"$-2\r\nhel\r\n");
    assert_eq!(lexer.next().unwrap(), Err(Error::InvalidBulkString));

    let mut lexer = Lexer::new(b"$2\r\nhello\r\n");
    assert_eq!(lexer.next().unwrap(), Ok(Tag::BulkString(b"he")));
    assert_eq!(lexer.remaining(), 11);

    let mut lexer = Lexer::new(b"*-2\r\n");
    assert_eq!(lexer.next().unwrap(), Err(Error::InvalidArray));

    let mut lexer = Lexer::new(b"*-1\r\n");
    assert_eq!(lexer.next().unwrap(), Ok(Tag::Null));

    let mut lexer = Lexer::new(b"*\r\n");
    assert_eq!(lexer.next().unwrap(), Err(Error::SyntaxLen(NumberError::Empty(0))));

    let mut lexer = Lexer::new(b":99999999999999999999\r\n");
    assert!(matches!(
        lexer.next().unwrap(),
        Err(Error::SyntaxLen(NumberError::Overflow(_)))
    ));

    let mut lexer = Lexer::new(b":-99999999999999999999\r\n");
    assert!(matches!(
        lexer.next().unwrap(),
        Err(Error::SyntaxLen(NumberError::Underflow(_)))
    ));

    let mut lexer = Lexer::new(b"\r\n");
    assert_eq!(lexer.next().unwrap(), Err(Error::Unknown));

    let mut lexer = Lexer::new(b"$5\r\nhel");
    assert!(lexer.next().is_none());
}
