use rresp::v3::{Lexer, Tag, TagType};
use rresp::{Error, NumberError};

#[test]
fn test_simple_string() {
    let input = b"+hello\r\n";
    let mut lexer = Lexer::new(input);

    assert_eq!(
        lexer.next().unwrap().unwrap(),
        Tag {
            tag_type: TagType::SimpleString,
            start_position: 1,
            end_position: 6
        }
    );
}

#[test]
fn test_simple_error() {
    let input = b"-err\r\n";
    let mut lexer = Lexer::new(input);

    assert_eq!(
        lexer.next().unwrap().unwrap(),
        Tag {
            tag_type: TagType::SimpleError,
            start_position: 1,
            end_position: 4
        }
    );
}

#[test]
fn test_bulk_string() {
    let input = b"$5\r\nhello\r\n";
    let mut lexer = Lexer::new(input);

    assert_eq!(
        lexer.next().unwrap().unwrap(),
        Tag {
            tag_type: TagType::BulkString,
            start_position: 4,
            end_position: 9
        }
    );
}

#[test]
fn test_integer() {
    let input = b":1\r\n";
    let mut lexer = Lexer::new(input);

    assert_eq!(
        lexer.next().unwrap().unwrap(),
        Tag {
            tag_type: TagType::Integer,
            start_position: 1,
            end_position: 2
        }
    );

    let input = b":-1\r\n";
    let mut lexer = Lexer::new(input);

    assert_eq!(
        lexer.next().unwrap().unwrap(),
        Tag {
            tag_type: TagType::Integer,
            start_position: 1,
            end_position: 3
        }
    );

    let input = b":+1\r\n";
    let mut lexer = Lexer::new(input);

    assert_eq!(
        lexer.next().unwrap().unwrap(),
        Tag {
            tag_type: TagType::Integer,
            start_position: 1,
            end_position: 3
        }
    );
}

#[test]
fn test_boolean() {
    let input = b"#t\r\n";
    let mut lexer = Lexer::new(input);

    assert_eq!(
        lexer.next().unwrap().unwrap(),
        Tag {
            tag_type: TagType::Boolean,
            start_position: 1,
            end_position: 2
        }
    );
}

#[test]
fn test_big_number() {
    let input = b"(0123456789\r\n";
    let mut lexer = Lexer::new(input);

    assert_eq!(
        lexer.next().unwrap().unwrap(),
        Tag {
            tag_type: TagType::BigNumber,
            start_position: 1,
            end_position: 11
        }
    );
}

#[test]
fn test_bulk_error() {
    let input = b"!5\r\nerror\r\n";
    let mut lexer = Lexer::new(input);

    assert_eq!(
        lexer.next().unwrap().unwrap(),
        Tag {
            tag_type: TagType::BulkError,
            start_position: 4,
            end_position: 9
        }
    );
}

fn kind_of(input: &[u8]) -> Result<TagType, Error> {
    Lexer::new(input).next().unwrap().map(|tag| tag.tag_type)
}

#[test]
fn v3_lexer_group_tokens_carry_their_count() {
    assert_eq!(kind_of(b"*3\r\n"), Ok(TagType::Array(3)));
    assert_eq!(kind_of(b"%2\r\n"), Ok(TagType::MapFrame(2)));
    assert_eq!(kind_of(b"~0\r\n"), Ok(TagType::SetFrame(0)));
    assert_eq!(kind_of(b">7\r\n"), Ok(TagType::Push(7)));
    assert_eq!(kind_of(b"|1\r\n"), Ok(TagType::Attribute(1)));
    assert_eq!(kind_of(b"_\r\n"), Ok(TagType::Null));
    assert_eq!(kind_of(b"$-1\r\n"), Ok(TagType::Null));
    assert_eq!(kind_of(b"*-1\r\n"), Ok(TagType::Null));
    assert_eq!(kind_of(b",1.5\r\n"), Ok(TagType::Double));
    assert_eq!(kind_of(b"=7\r\ntxt:abc\r\n"), Ok(TagType::VerbatimString));
}

#[test]
fn v3_lexer_errors() {
    assert_eq!(kind_of(b"?\r\n"), Err(Error::Unknown));
    assert_eq!(kind_of(b"\r\n"), Err(Error::Unknown));
    assert_eq!(kind_of(b"*-2\r\n"), Err(Error::InvalidArray));
    assert_eq!(kind_of(b"$4\r\nabc\r\n"), Err(Error::InvalidBulkString));
    assert_eq!(kind_of(b"!4\r\nabc\r\n"), Err(Error::InvalidError));
    assert_eq!(kind_of(b"=9\r\ntxt:abc\r\n"), Err(Error::InvalidError));
    assert_eq!(
        kind_of(b"%x\r\n"),
        Err(Error::SyntaxLen(NumberError::InvalidDigit(0)))
    );
    assert_eq!(
        kind_of(b"~-1\r\n"),
        Err(Error::SyntaxLen(NumberError::InvalidDigit(0)))
    );
    assert_eq!(kind_of(b">\r\n"), Err(Error::SyntaxLen(NumberError::Empty(0))));
    assert!(matches!(
        kind_of(b"|99999999999999999999999\r\n"),
        Err(Error::SyntaxLen(NumberError::Overflow(_)))
    ));
    assert!(Lexer::new(b"!5\r\nerr").next().is_none());
    assert!(Lexer::new(b"+abc").next().is_none());
}

#[test]
fn v3_lexer_moves_only_past_tokens() {
    let mut lexer = Lexer::new(b"$2\r\nhello\r\n?\r\n");
    assert_eq!(
        lexer.next().unwrap().unwrap(),
        Tag {
            tag_type: TagType::BulkString,
            start_position: 4,
            end_position: 6
        }
    );
    assert_eq!(lexer.remaining(), 11);
    assert_eq!(lexer.next().unwrap(), Err(Error::Unknown));
    assert_eq!(lexer.remaining(), 11);
}
