use rresp::v2::round::number_reads_back;
use rresp::v2::{Ast, Frame, V2};
use rresp::{decode, Error, ParseIter, Parser, Remaining};

#[test]
fn decode_v2() {
    let input = b"+OK\r\n";
    let (frame, remaining) = decode::<V2>(input.as_slice()).unwrap().unwrap();
    assert_eq!((frame, remaining), (Frame::SimpleString(b"OK"), 5));

    let input = b"-Err\r\n";
    let (frame, remaining) = decode::<V2>(input.as_slice()).unwrap().unwrap();
    assert_eq!((frame, remaining), (Frame::SimpleError(b"Err"), 6));

    let input = b":1\r\n";
    let (frame, remaining) = decode::<V2>(input.as_slice()).unwrap().unwrap();
    assert_eq!((frame, remaining), (Frame::Integer(1), 4));

    let input = b":-1\r\n";
    let (frame, remaining) = decode::<V2>(input.as_slice()).unwrap().unwrap();
    assert_eq!((frame, remaining), (Frame::Integer(-1), 5));

    let input = b":+1\r\n";
    let (frame, remaining) = decode::<V2>(input.as_slice()).unwrap().unwrap();
    assert_eq!((frame, remaining), (Frame::Integer(1), 5));

    let input = b"$5\r\nhello\r\n";
    let (frame, remaining) = decode::<V2>(input.as_slice()).unwrap().unwrap();
    assert_eq!((frame, remaining), (Frame::BulkString(b"hello"), 11));

    let input = b"$-1\r\n";
    let (frame, remaining) = decode::<V2>(input.as_slice()).unwrap().unwrap();
    assert_eq!((frame, remaining), (Frame::Null, 5));

    let input = b"*6\r\n:10\r\n:-1\r\n$5\r\nhello\r\n+world\r\n-err\r\n*1\r\n+ok\r\n";
    let (frame, remaining) = decode::<V2>(input.as_slice()).unwrap().unwrap();
    assert_eq!(
        (frame, remaining),
        (
            Frame::Array(vec![
                Frame::Integer(10),
                Frame::Integer(-1),
                Frame::BulkString(b"hello"),
                Frame::SimpleString(b"world"),
                Frame::SimpleError(b"err"),
                Frame::Array(vec![Frame::SimpleString(b"ok"),])
            ]),
            48
        )
    );

    let input = b":-1\r\n:1\r\n";
    let (frame, remaining) = decode::<V2>(input.as_slice()).unwrap().unwrap();
    assert_eq!((frame, remaining), (Frame::Integer(-1), 5));
}

#[test]
fn v2_incomplete_input() {
    assert_eq!(V2::parse(b""), Ok(None));
    assert_eq!(V2::parse(b"+OK"), Ok(None));
    assert_eq!(V2::parse(b"+OK\r"), Ok(None));
    assert_eq!(V2::parse(b"$5\r\nhel"), Ok(None));
    assert_eq!(V2::parse(b"*2\r\n:1\r\n"), Err(Error::NotComplete));
    assert_eq!(V2::parse(b"*1\r\n*1\r\n"), Err(Error::NotComplete));
    assert_eq!(V2::parse(b"*1\r\n$5\r\nhel"), Err(Error::NotComplete));
}

#[test]
fn v2_errors_inside_arrays() {
    assert_eq!(V2::parse(b"*2\r\n:1\r\n?\r\n"), Err(Error::Unknown));
    assert_eq!(V2::parse(b"*1\r\n*-2\r\n"), Err(Error::InvalidArray));
    assert_eq!(V2::parse(b"*1\r\n$4\r\nabc\r\n"), Err(Error::InvalidBulkString));
    assert_eq!(V2::parse(b"_\r\n"), Err(Error::Unknown));
}

#[test]
fn v2_incremental_prefixes() {
    let input = b"*2\r\n$5\r\nhello\r\n*1\r\n:7\r\n";
    for k in 0..input.len() {
        let r = V2::parse(&input[..k]);
        assert!(
            r == Ok(None) || r == Err(Error::NotComplete),
            "prefix of {} bytes",
            k
        );
    }
    let (frame, remaining) = V2::parse(input).unwrap().unwrap();
    assert_eq!(remaining, input.len());
    assert_eq!(
        frame,
        Frame::Array(vec![
            Frame::BulkString(b"hello"),
            Frame::Array(vec![Frame::Integer(7)])
        ])
    );
}

#[test]
fn v2_same_buffer_same_frame() {
    let input = b"*2\r\n+a\r\n*1\r\n$1\r\nb\r\n";
    assert_eq!(V2::parse(input), V2::parse(input));
}

#[test]
fn v2_payloads_lie_inside_the_buffer() {
    let input = b"$5\r\nhello\r\n".to_vec();
    let (frame, _) = V2::parse(&input).unwrap().unwrap();
    match frame {
        Frame::BulkString(data) => {
            let range = input.as_ptr_range();
            assert!(range.start <= data.as_ptr());
            assert!(data.as_ptr_range().end <= range.end);
            assert_eq!(data.as_ptr(), input[4..].as_ptr());
        }
        other => panic!("{:?}", other),
    }
}

#[test]
fn v2_round_trip() {
    let frame = Frame::Array(vec![
        Frame::Integer(i64::MIN),
        Frame::BulkString(b""),
        Frame::Array(vec![]),
        Frame::Array(vec![Frame::Null, Frame::SimpleError(b"e")]),
        Frame::SimpleString(b"s"),
    ]);
    assert!(frame.reads_back());
    let bytes = frame.encode();
    let (back, remaining) = V2::parse(&bytes).unwrap().unwrap();
    assert_eq!(back, frame);
    assert_eq!(remaining, bytes.len());
}

#[test]
fn v2_round_trip_of_what_was_decoded() {
    let inputs: Vec<&[u8]> = vec![
        b":+007\r\n",
        b"$2\r\nhello\r\n",
        b"*-1\r\n",
        b"*2\r\n$-1\r\n*1\r\n+a\rb\r\n",
        b"-ERR\r\n",
    ];
    for input in inputs {
        let (frame, _) = V2::parse(input).unwrap().unwrap();
        assert!(frame.reads_back());
        let bytes = frame.encode();
        let (back, remaining) = V2::parse(&bytes).unwrap().unwrap();
        assert_eq!(back, frame);
        assert_eq!(remaining, bytes.len());
    }
}

#[test]
fn numbers_read_back() {
    assert!(number_reads_back(0));
    assert!(number_reads_back(-1));
    assert!(number_reads_back(i64::MAX as i128));
    assert!(number_reads_back(i64::MIN as i128));
    assert!(!number_reads_back(i64::MAX as i128 + 1));
    assert!(!number_reads_back(i64::MIN as i128 - 1));
}

#[test]
fn v2_deep_nesting() {
    let depth = 100_000;
    let mut input = Vec::new();
    for _ in 0..depth {
        input.extend_from_slice(b"*1\r\n");
    }
    input.extend_from_slice(b"$-1\r\n");
    let (frame, remaining) = V2::parse(&input).unwrap().unwrap();
    assert_eq!(remaining, input.len());
    let mut levels = 0;
    let mut current = frame;
    loop {
        match current {
            Frame::Array(mut items) => {
                assert_eq!(items.len(), 1);
                levels += 1;
                current = items.pop().unwrap();
            }
            Frame::Null => break,
            other => panic!("{:?}", other),
        }
    }
    assert_eq!(levels, depth);
}

#[test]
fn v2_iter_hands_out_frames_in_turn() {
    let input = b":1\r\n+two\r\n*1\r\n:3\r\n:4";
    let mut iter = V2::parse_iter(input);
    assert_eq!(iter.remaining(), 0);
    assert_eq!(iter.next(), Some(Ok(Frame::Integer(1))));
    assert_eq!(iter.remaining(), 4);
    assert_eq!(iter.next(), Some(Ok(Frame::SimpleString(b"two"))));
    assert_eq!(iter.remaining(), 10);
    assert_eq!(iter.next(), Some(Ok(Frame::Array(vec![Frame::Integer(3)]))));
    assert_eq!(iter.remaining(), 18);
    assert_eq!(iter.next(), None);
    assert_eq!(iter.remaining(), 18);
}

#[test]
fn v2_iter_stops_after_an_error() {
    let input = b":1\r\n*2\r\n:2\r\n?\r\n:3\r\n";
    let mut iter = V2::parse_iter(input);
    assert_eq!(iter.next(), Some(Ok(Frame::Integer(1))));
    assert_eq!(iter.next(), Some(Err(Error::Unknown)));
    assert_eq!(iter.remaining(), 4);
    assert_eq!(iter.next(), None);
    assert_eq!(iter.remaining(), 4);
}

#[test]
fn v2_ast_stays_at_the_frame_that_failed() {
    let input = b"+a\r\n*2\r\n:1\r\n";
    let mut ast = Ast::new(input);
    assert_eq!(ast.next(), Some(Ok(Frame::SimpleString(b"a"))));
    assert_eq!(ast.remaining(), 4);
    assert_eq!(ast.next(), Some(Err(Error::NotComplete)));
    assert_eq!(ast.remaining(), 4);
}

#[test]
fn error_messages() {
    assert_eq!(Error::NotComplete.message(), "not complete");
    assert_eq!(Error::Unknown.message(), "unknown tag");
    assert_eq!(Error::SyntaxLen(rresp::NumberError::Other).message(), "invalid length");
    assert_eq!(Error::InvalidBulkString.message(), "invalid bulk string");
    assert_eq!(Error::InvalidArray.message(), "invalid array");
    assert_eq!(Error::InvalidError.message(), "invalid error");
    assert_eq!(Error::InvalidBoolean.message(), "invalid boolean");
    assert_eq!(Error::InvalidMap.message(), "invalid map");
    assert_eq!(Error::InvalidSet.message(), "invalid set");
}
