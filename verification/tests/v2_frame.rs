use rresp::v2::Frame;
use rresp::EncodeLen;

#[test]
fn frame_test_encode_null() {
    let frame = Frame::Null;
    let encoded = frame.encode();
    assert_eq!(encoded, b"$-1\r\n".to_vec());
}

#[test]
fn frame_test_encode_integer() {
    let frame = Frame::Integer(42);
    let encoded = frame.encode();
    assert_eq!(encoded, b":42\r\n".to_vec());
}

#[test]
fn test_encode_simple_error() {
    let frame = Frame::SimpleError(b"ERR something went wrong");
    let encoded = frame.encode();
    assert_eq!(encoded, b"-ERR something went wrong\r\n".to_vec());
}

#[test]
fn frame_test_encode_simple_string() {
    let frame = Frame::SimpleString(b"Hello, World!");
    let encoded = frame.encode();
    assert_eq!(encoded, b"+Hello, World!\r\n".to_vec());
}

#[test]
fn test_encode_blob_string() {
    let frame = Frame::BulkString(b"Hello, World!");
    let encoded = frame.encode();
    assert_eq!(encoded, b"$13\r\nHello, World!\r\n".to_vec());
}

#[test]
fn frame_test_encode_array() {
    let frame = Frame::Array(vec![Frame::SimpleString(b"Hello"), Frame::Integer(42)]);
    let encoded = frame.encode();
    assert_eq!(encoded, b"*2\r\n+Hello\r\n:42\r\n".to_vec());
}

#[test]
fn test_encode_with_writer() {
    let frame = Frame::Array(vec![
        Frame::SimpleString(b"Hello"),
        Frame::Integer(42),
        Frame::BulkString(b"world"),
        Frame::Null,
        Frame::SimpleError(b"err"),
    ]);
    let mut buff = Vec::with_capacity(frame.encode_len());
    frame.encode_with_writer(&mut buff).unwrap();
    assert_eq!(
        buff,
        b"*5\r\n+Hello\r\n:42\r\n$5\r\nworld\r\n$-1\r\n-err\r\n".to_vec()
    );
}

#[test]
fn encode_with_writer_keeps_what_the_sink_held() {
    let mut sink = b"abc".to_vec();
    Frame::Integer(-7).encode_with_writer(&mut sink).unwrap();
    assert_eq!(sink, b"abc:-7\r\n".to_vec());
}

#[test]
fn encode_len_is_the_length_of_the_encoding() {
    let frames = vec![
        Frame::Null,
        Frame::Integer(0),
        Frame::Integer(i64::MIN),
        Frame::Integer(i64::MAX),
        Frame::SimpleString(b""),
        Frame::SimpleError(b"ERR x"),
        Frame::BulkString(b""),
        Frame::BulkString(b"0123456789"),
        Frame::Array(vec![]),
        Frame::Array(vec![
            Frame::Array(vec![Frame::Null, Frame::BulkString(b"hello")]),
            Frame::Integer(-12),
        ]),
    ];
    for frame in frames.iter() {
        assert_eq!(frame.encode_len(), frame.encode().len());
    }
    assert_eq!(Frame::Null.encode_len(), 5);
    assert_eq!(Frame::Integer(i64::MIN).encode_len(), 23);
    assert_eq!(Frame::BulkString(b"0123456789").encode_len(), 17);
    assert_eq!(Frame::Array(vec![]).encode_len(), 4);
}

#[test]
fn encode_integer_extremes() {
    assert_eq!(Frame::Integer(i64::MIN).encode(), b":-9223372036854775808\r\n".to_vec());
    assert_eq!(Frame::Integer(i64::MAX).encode(), b":9223372036854775807\r\n".to_vec());
    assert_eq!(Frame::Integer(0).encode(), b":0\r\n".to_vec());
}
