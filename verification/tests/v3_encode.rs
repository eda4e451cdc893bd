use rresp::v3::{Frame, V3};
use rresp::{encode, EncodeLen, EncodeWithWriter};

#[test]
fn v3_encode() {
    let frame = Frame::SimpleString { data: b"Ok", attributes: None };
    assert_eq!(frame.encode_len(), 5);
    let encodeed = encode::<V3>(frame).unwrap();
    assert_eq!(encodeed, b"+Ok\r\n");

    let frame = Frame::SimpleString {
        data: b"Ok",
        attributes: Some(vec![(
            Frame::SimpleString { data: b"key", attributes: None },
            Frame::SimpleString { data: b"value", attributes: None },
        )]),
    };
    assert_eq!(frame.encode_len(), 23);
    let encodeed = encode::<V3>(frame).unwrap();
    assert_eq!(encodeed, b"|1\r\n+key\r\n+value\r\n+Ok\r\n");

    let frame = Frame::SimpleError { data: b"err", attributes: None };
    assert_eq!(frame.encode_len(), 6);
    let encodeed = encode::<V3>(frame).unwrap();
    assert_eq!(encodeed, b"-err\r\n");

    let frame = Frame::BulkString { data: b"hello", attributes: None };
    assert_eq!(frame.encode_len(), 11);
    let encodeed = encode::<V3>(frame).unwrap();
    assert_eq!(encodeed, b"$5\r\nhello\r\n");
}

fn check(frame: Frame<'_>, bytes: &[u8]) {
    assert_eq!(frame.encode_len(), bytes.len());
    assert_eq!(frame.encode(), bytes.to_vec());
    let mut sink = b"x".to_vec();
    frame.encode_with_writer(&mut sink).unwrap();
    assert_eq!(&sink[1..], bytes);
}

#[test]
fn v3_encode_each_kind() {
    check(Frame::Null { data: () }, b"_\r\n");
    check(Frame::Boolean { data: true, attributes: None }, b"#t\r\n");
    check(Frame::Boolean { data: false, attributes: None }, b"#f\r\n");
    check(Frame::Integer { data: -42, attributes: None }, b":-42\r\n");
    check(Frame::Double { data: b"123.45", attributes: None }, b",123.45\r\n");
    check(Frame::BigNumber { data: b"12345678901234567890123", attributes: None }, b"(12345678901234567890123\r\n");
    check(Frame::BulkError { data: b"error", attributes: None }, b"!5\r\nerror\r\n");
    check(Frame::BulkString { data: b"", attributes: None }, b"$0\r\n\r\n");
    check(
        Frame::VerbatimString { data: (*b"txt", b"hello!"), attributes: None },
        b"=10\r\ntxt:hello!\r\n",
    );
    check(
        Frame::Array {
            data: vec![
                Frame::Integer { data: 1, attributes: None },
                Frame::Array { data: vec![], attributes: None },
            ],
            attributes: None,
        },
        b"*2\r\n:1\r\n*0\r\n",
    );
    check(
        Frame::MapFrame {
            data: vec![
                (
                    Frame::SimpleString { data: b"a", attributes: None },
                    Frame::Integer { data: 1, attributes: None },
                ),
                (
                    Frame::SimpleString { data: b"b", attributes: None },
                    Frame::Null { data: () },
                ),
            ],
            attributes: None,
        },
        b"%2\r\n+a\r\n:1\r\n+b\r\n_\r\n",
    );
    check(
        Frame::SetFrame {
            data: vec![Frame::Integer { data: 1, attributes: None }],
            attributes: None,
        },
        b"~1\r\n:1\r\n",
    );
    check(
        Frame::Push { data: vec![Frame::SimpleString { data: b"m", attributes: None }] },
        b">1\r\n+m\r\n",
    );
    check(
        Frame::Array {
            data: vec![Frame::Boolean {
                data: true,
                attributes: Some(vec![]),
            }],
            attributes: Some(vec![(
                Frame::SimpleString { data: b"k", attributes: None },
                Frame::BulkString { data: b"v", attributes: None },
            )]),
        },
        b"|1\r\n+k\r\n$1\r\nv\r\n*1\r\n|0\r\n#t\r\n",
    );
}

#[test]
fn v3_encode_to_sink() {
    let mut sink = Vec::new();
    V3::encode_with_writer(Frame::Null { data: () }, &mut sink).unwrap();
    V3::encode_with_writer(Frame::Boolean { data: true, attributes: None }, &mut sink).unwrap();
    assert_eq!(sink, b"_\r\n#t\r\n");
}
