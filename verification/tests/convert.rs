use rresp::v2::Frame as V2Frame;
use rresp::v3::Frame;
use rresp::Error;

#[test]
fn test_v2_frame_convert_to_v3_frame() {
    let v2_frame = V2Frame::Array(vec![V2Frame::Array(vec![
        V2Frame::SimpleString(b"hello"),
        V2Frame::Integer(45),
        V2Frame::Null,
        V2Frame::BulkString(b"str"),
        V2Frame::SimpleError(b"error"),
    ])]);

    let v3_frame = Frame::try_from(v2_frame).unwrap();

    assert_eq!(
        v3_frame,
        Frame::Array {
            data: vec![Frame::Array {
                data: vec![
                    Frame::SimpleString {
                        data: b"hello",
                        attributes: None,
                    },
                    Frame::Integer {
                        data: 45,
                        attributes: None,
                    },
                    Frame::Null { data: () },
                    Frame::BulkString {
                        data: b"str",
                        attributes: None,
                    },
                    Frame::SimpleError {
                        data: b"error",
                        attributes: None
                    },
                ],
                attributes: None,
            }],
            attributes: None,
        }
    );
}

fn sample_v2() -> V2Frame<'static> {
    V2Frame::Array(vec![
        V2Frame::Integer(1),
        V2Frame::Array(vec![]),
        V2Frame::Array(vec![
            V2Frame::BulkString(b"a"),
            V2Frame::Array(vec![V2Frame::Null, V2Frame::SimpleError(b"e")]),
            V2Frame::SimpleString(b"z"),
        ]),
        V2Frame::Integer(2),
    ])
}

#[test]
fn v2_to_v3_leaves() {
    assert_eq!(Frame::try_from(V2Frame::Null), Ok(Frame::Null { data: () }));
    assert_eq!(
        Frame::try_from(V2Frame::Integer(-3)),
        Ok(Frame::Integer { data: -3, attributes: None })
    );
    assert_eq!(
        Frame::try_from(V2Frame::BulkString(b"b")),
        Ok(Frame::BulkString { data: b"b", attributes: None })
    );
    assert_eq!(
        Frame::try_from(V2Frame::Array(vec![])),
        Ok(Frame::Array { data: vec![], attributes: None })
    );
}

#[test]
fn v2_to_v3_and_back() {
    let lifted = Frame::try_from(sample_v2()).unwrap();
    match &lifted {
        Frame::Array { data, attributes } => {
            assert_eq!(data.len(), 4);
            assert_eq!(*attributes, None);
            assert_eq!(data[0], Frame::Integer { data: 1, attributes: None });
            assert_eq!(data[3], Frame::Integer { data: 2, attributes: None });
        }
        other => panic!("{:?}", other),
    }
    assert_eq!(V2Frame::try_from(lifted), Ok(sample_v2()));
}

#[test]
fn v3_to_v2_refuses_what_v2_lacks() {
    let refused = vec![
        Frame::Boolean { data: true, attributes: None },
        Frame::Double { data: b"1.5", attributes: None },
        Frame::BigNumber { data: b"1", attributes: None },
        Frame::BulkError { data: b"e", attributes: None },
        Frame::VerbatimString { data: (*b"txt", b"e"), attributes: None },
        Frame::MapFrame { data: vec![], attributes: None },
        Frame::SetFrame { data: vec![], attributes: None },
        Frame::Push { data: vec![] },
        Frame::Integer { data: 1, attributes: Some(vec![]) },
        Frame::SimpleString { data: b"s", attributes: Some(vec![]) },
        Frame::Array { data: vec![], attributes: Some(vec![]) },
        Frame::Array {
            data: vec![
                Frame::Integer { data: 1, attributes: None },
                Frame::Array {
                    data: vec![Frame::Boolean { data: false, attributes: None }],
                    attributes: None,
                },
            ],
            attributes: None,
        },
        Frame::Array {
            data: vec![Frame::Array { data: vec![], attributes: Some(vec![]) }],
            attributes: None,
        },
    ];
    for frame in refused {
        assert_eq!(V2Frame::try_from(frame), Err(Error::Unknown));
    }
}

#[test]
fn v3_to_v2_keeps_the_common_kinds() {
    let frame = Frame::Array {
        data: vec![
            Frame::Null { data: () },
            Frame::Integer { data: i64::MAX, attributes: None },
            Frame::SimpleString { data: b"s", attributes: None },
            Frame::SimpleError { data: b"e", attributes: None },
            Frame::BulkString { data: b"b", attributes: None },
            Frame::Array {
                data: vec![Frame::BulkString { data: b"in", attributes: None }],
                attributes: None,
            },
        ],
        attributes: None,
    };
    assert_eq!(
        V2Frame::try_from(frame),
        Ok(V2Frame::Array(vec![
            V2Frame::Null,
            V2Frame::Integer(i64::MAX),
            V2Frame::SimpleString(b"s"),
            V2Frame::SimpleError(b"e"),
            V2Frame::BulkString(b"b"),
            V2Frame::Array(vec![V2Frame::BulkString(b"in")]),
        ]))
    );
}

#[test]
fn conversion_of_deep_nesting() {
    let depth = 50_000;
    let mut frame = V2Frame::Null;
    for _ in 0..depth {
        frame = V2Frame::Array(vec![frame]);
    }
    let lifted = Frame::try_from(frame).unwrap();
    let lowered = V2Frame::try_from(lifted).unwrap();
    let mut levels = 0;
    let mut current = lowered;
    loop {
        match current {
            V2Frame::Array(mut items) => {
                levels += 1;
                current = items.pop().unwrap();
            }
            V2Frame::Null => break,
            other => panic!("{:?}", other),
        }
    }
    assert_eq!(levels, depth);
}
