use rresp::v3::round::count_is_read_back;
use rresp::v3::{Ast, Frame, V3};
use rresp::{decode, Error, NumberError, ParseIter, Parser, Remaining};

fn bulk(data: &[u8]) -> Frame<'_> {
    Frame::BulkString {
        data,
        attributes: None,
    }
}

fn simple(data: &[u8]) -> Frame<'_> {
    Frame::SimpleString {
        data,
        attributes: None,
    }
}

fn integer(data: i64) -> Frame<'static> {
    Frame::Integer {
        data,
        attributes: None,
    }
}

#[test]
fn ast_test_array() {
    let data = b"*3\r\n$3\r\nfoo\r\n$3\r\nbar\r\n$3\r\nbaz\r\n";
    let mut ast = Ast::new(data);

    assert_eq!(
        ast.next().unwrap().unwrap(),
        Frame::Array {
            data: vec![
                Frame::BulkString {
                    data: b"foo",
                    attributes: None
                },
                Frame::BulkString {
                    data: b"bar",
                    attributes: None
                },
                Frame::BulkString {
                    data: b"baz",
                    attributes: None
                },
            ],
            attributes: None,
        }
    );

    let data = b"*1\r\n*1\r\n$3\r\nfoo\r\n";
    let mut ast = Ast::new(data);

    assert_eq!(
        ast.next().unwrap().unwrap(),
        Frame::Array {
            data: vec![Frame::Array {
                data: vec![Frame::BulkString {
                    data: b"foo",
                    attributes: None
                }],
                attributes: None,
            }],
            attributes: None,
        }
    )
}

#[test]
fn test_map() {
    let input = b"%1\r\n$3\r\nbar\r\n$3\r\nbat\r\n";
    let mut ast = Ast::new(input);

    assert_eq!(
        ast.next().unwrap().unwrap(),
        Frame::MapFrame {
            data: vec![(
                Frame::BulkString {
                    data: b"bar",
                    attributes: None
                },
                Frame::BulkString {
                    data: b"bat",
                    attributes: None
                }
            )],
            attributes: None,
        }
    );

    let input = b"%1\r\n%1\r\n$3\r\nbar\r\n$3\r\nbat\r\n";
    let mut ast = Ast::new(input);

    assert_eq!(ast.next().unwrap(), Err(Error::InvalidMap));
}

#[test]
fn test_push() {
    let input = b">1\r\n$3\r\nbar\r\n";
    let mut ast = Ast::new(input);

    assert_eq!(
        ast.next().unwrap(),
        Ok(Frame::Push {
            data: vec![Frame::BulkString {
                data: b"bar",
                attributes: None
            }]
        })
    )
}

#[test]
fn decode_v3() {
    let input = b"+OK\r\n";
    let (frame, remaining) = decode::<V3>(input.as_slice()).unwrap().unwrap();
    assert_eq!(
        (frame, remaining),
        (
            Frame::SimpleString {
                data: b"OK",
                attributes: None
            },
            5
        )
    );

    let input = b"-ERR\r\n";
    let (frame, remaining) = decode::<V3>(input.as_slice()).unwrap().unwrap();
    assert_eq!(
        (frame, remaining),
        (
            Frame::SimpleError {
                data: b"ERR",
                attributes: None
            },
            6
        )
    );

    let input = b":1\r\n";
    let (frame, remaining) = decode::<V3>(input.as_slice()).unwrap().unwrap();
    assert_eq!(
        (frame, remaining),
        (
            Frame::Integer {
                data: 1,
                attributes: None
            },
            4
        )
    );

    let input = b":-1\r\n";
    let (frame, remaining) = decode::<V3>(input.as_slice()).unwrap().unwrap();
    assert_eq!(
        (frame, remaining),
        (
            Frame::Integer {
                data: -1,
                attributes: None
            },
            5
        )
    );

    let input = b"*6\r\n:10\r\n:-1\r\n$5\r\nhello\r\n+world\r\n-err\r\n*1\r\n+ok\r\n";
    let (frame, remaining) = decode::<V3>(input.as_slice()).unwrap().unwrap();
    assert_eq!(
        (frame, remaining),
        (
            Frame::Array {
                data: vec![
                    Frame::Integer {
                        data: 10,
                        attributes: None
                    },
                    Frame::Integer {
                        data: -1,
                        attributes: None
                    },
                    Frame::BulkString {
                        data: b"hello",
                        attributes: None
                    },
                    Frame::SimpleString {
                        data: b"world",
                        attributes: None
                    },
                    Frame::SimpleError {
                        data: b"err",
                        attributes: None
                    },
                    Frame::Array {
                        data: vec![Frame::SimpleString {
                            data: b"ok",
                            attributes: None
                        }],
                        attributes: None,
                    }
                ],
                attributes: None,
            },
            48
        )
    );

    let input = b"%1\r\n$3\r\nbar\r\n*1\r\n:1\r\n";
    let (frame, remaining) = decode::<V3>(input.as_slice()).unwrap().unwrap();

    let data = vec![(
        Frame::BulkString {
            data: b"bar",
            attributes: None,
        },
        Frame::Array {
            data: vec![Frame::Integer {
                data: 1,
                attributes: None,
            }],
            attributes: None,
        },
    )];
    assert_eq!(
        (frame, remaining),
        (
            Frame::MapFrame {
                data: data,
                attributes: None,
            },
            21
        )
    );

    let input = b"_\r\n";
    let (frame, remaining) = decode::<V3>(input.as_slice()).unwrap().unwrap();
    assert_eq!((frame, remaining), (Frame::Null { data: () }, 3));

    let input = b"#t\r\n";
    let (frame, remaining) = decode::<V3>(input.as_slice()).unwrap().unwrap();
    assert_eq!(
        (frame, remaining),
        (
            Frame::Boolean {
                data: true,
                attributes: None
            },
            4
        )
    );

    let input = b"#f\r\n";
    let (frame, remaining) = decode::<V3>(input.as_slice()).unwrap().unwrap();
    assert_eq!(
        (frame, remaining),
        (
            Frame::Boolean {
                data: false,
                attributes: None
            },
            4
        )
    );

    let input = b",123.45\r\n";
    let (frame, remaining) = decode::<V3>(input.as_slice()).unwrap().unwrap();
    match &frame {
        Frame::Double { data, attributes } => {
            assert_eq!(lexical::parse::<f64, _>(data), Ok(123.45));
            assert_eq!(*attributes, None);
        }
        other => panic!("{:?}", other),
    }
    assert_eq!(
        (frame, remaining),
        (
            Frame::Double {
                data: b"123.45",
                attributes: None
            },
            9
        )
    );

    let input = b"|1\r\n+key\r\n+value\r\n+main\r\n";
    let (frame, remaining) = decode::<V3>(input.as_slice()).unwrap().unwrap();
    let attributes = vec![(
        Frame::SimpleString {
            data: b"key",
            attributes: None,
        },
        Frame::SimpleString {
            data: b"value",
            attributes: None,
        },
    )];
    assert_eq!(
        (frame, remaining),
        (
            Frame::SimpleString {
                data: b"main",
                attributes: Some(attributes)
            },
            25
        )
    );
}

#[test]
fn v3_invalid_boolean() {
    assert_eq!(V3::parse(b"#x\r\n"), Err(Error::InvalidBoolean));
    assert_eq!(V3::parse(b"#\r\n"), Err(Error::InvalidBoolean));
    assert_eq!(V3::parse(b"#tt\r\n"), Err(Error::InvalidBoolean));
    assert_eq!(V3::parse(b"*1\r\n#x\r\n"), Err(Error::InvalidBoolean));
}

#[test]
fn v3_keys_and_set_items_are_no_groups() {
    assert_eq!(
        V3::parse(b"%1\r\n%1\r\n$3\r\nbar\r\n$3\r\nbat\r\n"),
        Err(Error::InvalidMap)
    );
    assert_eq!(V3::parse(b"%1\r\n~0\r\n:1\r\n"), Err(Error::InvalidMap));
    assert_eq!(V3::parse(b"%1\r\n>0\r\n:1\r\n"), Err(Error::InvalidMap));
    assert_eq!(V3::parse(b"~1\r\n%0\r\n"), Err(Error::InvalidSet));
    assert_eq!(V3::parse(b"~1\r\n~0\r\n"), Err(Error::InvalidSet));
    assert_eq!(V3::parse(b"~1\r\n>0\r\n"), Err(Error::InvalidSet));
    assert_eq!(V3::parse(b"|1\r\n%0\r\n:1\r\n+x\r\n"), Err(Error::InvalidMap));
    let (frame, remaining) = V3::parse(b"%1\r\n:1\r\n%0\r\n").unwrap().unwrap();
    assert_eq!(remaining, 12);
    assert_eq!(
        frame,
        Frame::MapFrame {
            data: vec![(
                integer(1),
                Frame::MapFrame {
                    data: vec![],
                    attributes: None
                }
            )],
            attributes: None
        }
    );
    let (frame, _) = V3::parse(b"~1\r\n*1\r\n~0\r\n").unwrap().unwrap();
    assert_eq!(
        frame,
        Frame::SetFrame {
            data: vec![Frame::Array {
                data: vec![Frame::SetFrame {
                    data: vec![],
                    attributes: None
                }],
                attributes: None
            }],
            attributes: None
        }
    );
}

#[test]
fn v3_duplicate_keys_and_items() {
    let (frame, remaining) = V3::parse(b"%3\r\n+a\r\n:1\r\n+b\r\n:2\r\n+a\r\n:3\r\n")
        .unwrap()
        .unwrap();
    assert_eq!(remaining, 28);
    assert_eq!(
        frame,
        Frame::MapFrame {
            data: vec![(simple(b"a"), integer(3)), (simple(b"b"), integer(2))],
            attributes: None
        }
    );
    let (frame, remaining) = V3::parse(b"~4\r\n:1\r\n:2\r\n:1\r\n+1\r\n").unwrap().unwrap();
    assert_eq!(remaining, 20);
    assert_eq!(
        frame,
        Frame::SetFrame {
            data: vec![integer(1), integer(2), simple(b"1")],
            attributes: None
        }
    );
}

#[test]
fn v3_attributes() {
    let (frame, remaining) = V3::parse(b"|1\r\n+k\r\n:1\r\n*2\r\n:1\r\n:2\r\n")
        .unwrap()
        .unwrap();
    assert_eq!(remaining, 24);
    assert_eq!(
        frame,
        Frame::Array {
            data: vec![integer(1), integer(2)],
            attributes: Some(vec![(simple(b"k"), integer(1))])
        }
    );
    let (frame, _) = V3::parse(b"*1\r\n|0\r\n$1\r\nx\r\n").unwrap().unwrap();
    assert_eq!(
        frame,
        Frame::Array {
            data: vec![Frame::BulkString {
                data: b"x",
                attributes: Some(vec![])
            }],
            attributes: None
        }
    );
    assert_eq!(V3::parse(b"|1\r\n+k\r\n:1\r\n%0\r\n"), Err(Error::Unknown));
    assert_eq!(V3::parse(b"|1\r\n+k\r\n:1\r\n~0\r\n"), Err(Error::Unknown));
    assert_eq!(V3::parse(b"|1\r\n+k\r\n:1\r\n>0\r\n"), Err(Error::Unknown));
    assert_eq!(V3::parse(b"|1\r\n+k\r\n:1\r\n_\r\n"), Err(Error::Unknown));
    assert_eq!(V3::parse(b"|1\r\n+k\r\n:1\r\n|0\r\n+x\r\n"), Err(Error::Unknown));
    assert_eq!(V3::parse(b"|1\r\n|0\r\n+k\r\n:1\r\n+x\r\n"), Err(Error::Unknown));
    assert_eq!(V3::parse(b"|1\r\n+k\r\n:1\r\n"), Err(Error::NotComplete));
    assert_eq!(V3::parse(b"|1\r\n+k\r\n"), Err(Error::NotComplete));
    assert_eq!(V3::parse(b"|1\r\n+k\r\n:1\r\n#x\r\n"), Err(Error::InvalidBoolean));
}

#[test]
fn v3_leaves() {
    let (frame, remaining) = V3::parse(b"=7\r\ntxt:abc\r\n").unwrap().unwrap();
    assert_eq!(remaining, 13);
    assert_eq!(
        frame,
        Frame::VerbatimString {
            data: (*b"txt", b"abc"),
            attributes: None
        }
    );
    assert_eq!(V3::parse(b"=7\r\ntxt+abc\r\n"), Err(Error::Unknown));
    assert_eq!(V3::parse(b"=3\r\ntxt\r\n"), Err(Error::Unknown));
    let (frame, _) = V3::parse(b"=4\r\ntxt:\r\n").unwrap().unwrap();
    assert_eq!(
        frame,
        Frame::VerbatimString {
            data: (*b"txt", b""),
            attributes: None
        }
    );
    let (frame, _) = V3::parse(b"(3492890328409238509324850943850943825024385\r\n")
        .unwrap()
        .unwrap();
    assert_eq!(
        frame,
        Frame::BigNumber {
            data: b"3492890328409238509324850943850943825024385",
            attributes: None
        }
    );
    let (frame, _) = V3::parse(b"!5\r\nerror\r\n").unwrap().unwrap();
    assert_eq!(
        frame,
        Frame::BulkError {
            data: b"error",
            attributes: None
        }
    );
    assert_eq!(V3::parse(b"$-1\r\n").unwrap().unwrap(), (Frame::Null { data: () }, 5));
    assert_eq!(V3::parse(b"*-1\r\n").unwrap().unwrap(), (Frame::Null { data: () }, 5));
    assert_eq!(
        V3::parse(b":1x\r\n"),
        Err(Error::SyntaxLen(NumberError::InvalidDigit(1)))
    );
    assert_eq!(V3::parse(b"*1\r\n:\r\n"), Err(Error::SyntaxLen(NumberError::Empty(0))));
}

#[test]
fn v3_incomplete_input() {
    assert_eq!(V3::parse(b""), Ok(None));
    assert_eq!(V3::parse(b"+OK"), Ok(None));
    assert_eq!(V3::parse(b"$5\r\nhel"), Ok(None));
    assert_eq!(V3::parse(b"*2\r\n:1\r\n"), Err(Error::NotComplete));
    assert_eq!(V3::parse(b"%1\r\n:1\r\n"), Err(Error::NotComplete));
    assert_eq!(V3::parse(b"~1\r\n"), Err(Error::NotComplete));
    assert_eq!(V3::parse(b">2\r\n+a\r\n"), Err(Error::NotComplete));
}

#[test]
fn v3_incremental_prefixes() {
    let input = b"%2\r\n+a\r\n~1\r\n$5\r\nhello\r\n+b\r\n|1\r\n+k\r\n#t\r\n*1\r\n:7\r\n";
    for k in 0..input.len() {
        let r = V3::parse(&input[..k]);
        assert!(
            r == Ok(None) || r == Err(Error::NotComplete),
            "prefix of {} bytes",
            k
        );
    }
    let (_, remaining) = V3::parse(input).unwrap().unwrap();
    assert_eq!(remaining, input.len());
}

#[test]
fn v3_same_buffer_same_frame() {
    let input = b"%1\r\n+a\r\n~2\r\n:1\r\n:1\r\n";
    assert_eq!(V3::parse(input), V3::parse(input));
}

#[test]
fn v3_payloads_lie_inside_the_buffer() {
    let input = b"*2\r\n$5\r\nhello\r\n=7\r\ntxt:abc\r\n".to_vec();
    let (frame, _) = V3::parse(&input).unwrap().unwrap();
    match frame {
        Frame::Array { data, .. } => {
            match &data[0] {
                Frame::BulkString { data, .. } => assert_eq!(data.as_ptr(), input[8..].as_ptr()),
                other => panic!("{:?}", other),
            }
            match &data[1] {
                Frame::VerbatimString { data, .. } => {
                    assert_eq!(data.1.as_ptr(), input[23..].as_ptr())
                }
                other => panic!("{:?}", other),
            }
        }
        other => panic!("{:?}", other),
    }
}

#[test]
fn v3_round_trip() {
    let frame = Frame::Array {
        data: vec![
            Frame::MapFrame {
                data: vec![
                    (simple(b"a"), integer(i64::MIN)),
                    (bulk(b"b"), Frame::Null { data: () }),
                ],
                attributes: None,
            },
            Frame::SetFrame {
                data: vec![integer(1), integer(2)],
                attributes: None,
            },
            Frame::Push {
                data: vec![simple(b"p")],
            },
            Frame::VerbatimString {
                data: (*b"txt", b"hello"),
                attributes: None,
            },
            Frame::Boolean {
                data: true,
                attributes: Some(vec![(simple(b"k"), Frame::Double {
                    data: b"1.5",
                    attributes: None,
                })]),
            },
            Frame::BigNumber {
                data: b"123456789012345678901234567890",
                attributes: None,
            },
            Frame::BulkError {
                data: b"oops",
                attributes: None,
            },
        ],
        attributes: Some(vec![(simple(b"ttl"), integer(3))]),
    };
    assert!(frame.reads_back());
    let bytes = frame.encode();
    let (back, remaining) = V3::parse(&bytes).unwrap().unwrap();
    assert_eq!(back, frame);
    assert_eq!(remaining, bytes.len());
}

#[test]
fn v3_round_trip_of_what_was_decoded() {
    let inputs: Vec<&[u8]> = vec![
        b":+007\r\n",
        b"$2\r\nhello\r\n",
        b"*-1\r\n",
        b"%3\r\n+a\r\n:1\r\n+b\r\n:2\r\n+a\r\n:3\r\n",
        b"~4\r\n:1\r\n:2\r\n:1\r\n+1\r\n",
        b"|1\r\n+k\r\n:01\r\n*2\r\n=7\r\ntxt:a\rb\r\n>1\r\n#t\r\n",
        b"*2\r\n|0\r\n!3\r\nerror\r\n,1.50\r\n",
    ];
    for input in inputs {
        let (frame, _) = V3::parse(input).unwrap().unwrap();
        assert!(frame.reads_back());
        let bytes = frame.encode();
        let (back, remaining) = V3::parse(&bytes).unwrap().unwrap();
        assert_eq!(back, frame);
        assert_eq!(remaining, bytes.len());
    }
}

#[test]
fn counts_read_back() {
    assert!(count_is_read_back(0));
    assert!(count_is_read_back(u64::MAX as i128));
    assert!(!count_is_read_back(u64::MAX as i128 + 1));
    assert!(!count_is_read_back(-1));
}

#[test]
fn v3_deep_nesting() {
    let depth = 100_000;
    let mut input = Vec::new();
    for _ in 0..depth {
        input.extend_from_slice(b"*1\r\n");
    }
    input.extend_from_slice(b"_\r\n");
    let (frame, remaining) = V3::parse(&input).unwrap().unwrap();
    assert_eq!(remaining, input.len());
    let mut levels = 0;
    let mut current = frame;
    loop {
        match current {
            Frame::Array { mut data, attributes } => {
                assert_eq!(data.len(), 1);
                assert_eq!(attributes, None);
                levels += 1;
                current = data.pop().unwrap();
            }
            Frame::Null { .. } => break,
            other => panic!("{:?}", other),
        }
    }
    assert_eq!(levels, depth);
}

#[test]
fn v3_deep_nesting_of_mixed_groups() {
    let depth = 20_000;
    let mut input = Vec::new();
    for _ in 0..depth {
        input.extend_from_slice(b">1\r\n%1\r\n+k\r\n");
    }
    input.extend_from_slice(b"_\r\n");
    let (frame, remaining) = V3::parse(&input).unwrap().unwrap();
    assert_eq!(remaining, input.len());
    let mut levels = 0;
    let mut current = frame;
    loop {
        match current {
            Frame::Push { mut data } => {
                levels += 1;
                current = data.pop().unwrap();
            }
            Frame::MapFrame { mut data, .. } => {
                current = data.pop().unwrap().1;
            }
            Frame::Null { .. } => break,
            other => panic!("{:?}", other),
        }
    }
    assert_eq!(levels, depth);
}

#[test]
fn v3_iter_hands_out_frames_in_turn() {
    let input = b"#t\r\n~1\r\n:3\r\n|0\r\n+x\r\n,1";
    let mut iter = V3::parse_iter(input);
    assert_eq!(iter.remaining(), 0);
    assert_eq!(
        iter.next(),
        Some(Ok(Frame::Boolean {
            data: true,
            attributes: None
        }))
    );
    assert_eq!(iter.remaining(), 4);
    assert_eq!(
        iter.next(),
        Some(Ok(Frame::SetFrame {
            data: vec![integer(3)],
            attributes: None
        }))
    );
    assert_eq!(iter.remaining(), 12);
    assert_eq!(
        iter.next(),
        Some(Ok(Frame::SimpleString {
            data: b"x",
            attributes: Some(vec![])
        }))
    );
    assert_eq!(iter.remaining(), 20);
    assert_eq!(iter.next(), None);
    assert_eq!(iter.remaining(), 20);
}

#[test]
fn v3_iter_stops_after_an_error() {
    let input = b":1\r\n%1\r\n%0\r\n:2\r\n:3\r\n";
    let mut iter = V3::parse_iter(input);
    assert_eq!(iter.next(), Some(Ok(integer(1))));
    assert_eq!(iter.next(), Some(Err(Error::InvalidMap)));
    assert_eq!(iter.remaining(), 4);
    assert_eq!(iter.next(), None);
}

#[test]
fn v3_same() {
    let a = V3::parse(b"%1\r\n+a\r\n*2\r\n:1\r\n#t\r\n").unwrap().unwrap().0;
    let b = V3::parse(b"%1\r\n+a\r\n*2\r\n:1\r\n#t\r\n").unwrap().unwrap().0;
    let c = V3::parse(b"%1\r\n+a\r\n*2\r\n:1\r\n#f\r\n").unwrap().unwrap().0;
    let d = V3::parse(b"|0\r\n+a\r\n").unwrap().unwrap().0;
    assert!(a.same(&b));
    assert!(!a.same(&c));
    assert!(!simple(b"a").same(&d));
    assert!(!simple(b"a").same(&bulk(b"a")));
    assert!(d.same(&d));
}
