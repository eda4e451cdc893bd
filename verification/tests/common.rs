use rresp::common::encode::put;
use rresp::common::list::reversed;
use rresp::common::scan::{next_line_end, read_payload};
use rresp::v3::equal::same_bytes;
use rresp::v3::members::{distinct_frames, entries_of};
use rresp::v3::Frame;
use rresp::Error;

fn integer(data: i64) -> Frame<'static> {
    Frame::Integer { data, attributes: None }
}

#[test]
fn line_ends() {
    assert_eq!(next_line_end(b"", 0), None);
    assert_eq!(next_line_end(b"\r", 0), None);
    assert_eq!(next_line_end(b"\r\n", 0), Some(0));
    assert_eq!(next_line_end(b"ab\r\ncd\r\n", 0), Some(2));
    assert_eq!(next_line_end(b"ab\r\ncd\r\n", 2), Some(2));
    assert_eq!(next_line_end(b"ab\r\ncd\r\n", 3), Some(6));
    assert_eq!(next_line_end(b"ab\r\ncd\r\n", 7), None);
    assert_eq!(next_line_end(b"ab\r\ncd\r\n", 8), None);
    assert_eq!(next_line_end(b"a\rb\r\r\n", 0), Some(4));
    assert_eq!(next_line_end(b"a\nb\n\r", 0), None);
}

#[test]
fn payload_lines() {
    let input = b"$5\r\nhello\r\n";
    assert_eq!(
        read_payload(input, 4, 5, Error::InvalidBulkString),
        Some(Ok((&input[4..9], 11)))
    );
    assert_eq!(
        read_payload(input, 4, 3, Error::InvalidBulkString),
        Some(Ok((&input[4..7], 11)))
    );
    assert_eq!(
        read_payload(input, 4, 0, Error::InvalidBulkString),
        Some(Ok((&input[4..4], 11)))
    );
    assert_eq!(
        read_payload(input, 4, 6, Error::InvalidError),
        Some(Err(Error::InvalidError))
    );
    assert_eq!(
        read_payload(input, 4, u64::MAX, Error::InvalidBulkString),
        Some(Err(Error::InvalidBulkString))
    );
    assert_eq!(read_payload(b"$5\r\nhello", 4, 5, Error::InvalidBulkString), None);
    assert_eq!(read_payload(input, 11, 0, Error::InvalidBulkString), None);
}

#[test]
fn put_appends() {
    let mut out = b"ab".to_vec();
    put(&mut out, b"cd");
    put(&mut out, b"");
    assert_eq!(out, b"abcd");
}

#[test]
fn reversed_turns_the_order() {
    assert_eq!(reversed(vec![1, 2, 3]), vec![3, 2, 1]);
    assert_eq!(reversed(Vec::<u8>::new()), Vec::<u8>::new());
}

#[test]
fn same_bytes_compares_contents() {
    assert!(same_bytes(b"", b""));
    assert!(same_bytes(b"abc", b"abc"));
    assert!(!same_bytes(b"abc", b"abd"));
    assert!(!same_bytes(b"abc", b"ab"));
}

#[test]
fn distinct_keeps_first_occurrences_in_order() {
    assert_eq!(
        distinct_frames(vec![integer(3), integer(1), integer(3), integer(2), integer(1)]),
        vec![integer(3), integer(1), integer(2)]
    );
    assert_eq!(distinct_frames(vec![]), vec![]);
}

#[test]
fn entries_keep_the_later_value_in_the_first_place() {
    assert_eq!(
        entries_of(vec![
            integer(1),
            integer(10),
            integer(2),
            integer(20),
            integer(1),
            integer(11),
        ]),
        vec![(integer(1), integer(11)), (integer(2), integer(20))]
    );
    assert_eq!(entries_of(vec![]), vec![]);
}
