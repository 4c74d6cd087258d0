use resp_frames::frame::{encode_frame, u64_to_dec, EncodeError, Frame};
use resp_frames::decode::{get_line, parse, parse_dec, ProtocolError};

#[test]
fn round_trip_simple() {
    let frame = Frame::Simple("hello".to_string());
    let bytes = encode_frame(&frame).unwrap();
    assert_eq!(bytes, b"+hello\r\n".to_vec());
    let (decoded, used) = parse(&bytes, 0).unwrap().unwrap();
    assert_eq!(decoded, Frame::Simple("hello".to_string()));
    assert_eq!(used, bytes.len());
}

#[test]
fn round_trip_bulk() {
    let frame = Frame::Bulk(b"Hello".to_vec());
    let bytes = encode_frame(&frame).unwrap();
    assert_eq!(bytes, b"$5\r\nHello\r\n".to_vec());
    let (decoded, used) = parse(&bytes, 0).unwrap().unwrap();
    assert_eq!(decoded, Frame::Bulk(b"Hello".to_vec()));
    assert_eq!(used, 11);
}

#[test]
fn round_trip_bulk_with_crlf_payload() {
    let frame = Frame::Bulk(b"a\r\nb".to_vec());
    let bytes = encode_frame(&frame).unwrap();
    assert_eq!(bytes, b"$4\r\na\r\nb\r\n".to_vec());
    let (decoded, used) = parse(&bytes, 0).unwrap().unwrap();
    assert_eq!(decoded, Frame::Bulk(b"a\r\nb".to_vec()));
    assert_eq!(used, bytes.len());
}

#[test]
fn null_round_trip() {
    let (decoded, used) = parse(b"$-1\r\n", 0).unwrap().unwrap();
    assert_eq!(decoded, Frame::Null);
    assert_eq!(used, 5);
    let bytes = encode_frame(&Frame::Null).unwrap();
    assert_eq!(bytes, b"$-1\r\n".to_vec());
}

#[test]
fn integer_encodes_but_does_not_decode() {
    let bytes = encode_frame(&Frame::Integer(123)).unwrap();
    assert_eq!(bytes, b":123\r\n".to_vec());
    // the read side recognizes only `+`, `$`, `*`
    assert_eq!(parse(&bytes, 0), Err(ProtocolError::InvalidMarker(58)));
}

#[test]
fn error_encodes_but_does_not_decode() {
    let bytes = encode_frame(&Frame::Error("oops".to_string())).unwrap();
    assert_eq!(bytes, b"-oops\r\n".to_vec());
    assert_eq!(parse(&bytes, 0), Err(ProtocolError::InvalidMarker(45)));
}

#[test]
fn array_encode_refused() {
    let frame = Frame::Array(vec![Frame::Null]);
    assert_eq!(encode_frame(&frame), Err(EncodeError::ArrayUnsupported));
}

#[test]
fn partial_bulk_is_incomplete() {
    // length header present, payload incomplete: incomplete, never an error
    assert_eq!(parse(b"$5\r\nHel", 0), Ok(None));
}

#[test]
fn nested_array_decodes_fully() {
    let bytes = b"*2\r\n$3\r\nfoo\r\n$3\r\nbar\r\n";
    let (decoded, used) = parse(bytes, 0).unwrap().unwrap();
    assert_eq!(
        decoded,
        Frame::Array(vec![Frame::Bulk(b"foo".to_vec()), Frame::Bulk(b"bar".to_vec())])
    );
    // every byte of the sequence is consumed, with no remainder
    assert_eq!(used, bytes.len());
    assert_eq!(used, 22);
}

#[test]
fn array_of_simple_and_null() {
    let bytes = b"*2\r\n+ok\r\n$-1\r\n";
    let (decoded, used) = parse(bytes, 0).unwrap().unwrap();
    assert_eq!(
        decoded,
        Frame::Array(vec![Frame::Simple("ok".to_string()), Frame::Null])
    );
    assert_eq!(used, bytes.len());
}

#[test]
fn empty_array() {
    let (decoded, used) = parse(b"*0\r\n", 0).unwrap().unwrap();
    assert_eq!(decoded, Frame::Array(vec![]));
    assert_eq!(used, 4);
}

#[test]
fn empty_bulk() {
    let (decoded, used) = parse(b"$0\r\n\r\n", 0).unwrap().unwrap();
    assert_eq!(decoded, Frame::Bulk(vec![]));
    assert_eq!(used, 6);
}

#[test]
fn array_with_partial_element_is_incomplete() {
    assert_eq!(parse(b"*2\r\n$3\r\nfoo\r\n$3\r\nba", 0), Ok(None));
}

#[test]
fn array_count_without_elements_is_incomplete() {
    assert_eq!(parse(b"*2\r\n", 0), Ok(None));
}

#[test]
fn unknown_marker_is_an_error() {
    assert_eq!(parse(b"?hi\r\n", 0), Err(ProtocolError::InvalidMarker(63)));
}

#[test]
fn bad_length_is_an_error() {
    assert_eq!(parse(b"$12a\r\n", 0), Err(ProtocolError::InvalidLength));
    assert_eq!(parse(b"$-2\r\n", 0), Err(ProtocolError::InvalidLength));
    assert_eq!(parse(b"*x\r\n", 0), Err(ProtocolError::InvalidLength));
}

#[test]
fn bad_utf8_simple_is_an_error() {
    let bytes: &[u8] = &[43, 0xff, 0xfe, 13, 10];
    assert_eq!(parse(bytes, 0), Err(ProtocolError::InvalidText));
}

#[test]
fn trailing_cr_is_incomplete() {
    // a CR as the very last byte with no following byte: incomplete
    assert_eq!(parse(b"+ab\r", 0), Ok(None));
    assert_eq!(parse(b"+", 0), Ok(None));
    assert_eq!(parse(b"", 0), Ok(None));
}

#[test]
fn parse_leaves_later_bytes_alone() {
    let bytes = b"+one\r\n+two\r\n";
    let (first, used) = parse(bytes, 0).unwrap().unwrap();
    assert_eq!(first, Frame::Simple("one".to_string()));
    assert_eq!(used, 6);
    let (second, used2) = parse(bytes, used).unwrap().unwrap();
    assert_eq!(second, Frame::Simple("two".to_string()));
    assert_eq!(used2, 12);
}

#[test]
fn get_line_scans_for_crlf() {
    assert_eq!(get_line(b"ab\r\ncd", 0), Some(2));
    assert_eq!(get_line(b"ab\r\ncd", 3), None);
    assert_eq!(get_line(b"abc\r", 0), None);
    assert_eq!(get_line(b"", 0), None);
}

#[test]
fn parse_dec_reads_digits() {
    assert_eq!(parse_dec(b"123", 0, 3), Some(123));
    assert_eq!(parse_dec(b"007", 0, 3), Some(7));
    assert_eq!(parse_dec(b"123", 0, 0), None);
    assert_eq!(parse_dec(b"12a", 0, 3), None);
    assert_eq!(parse_dec(b"18446744073709551615", 0, 20), Some(u64::MAX));
    assert_eq!(parse_dec(b"18446744073709551616", 0, 20), None);
}

#[test]
fn u64_to_dec_writes_digits() {
    assert_eq!(u64_to_dec(0), b"0".to_vec());
    assert_eq!(u64_to_dec(10), b"10".to_vec());
    assert_eq!(u64_to_dec(u64::MAX), b"18446744073709551615".to_vec());
}
