use resp_frames::connection::{Connection, ReadStep};
use resp_frames::decode::ProtocolError;
use resp_frames::frame::Frame;

#[test]
fn split_delivery_yields_the_same_frame() {
    // the full encoding split at an arbitrary offset into two deliveries
    let mut conn = Connection::new();
    conn.feed(b"$5\r\nHel");
    assert_eq!(conn.parse_frame(), Ok(None));
    conn.feed(b"lo\r\n");
    assert_eq!(
        conn.parse_frame(),
        Ok(Some(Frame::Bulk(b"Hello".to_vec())))
    );
    assert_eq!(conn.buffered(), 0);
}

#[test]
fn every_split_of_a_frame_works() {
    let bytes: &[u8] = b"*2\r\n$3\r\nfoo\r\n$3\r\nbar\r\n";
    for cut in 0..bytes.len() {
        let expect = Frame::Array(vec![
            Frame::Bulk(b"foo".to_vec()),
            Frame::Bulk(b"bar".to_vec()),
        ]);
        let mut conn = Connection::new();
        conn.feed(&bytes[..cut]);
        assert_eq!(conn.parse_frame(), Ok(None));
        conn.feed(&bytes[cut..]);
        assert_eq!(conn.parse_frame(), Ok(Some(expect)));
        assert_eq!(conn.buffered(), 0);
    }
}

#[test]
fn exactly_the_consumed_prefix_is_removed() {
    let mut conn = Connection::new();
    conn.feed(b"+one\r\n+two\r\n$5\r\nxy");
    assert_eq!(
        conn.parse_frame(),
        Ok(Some(Frame::Simple("one".to_string())))
    );
    assert_eq!(
        conn.parse_frame(),
        Ok(Some(Frame::Simple("two".to_string())))
    );
    assert_eq!(conn.parse_frame(), Ok(None));
    assert_eq!(conn.buffered(), 6);
}

#[test]
fn clean_close_on_empty_buffer() {
    let mut conn = Connection::new();
    assert_eq!(conn.read_step(true), ReadStep::Closed);
}

#[test]
fn reset_when_a_partial_frame_is_buffered() {
    let mut conn = Connection::new();
    conn.feed(b"$5\r\nHe");
    assert_eq!(conn.read_step(true), ReadStep::Reset);
}

#[test]
fn need_read_while_the_stream_is_open() {
    let mut conn = Connection::new();
    assert_eq!(conn.read_step(false), ReadStep::NeedRead);
    conn.feed(b"+pending\r");
    assert_eq!(conn.read_step(false), ReadStep::NeedRead);
}

#[test]
fn ready_once_a_frame_is_buffered() {
    let mut conn = Connection::new();
    conn.feed(b"+hi\r\n");
    assert_eq!(
        conn.read_step(false),
        ReadStep::Ready(Frame::Simple("hi".to_string()))
    );
    assert_eq!(conn.buffered(), 0);
}

#[test]
fn corrupt_bytes_are_reported() {
    let mut conn = Connection::new();
    conn.feed(b"?x\r\n");
    assert_eq!(
        conn.read_step(false),
        ReadStep::Corrupt(ProtocolError::InvalidMarker(63))
    );
}
