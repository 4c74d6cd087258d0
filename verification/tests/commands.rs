use resp_frames::connection::{Connection, ReadStep};
use resp_frames::dispatch::{get_response, interpret_command, set_response, Command};
use resp_frames::frame::{encode_frame, Frame};

#[test]
fn end_to_end_set_then_get() {
    // one connection, two commands, answered in order
    let mut store: Vec<(Vec<u8>, Vec<u8>)> = Vec::new();
    let mut conn = Connection::new();

    conn.feed(b"*3\r\n$3\r\nSET\r\n$1\r\nk\r\n$1\r\nv\r\n");
    let frame = match conn.read_step(false) {
        ReadStep::Ready(f) => f,
        other => panic!("expected a frame, got {:?}", other),
    };
    let reply = match interpret_command(frame) {
        Command::Store(key, value) => {
            store.push((key, value));
            set_response()
        },
        other => panic!("expected a store command, got {:?}", other),
    };
    assert_eq!(encode_frame(&reply).unwrap(), b"+OK\r\n".to_vec());

    conn.feed(b"*2\r\n$3\r\nGET\r\n$1\r\nk\r\n");
    let frame = match conn.read_step(false) {
        ReadStep::Ready(f) => f,
        other => panic!("expected a frame, got {:?}", other),
    };
    let reply = match interpret_command(frame) {
        Command::Fetch(key) => {
            let found = store
                .iter()
                .find(|(k, _)| *k == key)
                .map(|(_, v)| v.to_vec());
            get_response(found)
        },
        other => panic!("expected a fetch command, got {:?}", other),
    };
    assert_eq!(encode_frame(&reply).unwrap(), b"$1\r\nv\r\n".to_vec());
}

#[test]
fn get_of_an_absent_key_answers_null() {
    let reply = get_response(None);
    assert_eq!(encode_frame(&reply).unwrap(), b"$-1\r\n".to_vec());
}

#[test]
fn set_with_missing_arguments_still_answers_ok() {
    let frame = Frame::Array(vec![
        Frame::Bulk(b"SET".to_vec()),
        Frame::Bulk(b"k".to_vec()),
    ]);
    assert_eq!(interpret_command(frame), Command::StoreNoop);
}

#[test]
fn set_with_non_bulk_arguments_does_not_store() {
    let frame = Frame::Array(vec![
        Frame::Bulk(b"SET".to_vec()),
        Frame::Simple("k".to_string()),
        Frame::Bulk(b"v".to_vec()),
    ]);
    assert_eq!(interpret_command(frame), Command::StoreNoop);
}

#[test]
fn get_without_a_key_answers_usage() {
    let frame = Frame::Array(vec![Frame::Bulk(b"GET".to_vec())]);
    assert_eq!(
        interpret_command(frame),
        Command::Reply(Frame::Error("Usage: GET <key>".to_string()))
    );
}

#[test]
fn get_with_a_non_bulk_key_answers_usage() {
    let frame = Frame::Array(vec![
        Frame::Bulk(b"GET".to_vec()),
        Frame::Simple("k".to_string()),
    ]);
    assert_eq!(
        interpret_command(frame),
        Command::Reply(Frame::Error("Usage: GET <key>".to_string()))
    );
}

#[test]
fn unknown_command_name_is_an_error() {
    let frame = Frame::Array(vec![Frame::Bulk(b"DEL".to_vec())]);
    assert_eq!(
        interpret_command(frame),
        Command::Reply(Frame::Error("Unknown Command".to_string()))
    );
}

#[test]
fn first_element_must_be_bulk() {
    let frame = Frame::Array(vec![Frame::Simple("SET".to_string())]);
    assert_eq!(
        interpret_command(frame),
        Command::Reply(Frame::Error("Invalid Command Format!".to_string()))
    );
    let empty = Frame::Array(vec![]);
    assert_eq!(
        interpret_command(empty),
        Command::Reply(Frame::Error("Invalid Command Format!".to_string()))
    );
}

#[test]
fn top_level_frame_must_be_an_array() {
    let frame = Frame::Simple("PING".to_string());
    assert_eq!(
        interpret_command(frame),
        Command::Reply(Frame::Error("Command must be and array".to_string()))
    );
}
