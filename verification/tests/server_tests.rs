use kvwire::codec::{decode, encode, Decoded};
use kvwire::command::{from_frame, Command, CommandError};
use kvwire::conn::{Conn, Step};
use kvwire::frame::Frame;
use kvwire::store::Store;

fn bulk(b: &[u8]) -> Frame {
    Frame::Bulk(b.to_vec())
}

fn request(parts: &[&[u8]]) -> Vec<u8> {
    let f = Frame::Array(parts.iter().map(|p| bulk(p)).collect());
    let mut out: Vec<u8> = Vec::new();
    encode(&f, &mut out);
    out
}

/// Feeds `bytes` and steps once, expecting one reply; returns the reply
/// decoded back into a frame.
fn exchange(conn: &mut Conn, store: &mut Store, bytes: &[u8]) -> Frame {
    conn.feed(bytes);
    match conn.step(store) {
        Step::Reply(out) => match decode(&out) {
            Decoded::Frame { frame, used } => {
                assert_eq!(used, out.len());
                frame
            }
            _ => panic!("reply bytes did not decode"),
        },
        Step::NeedMore => panic!("expected a reply, got a read request"),
        Step::Corrupt(_) => panic!("expected a reply, got a close"),
    }
}

#[test]
fn store_set_then_get_returns_exactly_the_value() {
    let mut s = Store::new();
    s.set("hello".to_string(), b"world".to_vec());
    assert_eq!(s.get(&"hello".to_string()), Some(&b"world".to_vec()));
    assert_eq!(s.get(&"missing".to_string()), None);
}

#[test]
fn store_last_writer_wins() {
    let mut s = Store::new();
    s.set("k".to_string(), b"v1".to_vec());
    s.set("k".to_string(), b"v2".to_vec());
    assert_eq!(s.get(&"k".to_string()), Some(&b"v2".to_vec()));
    s.set("other".to_string(), b"x".to_vec());
    assert_eq!(s.get(&"k".to_string()), Some(&b"v2".to_vec()));
}

#[test]
fn from_frame_builds_typed_commands() {
    let get = Frame::Array(vec![bulk(b"GET"), bulk(b"hello")]);
    assert_eq!(
        from_frame(&get),
        Ok(Command::Get { key: "hello".to_string() })
    );
    let set = Frame::Array(vec![bulk(b"set"), bulk(b"k"), bulk(b"v")]);
    assert_eq!(
        from_frame(&set),
        Ok(Command::Put { key: "k".to_string(), value: b"v".to_vec() })
    );
    let mixed_case = Frame::Array(vec![bulk(b"GeT"), Frame::Simple("k".to_string())]);
    assert_eq!(from_frame(&mixed_case), Ok(Command::Get { key: "k".to_string() }));
}

#[test]
fn from_frame_rejects_malformed_requests() {
    // wrong arity
    let extra = Frame::Array(vec![bulk(b"GET"), bulk(b"hello"), bulk(b"extra")]);
    assert_eq!(from_frame(&extra), Err(CommandError::Malformed));
    let short = Frame::Array(vec![bulk(b"SET"), bulk(b"k")]);
    assert_eq!(from_frame(&short), Err(CommandError::Malformed));
    // wrong shapes
    assert_eq!(from_frame(&Frame::Null), Err(CommandError::Malformed));
    assert_eq!(from_frame(&Frame::Array(vec![])), Err(CommandError::Malformed));
    let bad_key = Frame::Array(vec![bulk(b"GET"), Frame::Integer(3)]);
    assert_eq!(from_frame(&bad_key), Err(CommandError::Malformed));
    // unknown verb is a command, not a malformed frame
    let publish = Frame::Array(vec![bulk(b"PUBLISH"), bulk(b"x")]);
    assert_eq!(
        from_frame(&publish),
        Ok(Command::Unknown { verb: "PUBLISH".to_string() })
    );
}

#[test]
fn scenario_set_then_get() {
    let mut store = Store::new();
    let mut conn = Conn::new();
    let reply = exchange(&mut conn, &mut store, &request(&[b"SET", b"hello", b"world"]));
    assert_eq!(reply, Frame::Simple("OK".to_string()));
    let reply = exchange(&mut conn, &mut store, &request(&[b"GET", b"hello"]));
    assert_eq!(reply, bulk(b"world"));
}

#[test]
fn utf8_keys_are_stored_and_served() {
    let mut store = Store::new();
    let mut conn = Conn::new();
    // "caf\u{e9}" as raw UTF-8 bulk bytes
    let key: &[u8] = b"caf\xc3\xa9";
    let reply = exchange(&mut conn, &mut store, &request(&[b"SET", key, b"cream"]));
    assert_eq!(reply, Frame::Simple("OK".to_string()));
    let reply = exchange(&mut conn, &mut store, &request(&[b"GET", key]));
    assert_eq!(reply, bulk(b"cream"));
    assert_eq!(store.get(&"caf\u{e9}".to_string()), Some(&b"cream".to_vec()));
}

#[test]
fn invalid_utf8_key_is_malformed_but_not_fatal() {
    let mut store = Store::new();
    let mut conn = Conn::new();
    let reply = exchange(&mut conn, &mut store, &request(&[b"GET", b"\xff\xfe"]));
    assert_eq!(reply, Frame::Error("malformed command".to_string()));
    let reply = exchange(&mut conn, &mut store, &request(&[b"SET", b"k", b"v"]));
    assert_eq!(reply, Frame::Simple("OK".to_string()));
}

#[test]
fn from_frame_decodes_utf8_keys() {
    let f = Frame::Array(vec![bulk(b"GET"), bulk(b"caf\xc3\xa9")]);
    assert_eq!(
        from_frame(&f),
        Ok(Command::Get { key: "caf\u{e9}".to_string() })
    );
    let bad = Frame::Array(vec![bulk(b"GET"), bulk(b"\x80")]);
    assert_eq!(bad_is_malformed(bad), true);
}

fn bad_is_malformed(f: Frame) -> bool {
    from_frame(&f) == Err(CommandError::Malformed)
}

#[test]
fn scenario_get_missing_is_null() {
    let mut store = Store::new();
    let mut conn = Conn::new();
    let reply = exchange(&mut conn, &mut store, &request(&[b"GET", b"missing"]));
    assert_eq!(reply, Frame::Null);
}

#[test]
fn scenario_wrong_arity_keeps_connection_open() {
    let mut store = Store::new();
    let mut conn = Conn::new();
    let reply = exchange(&mut conn, &mut store, &request(&[b"SET", b"hello", b"world"]));
    assert_eq!(reply, Frame::Simple("OK".to_string()));
    let reply = exchange(&mut conn, &mut store, &request(&[b"GET", b"hello", b"extra"]));
    assert!(matches!(reply, Frame::Error(_)));
    // the same connection still serves the next request
    let reply = exchange(&mut conn, &mut store, &request(&[b"GET", b"hello"]));
    assert_eq!(reply, bulk(b"world"));
}

#[test]
fn unknown_verb_gets_an_error_and_the_connection_lives_on() {
    let mut store = Store::new();
    let mut conn = Conn::new();
    let reply = exchange(&mut conn, &mut store, &request(&[b"PUBLISH", b"chan", b"msg"]));
    assert_eq!(reply, Frame::Error("unrecognized command".to_string()));
    let reply = exchange(&mut conn, &mut store, &request(&[b"SET", b"k", b"v"]));
    assert_eq!(reply, Frame::Simple("OK".to_string()));
    let reply = exchange(&mut conn, &mut store, &request(&[b"GET", b"k"]));
    assert_eq!(reply, bulk(b"v"));
}

#[test]
fn byte_by_byte_arrival_never_consumes_early() {
    let mut store = Store::new();
    let mut conn = Conn::new();
    let bytes = request(&[b"GET", b"x"]);
    for (i, b) in bytes.iter().enumerate() {
        if i + 1 < bytes.len() {
            conn.feed(&[*b]);
            match conn.step(&mut store) {
                Step::NeedMore => {}
                _ => panic!("stepped early after {} of {} bytes", i + 1, bytes.len()),
            }
        }
    }
    let reply = exchange(&mut conn, &mut store, &bytes[bytes.len() - 1..]);
    assert_eq!(reply, Frame::Null);
}

#[test]
fn pipelined_requests_are_served_in_order() {
    let mut store = Store::new();
    let mut conn = Conn::new();
    let mut both = request(&[b"SET", b"a", b"1"]);
    both.extend_from_slice(&request(&[b"GET", b"a"]));
    let first = exchange(&mut conn, &mut store, &both);
    assert_eq!(first, Frame::Simple("OK".to_string()));
    // second request is already buffered: no further feed needed
    let second = exchange(&mut conn, &mut store, &[]);
    assert_eq!(second, bulk(b"1"));
}

#[test]
fn corrupt_stream_closes_with_an_error_reply() {
    let mut store = Store::new();
    let mut conn = Conn::new();
    conn.feed(b"x");
    match conn.step(&mut store) {
        Step::Corrupt(out) => match decode(&out) {
            Decoded::Frame { frame, .. } => assert!(matches!(frame, Frame::Error(_))),
            _ => panic!("close reply did not decode"),
        },
        _ => panic!("expected the connection to be closed"),
    }
}

#[test]
fn set_via_simple_value_stores_its_bytes() {
    let mut store = Store::new();
    let mut conn = Conn::new();
    let f = Frame::Array(vec![
        bulk(b"SET"),
        Frame::Simple("k".to_string()),
        Frame::Simple("plain".to_string()),
    ]);
    let mut bytes: Vec<u8> = Vec::new();
    encode(&f, &mut bytes);
    let reply = exchange(&mut conn, &mut store, &bytes);
    assert_eq!(reply, Frame::Simple("OK".to_string()));
    assert_eq!(store.get(&"k".to_string()), Some(&b"plain".to_vec()));
}
