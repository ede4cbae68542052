use kvwire::codec::{decode, encode, Decoded};
use kvwire::frame::Frame;

fn enc(f: &Frame) -> Vec<u8> {
    let mut out: Vec<u8> = Vec::new();
    encode(f, &mut out);
    out
}

fn simple(s: &str) -> Frame {
    Frame::Simple(s.to_string())
}

fn bulk(b: &[u8]) -> Frame {
    Frame::Bulk(b.to_vec())
}

fn assert_round_trip(f: Frame) {
    let bytes = enc(&f);
    match decode(&bytes) {
        Decoded::Frame { frame, used } => {
            assert_eq!(frame, f);
            assert_eq!(used, bytes.len());
        }
        other => panic!("expected a frame, got {:?}", discr(&other)),
    }
}

fn discr(d: &Decoded) -> &'static str {
    match d {
        Decoded::Frame { .. } => "Frame",
        Decoded::Incomplete => "Incomplete",
        Decoded::Malformed => "Malformed",
    }
}

#[test]
fn wire_shapes_are_exact() {
    assert_eq!(enc(&simple("OK")), b"+OK\r\n".to_vec());
    assert_eq!(enc(&Frame::Error("oops".to_string())), b"-oops\r\n".to_vec());
    assert_eq!(enc(&Frame::Integer(0)), b":0\r\n".to_vec());
    assert_eq!(enc(&Frame::Integer(1234)), b":1234\r\n".to_vec());
    assert_eq!(enc(&Frame::Integer(-7)), b":-7\r\n".to_vec());
    assert_eq!(enc(&bulk(b"world")), b"$5\r\nworld\r\n".to_vec());
    assert_eq!(enc(&Frame::Null), b"_".to_vec());
    let req = Frame::Array(vec![bulk(b"GET"), bulk(b"hello")]);
    assert_eq!(enc(&req), b"*2\r\n$3\r\nGET\r\n$5\r\nhello\r\n".to_vec());
}

#[test]
fn round_trip_simple_frames() {
    assert_round_trip(simple("OK"));
    assert_round_trip(simple(""));
    assert_round_trip(Frame::Error("unrecognized command".to_string()));
    assert_round_trip(Frame::Null);
}

#[test]
fn text_lines_carry_utf8() {
    assert_round_trip(simple("caf\u{e9} \u{4f60}\u{597d} \u{1f600}"));
    assert_round_trip(Frame::Error("d\u{e9}sol\u{e9}".to_string()));
    let bytes = enc(&simple("caf\u{e9}"));
    assert_eq!(bytes, b"+caf\xc3\xa9\r\n".to_vec());
}

#[test]
fn round_trip_integers() {
    for i in [0i64, 1, -1, 9, 10, -10, 1234567, i64::MAX, i64::MIN] {
        assert_round_trip(Frame::Integer(i));
    }
}

#[test]
fn round_trip_bulk() {
    assert_round_trip(bulk(b""));
    assert_round_trip(bulk(b"world"));
    assert_round_trip(bulk(b"with\r\nline breaks\x00\xff inside"));
}

#[test]
fn round_trip_arrays() {
    assert_round_trip(Frame::Array(vec![]));
    assert_round_trip(Frame::Array(vec![bulk(b"SET"), bulk(b"hello"), bulk(b"world")]));
    let nested = Frame::Array(vec![
        Frame::Integer(-3),
        Frame::Array(vec![Frame::Null, simple("hi")]),
        bulk(b"tail"),
    ]);
    assert_round_trip(nested);
}

#[test]
fn every_proper_prefix_is_incomplete() {
    let frames = vec![
        simple("OK"),
        Frame::Error("e".to_string()),
        Frame::Integer(-1234),
        bulk(b"world"),
        Frame::Array(vec![bulk(b"GET"), bulk(b"hello")]),
    ];
    for f in frames {
        let bytes = enc(&f);
        for n in 0..bytes.len() {
            match decode(&bytes[..n]) {
                Decoded::Incomplete => {}
                other => panic!(
                    "prefix of {} bytes of {:?} gave {}",
                    n,
                    bytes,
                    discr(&other)
                ),
            }
        }
    }
}

#[test]
fn trailing_bytes_do_not_change_the_first_frame() {
    let mut bytes = enc(&simple("OK"));
    let len = bytes.len();
    bytes.extend_from_slice(b":42\r\n");
    match decode(&bytes) {
        Decoded::Frame { frame, used } => {
            assert_eq!(frame, simple("OK"));
            assert_eq!(used, len);
        }
        other => panic!("expected a frame, got {}", discr(&other)),
    }
}

#[test]
fn malformed_inputs_are_rejected() {
    let cases: Vec<&[u8]> = vec![
        b"x",                    // unknown marker
        b"+ok\rX",               // carriage return without line feed
        b":abc\r\n",             // not a number
        b":007\r\n",             // leading zeros are not canonical
        b":-0\r\n",              // negative zero is not canonical
        b":\r\n",                // empty integer
        b":9223372036854775808\r\n", // one past the largest integer
        b"$5\r\nworldX\r",       // bulk payload not closed by CR LF
        b"$-1\r\n",              // negative length
        b"$9999999999\r\n",      // length beyond the resource bound
        b"+ab\x80cd\r\n",        // invalid UTF-8 in a text line
        b"+caf\xc3\r\n",         // text line cut inside a multi-byte character
    ];
    for c in cases {
        match decode(c) {
            Decoded::Malformed => {}
            other => panic!("{:?} gave {}", c, discr(&other)),
        }
    }
}

#[test]
fn incomplete_inputs_ask_for_more() {
    let cases: Vec<&[u8]> = vec![b"", b"+", b"+OK", b"+OK\r", b"$5\r\nwor", b"*2\r\n$3\r\nGET\r\n"];
    for c in cases {
        match decode(c) {
            Decoded::Incomplete => {}
            other => panic!("{:?} gave {}", c, discr(&other)),
        }
    }
}

#[test]
fn integer_bounds_decode() {
    match decode(b":9223372036854775807\r\n") {
        Decoded::Frame { frame, used } => {
            assert_eq!(frame, Frame::Integer(i64::MAX));
            assert_eq!(used, 22);
        }
        other => panic!("got {}", discr(&other)),
    }
    match decode(b":-9223372036854775808\r\n") {
        Decoded::Frame { frame, .. } => assert_eq!(frame, Frame::Integer(i64::MIN)),
        other => panic!("got {}", discr(&other)),
    }
}
