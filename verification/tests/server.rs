use beet::engine::{encode_response, plan, Action, EngineOutput};
use beet::request::EngineRequestError;
use beet::server::{next_frame, Frame};
use bytes::{Bytes, BytesMut};

#[test]
fn frames_are_cut_at_newlines() {
    let mut buf = BytesMut::from(&b"GET a\r\nSET b c 1\n\nGET"[..]);
    match next_frame(&mut buf) {
        Frame::Command(c) => assert_eq!(&c[..], b"GET a"),
        _ => panic!("expected a command"),
    }
    match next_frame(&mut buf) {
        Frame::Command(c) => assert_eq!(&c[..], b"SET b c 1"),
        _ => panic!("expected a command"),
    }
    assert!(matches!(next_frame(&mut buf), Frame::Blank));
    assert!(matches!(next_frame(&mut buf), Frame::Incomplete));
    assert_eq!(&buf[..], b"GET");
}

#[test]
fn only_one_carriage_return_is_dropped() {
    let mut buf = BytesMut::from(&b"x\r\r\n\r\n"[..]);
    match next_frame(&mut buf) {
        Frame::Command(c) => assert_eq!(&c[..], b"x\r"),
        _ => panic!("expected a command"),
    }
    assert!(matches!(next_frame(&mut buf), Frame::Blank));
    assert!(buf.is_empty());
    assert!(matches!(next_frame(&mut buf), Frame::Incomplete));
}

fn encode(r: &Result<EngineOutput, EngineRequestError>) -> Vec<u8> {
    let mut out = Vec::new();
    encode_response(r, &mut out);
    out
}

#[test]
fn responses_are_encoded() {
    let payload: Result<EngineOutput, EngineRequestError> =
        Ok(EngineOutput::Payload(Bytes::from_static(b"cached")));
    assert_eq!(encode(&payload), b"VALUE cached\n".to_vec());
    assert_eq!(encode(&Ok(EngineOutput::StatusOk)), b"OK\n".to_vec());
    assert_eq!(encode(&Ok(EngineOutput::NotFound)), b"NOT_FOUND\n".to_vec());
    let err: Result<EngineOutput, EngineRequestError> =
        Err(EngineRequestError { details: "Invalid command".to_string() });
    assert_eq!(encode(&err), b"ERROR\n".to_vec());
}

#[test]
fn large_payloads_are_encoded_whole() {
    let big = vec![b'z'; 5000];
    let out = encode(&Ok(EngineOutput::Payload(Bytes::from(big.clone()))));
    assert_eq!(out.len(), 5000 + 7);
    assert_eq!(&out[..6], b"VALUE ");
    assert_eq!(&out[6..5006], &big[..]);
    assert_eq!(out[5006], b'\n');
}

#[test]
fn lookups_become_outputs() {
    assert!(matches!(EngineOutput::from_lookup(None), EngineOutput::NotFound));
    match EngineOutput::from_lookup(Some(Bytes::from_static(b"v"))) {
        EngineOutput::Payload(p) => assert_eq!(&p[..], b"v"),
        _ => panic!("expected a payload"),
    }
}

#[test]
fn replies_append_to_the_buffer() {
    let mut out = b"OK\n".to_vec();
    encode_response(&Ok(EngineOutput::NotFound), &mut out);
    assert_eq!(out, b"OK\nNOT_FOUND\n".to_vec());
}

#[test]
fn a_stream_yields_the_same_commands_however_it_is_read() {
    let stream: &[u8] = b"SET a 1 5\r\n\nGET a\nGET\r\n  \nrest";
    let drain = |buf: &mut BytesMut, out: &mut Vec<Vec<u8>>| loop {
        match next_frame(buf) {
            Frame::Incomplete => break,
            Frame::Blank => {}
            Frame::Command(c) => out.push(c.to_vec()),
        }
    };
    let mut whole = Vec::new();
    let mut buf = BytesMut::from(stream);
    drain(&mut buf, &mut whole);
    assert_eq!(whole, vec![b"SET a 1 5".to_vec(), b"GET a".to_vec(), b"GET".to_vec(), b"  ".to_vec()]);
    assert_eq!(&buf[..], b"rest");
    for cut in 0..stream.len() {
        let mut got = Vec::new();
        let mut buf = BytesMut::from(&stream[..cut]);
        drain(&mut buf, &mut got);
        buf.extend_from_slice(&stream[cut..]);
        drain(&mut buf, &mut got);
        assert_eq!(got, whole, "cut at {}", cut);
        assert_eq!(&buf[..], b"rest");
    }
}

#[test]
fn plans_follow_the_request() {
    match plan(&Bytes::from_static(b"SET k v 9")) {
        Action::Store { key, value, ttl } => {
            assert_eq!(&key[..], b"k");
            assert_eq!(&value[..], b"v");
            assert_eq!(ttl, 9);
        }
        _ => panic!("expected a store"),
    }
    match plan(&Bytes::from_static(b"GET k")) {
        Action::Fetch { key } => assert_eq!(&key[..], b"k"),
        _ => panic!("expected a fetch"),
    }
    match plan(&Bytes::from_static(b"NOPE")) {
        Action::Reply(Err(e)) => assert_eq!(e.details, "Invalid command"),
        _ => panic!("expected an error reply"),
    }
}
