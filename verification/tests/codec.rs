use pbft::codec::{decode_message, encode_message, frame_message, unframe};
use pbft::message::{Commit, Message, PrePrepare, Prepare, Request};

fn req(op: &str, ts: u64, client: &str) -> Request {
    Request::new(op.as_bytes().to_vec(), ts, client.as_bytes().to_vec())
}

fn assert_request_eq(a: &Request, b: &Request) {
    assert_eq!(a.operation, b.operation);
    assert_eq!(a.timestamp, b.timestamp);
    assert_eq!(a.client, b.client);
}

#[test]
fn round_trip_client_request() {
    let m = Message::ClientRequest(req("SET x 1", 100, "C"));
    let bytes = encode_message(&m);
    match decode_message(&bytes) {
        Some(Message::ClientRequest(r)) => assert_request_eq(&r, &req("SET x 1", 100, "C")),
        _ => panic!("decode failed"),
    }
}

#[test]
fn round_trip_pre_prepare() {
    let pp = PrePrepare::from(0, 1, req("SET x 1", 100, "C"));
    let digest = pp.digest();
    let m = Message::PrePrepare(pp);
    let bytes = encode_message(&m);
    match decode_message(&bytes) {
        Some(Message::PrePrepare(p)) => {
            assert_eq!(p.view, 0);
            assert_eq!(p.n, 1);
            assert_eq!(p.digest, digest);
            assert_request_eq(&p.request, &req("SET x 1", 100, "C"));
        }
        _ => panic!("decode failed"),
    }
}

#[test]
fn round_trip_prepare_and_commit() {
    let pp = PrePrepare::from(3, 9, req("op", 5, "K"));
    let prepare = Prepare::from(&pp, 2);
    let commit = Commit::from(&prepare, 2);
    let digest = pp.digest();

    let bytes = encode_message(&Message::Prepare(prepare));
    match decode_message(&bytes) {
        Some(Message::Prepare(p)) => {
            assert_eq!((p.view, p.n, p.replica), (3, 9, 2));
            assert_eq!(p.digest, digest);
        }
        _ => panic!("decode failed"),
    }

    let bytes = encode_message(&Message::Commit(commit));
    match decode_message(&bytes) {
        Some(Message::Commit(c)) => {
            assert_eq!((c.view, c.n, c.replica), (3, 9, 2));
            assert_eq!(c.digest, digest);
        }
        _ => panic!("decode failed"),
    }
}

#[test]
fn round_trip_empty_fields() {
    let m = Message::ClientRequest(Request::new(Vec::new(), 0, Vec::new()));
    let bytes = encode_message(&m);
    match decode_message(&bytes) {
        Some(Message::ClientRequest(r)) => {
            assert!(r.operation.is_empty());
            assert_eq!(r.timestamp, 0);
            assert!(r.client.is_empty());
        }
        _ => panic!("decode failed"),
    }
}

#[test]
fn decode_rejects_malformed_input() {
    // Empty input, unknown tag, truncated body, trailing garbage.
    assert!(decode_message(&Vec::new()).is_none());
    assert!(decode_message(&vec![9u8, 0, 0]).is_none());
    let m = Message::ClientRequest(req("SET x 1", 100, "C"));
    let mut bytes = encode_message(&m);
    bytes.pop();
    assert!(decode_message(&bytes).is_none());
    let mut padded = encode_message(&m);
    padded.push(0);
    assert!(decode_message(&padded).is_none());
}

#[test]
fn frame_round_trip_short() {
    let m = Message::ClientRequest(req("SET x 1", 100, "C"));
    let framed = frame_message(&m);
    let body = unframe(&framed).expect("frame should parse");
    assert_eq!(body, encode_message(&m));
    assert!(decode_message(&body).is_some());
}

#[test]
fn frame_round_trip_multibyte_length() {
    // An operation over 127 bytes forces a two-byte varint length prefix.
    let long_op: Vec<u8> = (0..200u16).map(|x| (x % 251) as u8).collect();
    let m = Message::ClientRequest(Request::new(long_op.clone(), 42, b"client-9".to_vec()));
    let framed = frame_message(&m);
    assert!(framed[0] >= 128);
    let body = unframe(&framed).expect("frame should parse");
    match decode_message(&body) {
        Some(Message::ClientRequest(r)) => assert_eq!(r.operation, long_op),
        _ => panic!("decode failed"),
    }
}

#[test]
fn unframe_rejects_incomplete_frames() {
    let m = Message::ClientRequest(req("SET x 1", 100, "C"));
    let mut framed = frame_message(&m);
    framed.pop();
    assert!(unframe(&framed).is_none());
    let mut padded = frame_message(&m);
    padded.push(0);
    assert!(unframe(&padded).is_none());
    assert!(unframe(&Vec::new()).is_none());
}
