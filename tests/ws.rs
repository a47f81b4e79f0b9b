use webcore::http::Request;
use webcore::ws::{accept_key, handshake_response, DataFrame, Error, Message, OpCode};

fn round_trip(opcode: OpCode, fin: bool, len: usize) {
    let payload: Vec<u8> = (0..len).map(|i| (i % 251) as u8).collect();
    let mut bytes = DataFrame::new(fin, opcode, payload.clone()).into_bytes();
    let wire = bytes.len();
    bytes.extend_from_slice(&[0x81, 0x00, 0xff]);
    let (f, used) = DataFrame::read_single(&bytes).unwrap();
    assert_eq!(used, wire);
    assert_eq!(f.fin(), fin);
    assert_eq!(f.opcode(), opcode);
    assert_eq!(f.payload(), &payload);
}

#[test]
fn frames_round_trip_across_length_forms() {
    for len in [0usize, 1, 125, 126, 127, 65535, 65536, 70000] {
        round_trip(OpCode::BINARY, true, len);
    }
    round_trip(OpCode::TEXT, false, 5);
    round_trip(OpCode::CONTINUATION, true, 300);
    round_trip(OpCode::PING, true, 0);
}

#[test]
fn length_markers() {
    assert_eq!(DataFrame::binary(vec![0; 125]).into_bytes()[1], 125);
    let b = DataFrame::binary(vec![0; 126]).into_bytes();
    assert_eq!(&b[1..4], &[126, 0, 126]);
    let b = DataFrame::binary(vec![0; 65535]).into_bytes();
    assert_eq!(&b[1..4], &[126, 255, 255]);
    let b = DataFrame::binary(vec![0; 65536]).into_bytes();
    assert_eq!(&b[1..10], &[127, 0, 0, 0, 0, 0, 1, 0, 0]);
}

#[test]
fn large_frame_uses_eight_byte_length() {
    let b = DataFrame::binary(vec![7u8; 70000]).into_bytes();
    assert_eq!(b[0], 0x82);
    assert_eq!(b[1], 127);
    assert_eq!(&b[2..10], &70000u64.to_be_bytes());
    assert_eq!(b.len(), 10 + 70000);
}

#[test]
fn fragments_join_into_one_message() {
    let mut bytes = DataFrame::new(false, OpCode::TEXT, b"Hel".to_vec()).into_bytes();
    bytes.extend(DataFrame::new(false, OpCode::CONTINUATION, b"lo, ".to_vec()).into_bytes());
    bytes.extend(DataFrame::new(true, OpCode::CONTINUATION, b"world".to_vec()).into_bytes());
    let (f, used) = DataFrame::read(&bytes).unwrap();
    assert_eq!(used, bytes.len());
    assert_eq!(f.opcode(), OpCode::TEXT);
    assert!(f.fin());
    assert_eq!(f.payload(), &b"Hello, world".to_vec());
    match Message::from_frame(f) {
        Some(Message::String(s)) => assert_eq!(s, "Hello, world"),
        other => panic!("{:?}", other),
    }
}

#[test]
fn masked_text_echo() {
    let key = [0x37u8, 0xfa, 0x21, 0x3d];
    let mut bytes = vec![0x81u8, 0x80 | 2];
    bytes.extend_from_slice(&key);
    bytes.push(b'h' ^ key[0]);
    bytes.push(b'i' ^ key[1]);
    let (f, used) = DataFrame::read(&bytes).unwrap();
    assert_eq!(used, bytes.len());
    let m = Message::from_frame(f).unwrap();
    assert!(matches!(&m, Message::String(s) if s == "hi"));
    let reply = DataFrame::from_message(m).into_bytes();
    assert_eq!(reply, vec![0x81, 0x02, b'h', b'i']);
}

#[test]
fn frame_errors() {
    assert!(matches!(DataFrame::read_single(&vec![0x83, 0x00]), Err(Error::InvalidOpCode)));
    assert!(matches!(DataFrame::read_single(&vec![0x81]), Err(Error::IOError(_))));
    assert!(matches!(DataFrame::read_single(&vec![0x81, 0x05, b'a']), Err(Error::IOError(_))));
    assert!(matches!(DataFrame::read_single(&vec![0x81, 126, 0]), Err(Error::IOError(_))));
    let unfinished = DataFrame::new(false, OpCode::TEXT, b"a".to_vec()).into_bytes();
    assert!(matches!(DataFrame::read(&unfinished), Err(Error::IOError(_))));
}

#[test]
fn messages_map_to_frames() {
    let f = DataFrame::from_message(Message::Binary(vec![1, 2]));
    assert_eq!(f.opcode(), OpCode::BINARY);
    assert_eq!(f.payload(), &vec![1, 2]);
    let f = DataFrame::from_message(Message::Close);
    assert_eq!(f.opcode(), OpCode::CLOSE);
    assert!(f.payload().is_empty());
    assert!(matches!(Message::from_frame(DataFrame::from_message(Message::Ping)), Some(Message::Ping)));
    assert!(matches!(Message::from_frame(DataFrame::from_message(Message::Pong)), Some(Message::Pong)));
    assert!(Message::from_frame(DataFrame::new(true, OpCode::TEXT, vec![0xff])).is_none());
    assert!(Message::from_frame(DataFrame::new(true, OpCode::CONTINUATION, vec![])).is_none());
    assert_eq!(OpCode::PONG.to_byte(), 0xA);
    assert!(matches!(OpCode::from_bits(0x9), Ok(OpCode::PING)));
}

#[test]
fn handshake_accept_value() {
    assert_eq!(accept_key("dGhlIHNhbXBsZSBub25jZQ=="), "s3pPLMBiTxaQ9kYGzzhZRbK+xOo=");
    let text = b"GET /chat HTTP/1.1\r\nHost: x\r\nUpgrade: websocket\r\nConnection: Upgrade\r\nSec-WebSocket-Key: dGhlIHNhbXBsZSBub25jZQ==\r\n\r\n".to_vec();
    let (req, _) = Request::decode(&text).unwrap();
    let r = handshake_response(&req).unwrap();
    assert_eq!(r.code(), 101);
    assert_eq!(r.header().get_first("Sec-WebSocket-Accept"), Some("s3pPLMBiTxaQ9kYGzzhZRbK+xOo="));
    assert_eq!(r.header().get_first("Upgrade"), Some("websocket"));
    assert_eq!(r.header().get_first("Connection"), Some("Upgrade"));
}

#[test]
fn plain_request_is_no_handshake() {
    let (req, _) = Request::decode(&b"GET / HTTP/1.1\r\nUpgrade: websocket\r\n\r\n".to_vec()).unwrap();
    assert!(handshake_response(&req).is_none());
}
