use o_torrent::message::Message;
use o_torrent::message::MessageCodec;
use o_torrent::message::MessagePlayload;

fn decode_one(bytes: &[u8]) -> (Result<Option<Message>, o_torrent::error::Error>, Vec<u8>) {
    let mut codec = MessageCodec::new();
    let mut buf: Vec<u8> = bytes.to_vec();
    let r = codec.decode(&mut buf);
    (r, buf)
}

fn encode_one(msg: Message) -> Vec<u8> {
    let mut codec = MessageCodec::new();
    let mut buf: Vec<u8> = Vec::new();
    codec.encode(msg, &mut buf);
    buf
}

#[test]
fn keep_alive_round_trip() {
    // a zero length is a keep-alive; exactly four bytes are consumed
    let (r, rest) = decode_one(&[0, 0, 0, 0]);
    let msg = r.unwrap().unwrap();
    assert!(msg.id.is_none());
    assert!(matches!(msg.payload, MessagePlayload::Empty));
    assert_eq!(rest.len(), 0);
    let out = encode_one(Message::new(0, None, MessagePlayload::Empty));
    assert_eq!(out, vec![0, 0, 0, 0]);
}

#[test]
fn decode_have() {
    let (r, rest) = decode_one(&[0, 0, 0, 5, 4, 0, 0, 0, 42]);
    let msg = r.unwrap().unwrap();
    assert_eq!(msg.id, Some(4));
    assert!(matches!(msg.payload, MessagePlayload::Have(42)));
    assert_eq!(rest.len(), 0);
}

#[test]
fn decode_request() {
    let (r, rest) = decode_one(&[0, 0, 0, 13, 6, 0, 0, 0, 1, 0, 0, 64, 0, 0, 0, 64, 0]);
    let msg = r.unwrap().unwrap();
    assert_eq!(msg.id, Some(6));
    match msg.payload {
        MessagePlayload::Request(index, begin, length) => {
            assert_eq!(index, 1);
            assert_eq!(begin, 16384);
            assert_eq!(length, 16384);
        }
        _ => panic!("expected a request"),
    }
    assert_eq!(rest.len(), 0);
}

#[test]
fn short_buffer_consumes_nothing() {
    let (r, rest) = decode_one(&[0, 0, 0]);
    assert!(matches!(r, Ok(None)));
    assert_eq!(rest, vec![0, 0, 0]);
    // header present, payload missing: still nothing consumed
    let (r2, rest2) = decode_one(&[0, 0, 0, 5, 4, 0, 0]);
    assert!(matches!(r2, Ok(None)));
    assert_eq!(rest2.len(), 7);
}

#[test]
fn unknown_id_discards_the_frame() {
    let (r, rest) = decode_one(&[0, 0, 0, 2, 99, 7, 1, 2]);
    assert!(r.is_err());
    // the frame (4 + 2 bytes) is gone, later bytes stay
    assert_eq!(rest, vec![1, 2]);
}

#[test]
fn wrong_length_is_a_protocol_error() {
    // Have must carry exactly four payload bytes
    let (r, rest) = decode_one(&[0, 0, 0, 6, 4, 0, 0, 0, 42, 9]);
    assert!(r.is_err());
    assert_eq!(rest.len(), 0);
}

#[test]
fn piece_round_trip() {
    let data: Vec<u8> = vec![7, 8, 9, 10, 11];
    let msg = Message::new(9 + data.len(), Some(7), MessagePlayload::Piece(3, 16384, data));
    let wire = encode_one(msg);
    assert_eq!(wire[0..4], [0, 0, 0, 14]);
    let (r, rest) = decode_one(&wire);
    let back = r.unwrap().unwrap();
    match &back.payload {
        MessagePlayload::Piece(index, begin, d) => {
            assert_eq!(*index, 3);
            assert_eq!(*begin, 16384);
            assert_eq!(*d, vec![7, 8, 9, 10, 11]);
        }
        _ => panic!("expected a piece"),
    }
    assert_eq!(rest.len(), 0);
    // re-encoding reproduces the wire bytes
    let again = encode_one(back);
    assert_eq!(again, wire);
}

#[test]
fn bitfield_round_trip() {
    let bits = bit_vec::BitVec::from_bytes(&[0b1010_0001, 0b0100_0000]);
    let msg = Message::new(3, Some(5), MessagePlayload::BitField(bits));
    let wire = encode_one(msg);
    assert_eq!(wire, vec![0, 0, 0, 3, 5, 0b1010_0001, 0b0100_0000]);
    let (r, _) = decode_one(&wire);
    let back = r.unwrap().unwrap();
    match &back.payload {
        MessagePlayload::BitField(bv) => {
            assert_eq!(bv.len(), 16);
            assert_eq!(bv.get(0), Some(true));
            assert_eq!(bv.get(1), Some(false));
            assert_eq!(bv.get(7), Some(true));
            assert_eq!(bv.get(9), Some(true));
        }
        _ => panic!("expected a bitfield"),
    }
    let again = encode_one(back);
    assert_eq!(again, wire);
}

#[test]
fn port_and_choke_round_trip() {
    let wire = encode_one(Message::new(3, Some(9), MessagePlayload::Port(6881)));
    assert_eq!(wire, vec![0, 0, 0, 3, 9, 26, 225]);
    let (r, _) = decode_one(&wire);
    assert!(matches!(r.unwrap().unwrap().payload, MessagePlayload::Port(6881)));
    let wire2 = encode_one(Message::new(1, Some(0), MessagePlayload::Choke));
    assert_eq!(wire2, vec![0, 0, 0, 1, 0]);
    let (r2, _) = decode_one(&wire2);
    assert!(matches!(r2.unwrap().unwrap().payload, MessagePlayload::Choke));
}

#[test]
fn two_frames_in_one_buffer() {
    let mut codec = MessageCodec::new();
    let mut buf: Vec<u8> = vec![0, 0, 0, 1, 1, 0, 0, 0, 5, 4, 0, 0, 0, 3];
    let first = codec.decode(&mut buf).unwrap().unwrap();
    assert!(matches!(first.payload, MessagePlayload::UnChoke));
    let second = codec.decode(&mut buf).unwrap().unwrap();
    assert!(matches!(second.payload, MessagePlayload::Have(3)));
    assert!(codec.decode(&mut buf).unwrap().is_none());
}

#[test]
fn empty_bitfield_frame() {
    // a bitfield message may carry no bytes at all
    let (r, rest) = decode_one(&[0, 0, 0, 1, 5]);
    let msg = r.unwrap().unwrap();
    match &msg.payload {
        MessagePlayload::BitField(bv) => assert_eq!(bv.len(), 0),
        _ => panic!("expected a bitfield"),
    }
    assert_eq!(rest.len(), 0);
    let again = encode_one(msg);
    assert_eq!(again, vec![0, 0, 0, 1, 5]);
}

#[test]
fn interest_declarations_round_trip() {
    for (id, wire_byte) in [(2u8, 2u8), (3, 3)] {
        let payload = if id == 2 {
            MessagePlayload::Interest
        } else {
            MessagePlayload::NotInterest
        };
        let wire = encode_one(Message::new(1, Some(id), payload));
        assert_eq!(wire, vec![0, 0, 0, 1, wire_byte]);
        let (r, _) = decode_one(&wire);
        let back = r.unwrap().unwrap();
        assert_eq!(back.id, Some(id));
    }
}
