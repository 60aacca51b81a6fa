//! The peer-wire message codec: a 4-byte big-endian length prefix, a one
//! byte id, and the typed payload. A zero length is a keep-alive frame with
//! no id. `spec_decode` is the specification of the decoder; both exec
//! directions are tied to it, and the round-trip laws close the loop.
use crate::bitfield::bits_of_bytes;
use crate::bitfield::bv_bits;
use crate::bitfield::bv_to_bytes;
use crate::bitfield::lemma_same_bits_same_bytes;
use crate::bitfield::nth_bit;
use crate::error::Error;
use crate::wire::drop_prefix;
use crate::wire::lemma_be16_bytes;
use crate::wire::lemma_be16_roundtrip;
use crate::wire::lemma_be32_bytes;
use crate::wire::lemma_be32_roundtrip;
use crate::wire::push_be16;
use crate::wire::push_be32;
use crate::wire::read_be16;
use crate::wire::read_be32;
use crate::wire::slice_range;
use crate::wire::spec_be16;
use crate::wire::spec_be16_val;
use crate::wire::spec_be32;
use crate::wire::spec_be32_val;
use vstd::prelude::*;

verus! {

/// A typed peer-wire payload. `Empty` is the keep-alive frame, which has
/// no id on the wire.
pub enum MessagePlayload {
    Have(u32),                          // <piece index>
    BitField(bit_vec::BitVec),          // <bitfield>, variant length
    Request(u32, u32, u32),             // <index><begin><length>
    Piece(u32, u32, Vec<u8>),           // <index><begin><data block>
    Cancel(u32, u32, u32),              // <index><begin><length>
    Port(u16),                          // <port>
    Choke,
    UnChoke,
    Interest,
    NotInterest,
    Empty,
}

/// The mathematical shape of a payload: the bitfield as its booleans and
/// the block data as its bytes.
pub enum PayloadView {
    Have(u32),
    BitField(Seq<bool>),
    Request(u32, u32, u32),
    Piece(u32, u32, Seq<u8>),
    Cancel(u32, u32, u32),
    Port(u16),
    Choke,
    UnChoke,
    Interest,
    NotInterest,
    Empty,
}

impl View for MessagePlayload {
    type V = PayloadView;

    open spec fn view(&self) -> PayloadView {
        match self {
            MessagePlayload::Have(x) => PayloadView::Have(*x),
            MessagePlayload::BitField(bv) => PayloadView::BitField(bv_bits(*bv)),
            MessagePlayload::Request(a, b, c) => PayloadView::Request(*a, *b, *c),
            MessagePlayload::Piece(a, b, d) => PayloadView::Piece(*a, *b, d@),
            MessagePlayload::Cancel(a, b, c) => PayloadView::Cancel(*a, *b, *c),
            MessagePlayload::Port(p) => PayloadView::Port(*p),
            MessagePlayload::Choke => PayloadView::Choke,
            MessagePlayload::UnChoke => PayloadView::UnChoke,
            MessagePlayload::Interest => PayloadView::Interest,
            MessagePlayload::NotInterest => PayloadView::NotInterest,
            MessagePlayload::Empty => PayloadView::Empty,
        }
    }
}

/// A framed message: the wire length, the id byte (absent for keep-alive),
/// and the payload.
pub struct Message {
    pub len: usize,
    pub id: Option<u8>,
    pub payload: MessagePlayload,
}

/// The mathematical shape of a message.
pub struct MessageView {
    pub len: int,
    pub id: Option<u8>,
    pub payload: PayloadView,
}

impl View for Message {
    type V = MessageView;

    open spec fn view(&self) -> MessageView {
        MessageView { len: self.len as int, id: self.id, payload: self.payload@ }
    }
}

impl Message {
    pub fn new(len: usize, id: Option<u8>, payload: MessagePlayload) -> (r: Self)
        ensures
            r@.len == len as int,
            r@.id == id,
            r@.payload == payload@,
    {
        Self { len, id, payload }
    }

}

/// The id byte each payload is framed with; keep-alive has none.
pub open spec fn payload_id(p: PayloadView) -> Option<u8> {
    match p {
        PayloadView::Choke => Some(0u8),
        PayloadView::UnChoke => Some(1u8),
        PayloadView::Interest => Some(2u8),
        PayloadView::NotInterest => Some(3u8),
        PayloadView::Have(_) => Some(4u8),
        PayloadView::BitField(_) => Some(5u8),
        PayloadView::Request(_, _, _) => Some(6u8),
        PayloadView::Piece(_, _, _) => Some(7u8),
        PayloadView::Cancel(_, _, _) => Some(8u8),
        PayloadView::Port(_) => Some(9u8),
        PayloadView::Empty => None,
    }
}

/// One bit as the byte 0 or 1; positions past the end count as 0.
pub open spec fn spec_bit(bits: Seq<bool>, i: int) -> u8 {
    if 0 <= i < bits.len() && bits[i] {
        1u8
    } else {
        0u8
    }
}

/// The byte packing bits `8 * m .. 8 * m + 8`, most significant first.
pub open spec fn byte_from_bits(bits: Seq<bool>, m: int) -> u8 {
    ((spec_bit(bits, 8 * m) << 7u8) | (spec_bit(bits, 8 * m + 1) << 6u8) | (spec_bit(
        bits,
        8 * m + 2,
    ) << 5u8) | (spec_bit(bits, 8 * m + 3) << 4u8) | (spec_bit(bits, 8 * m + 4) << 3u8) | (
    spec_bit(bits, 8 * m + 5) << 2u8) | (spec_bit(bits, 8 * m + 6) << 1u8) | spec_bit(
        bits,
        8 * m + 7,
    )) as u8
}

/// The bytes packing a bit sequence most-significant-bit first, the final
/// byte padded with zero bits.
pub open spec fn bytes_of_bits(bits: Seq<bool>) -> Seq<u8> {
    Seq::new(((bits.len() + 7) / 8) as nat, |m: int| byte_from_bits(bits, m))
}

/// The payload bytes that follow the id on the wire.
pub open spec fn payload_bytes(p: PayloadView) -> Seq<u8> {
    match p {
        PayloadView::Have(x) => spec_be32(x),
        PayloadView::BitField(bits) => bytes_of_bits(bits),
        PayloadView::Request(a, b, c) => spec_be32(a) + spec_be32(b) + spec_be32(c),
        PayloadView::Piece(a, b, d) => spec_be32(a) + spec_be32(b) + d,
        PayloadView::Cancel(a, b, c) => spec_be32(a) + spec_be32(b) + spec_be32(c),
        PayloadView::Port(x) => spec_be16(x),
        _ => Seq::<u8>::empty(),
    }
}

/// A message whose frame agrees with its payload: the right id, a length
/// prefix that counts the id and payload bytes, and a bitfield of whole
/// bytes.
pub open spec fn msg_wf(m: MessageView) -> bool {
    &&& m.id == payload_id(m.payload)
    &&& match m.id {
        Some(_) => m.len == 1 + payload_bytes(m.payload).len(),
        None => m.len == 0,
    }
    &&& m.len <= u32::MAX
    &&& (m.payload matches PayloadView::BitField(bits) ==> bits.len() % 8 == 0)
}

/// The exact bytes a message occupies on the wire.
pub open spec fn wire_bytes(m: MessageView) -> Seq<u8> {
    spec_be32(m.len as u32) + match m.id {
        Some(id) => seq![id] + payload_bytes(m.payload),
        None => Seq::<u8>::empty(),
    }
}

/// The payload parsed from an id and the `len - 1` bytes after it, or
/// `None` when the id is unknown or the body has the wrong size.
pub open spec fn frame_payload(id: u8, body: Seq<u8>) -> Option<PayloadView> {
    if id == 0 {
        if body.len() == 0 {
            Some(PayloadView::Choke)
        } else {
            None
        }
    } else if id == 1 {
        if body.len() == 0 {
            Some(PayloadView::UnChoke)
        } else {
            None
        }
    } else if id == 2 {
        if body.len() == 0 {
            Some(PayloadView::Interest)
        } else {
            None
        }
    } else if id == 3 {
        if body.len() == 0 {
            Some(PayloadView::NotInterest)
        } else {
            None
        }
    } else if id == 4 {
        if body.len() == 4 {
            Some(PayloadView::Have(spec_be32_val(body[0], body[1], body[2], body[3])))
        } else {
            None
        }
    } else if id == 5 {
        Some(PayloadView::BitField(bits_of_bytes(body)))
    } else if id == 6 {
        if body.len() == 12 {
            Some(
                PayloadView::Request(
                    spec_be32_val(body[0], body[1], body[2], body[3]),
                    spec_be32_val(body[4], body[5], body[6], body[7]),
                    spec_be32_val(body[8], body[9], body[10], body[11]),
                ),
            )
        } else {
            None
        }
    } else if id == 7 {
        if body.len() >= 8 {
            Some(
                PayloadView::Piece(
                    spec_be32_val(body[0], body[1], body[2], body[3]),
                    spec_be32_val(body[4], body[5], body[6], body[7]),
                    body.skip(8),
                ),
            )
        } else {
            None
        }
    } else if id == 8 {
        if body.len() == 12 {
            Some(
                PayloadView::Cancel(
                    spec_be32_val(body[0], body[1], body[2], body[3]),
                    spec_be32_val(body[4], body[5], body[6], body[7]),
                    spec_be32_val(body[8], body[9], body[10], body[11]),
                ),
            )
        } else {
            None
        }
    } else if id == 9 {
        if body.len() == 2 {
            Some(PayloadView::Port(spec_be16_val(body[0], body[1])))
        } else {
            None
        }
    } else {
        None
    }
}

/// What one decoding step does to a buffer.
pub enum DecodeOutcome {
    /// Not enough bytes yet; the buffer is left untouched.
    NeedMore,
    /// A complete message, consuming the given count of bytes.
    Frame(MessageView, int),
    /// An unusable frame, discarded whole: the given count of bytes.
    BadFrame(int),
}

/// The decoding step on a byte buffer: a keep-alive for a zero length, a
/// parsed message for a known id with a well-sized body, an error frame
/// otherwise; nothing is consumed until the whole frame has arrived.
pub open spec fn spec_decode(buf: Seq<u8>) -> DecodeOutcome {
    if buf.len() < 4 {
        DecodeOutcome::NeedMore
    } else {
        let l = spec_be32_val(buf[0], buf[1], buf[2], buf[3]) as int;
        if l == 0 {
            DecodeOutcome::Frame(MessageView { len: 0, id: None, payload: PayloadView::Empty }, 4)
        } else if buf.len() < 4 + l {
            DecodeOutcome::NeedMore
        } else {
            let id = buf[4];
            let body = buf.subrange(5, 4 + l);
            match frame_payload(id, body) {
                Some(p) => DecodeOutcome::Frame(MessageView { len: l, id: Some(id), payload: p }, 4 + l),
                None => DecodeOutcome::BadFrame(4 + l),
            }
        }
    }
}

/// Encoder and decoder of framed peer-wire messages.
pub struct MessageCodec {}

impl MessageCodec {
    pub fn new() -> (r: Self) {
        Self {  }
    }

    /// Appends the frame of `msg` to `buf`: the length prefix, then the id
    /// and payload bytes if the message has an id.
    pub fn encode(&mut self, msg: Message, buf: &mut Vec<u8>)
        requires
            msg@.len <= u32::MAX,
        ensures
            final(buf)@ == old(buf)@ + wire_bytes(msg@),
    {
        push_be32(buf, msg.len as u32);
        if let Some(val) = msg.id {
            buf.push(val);
            match msg.payload {
                MessagePlayload::BitField(bit_field) => {
                    let mut bytes = bv_to_bytes(&bit_field);
                    proof {
                        lemma_bytes_of_bits(bv_bits(bit_field));
                        lemma_same_bits_same_bytes(bytes@, bytes_of_bits(bv_bits(bit_field)));
                    }
                    buf.append(&mut bytes);
                }
                MessagePlayload::Have(pie_index) => {
                    push_be32(buf, pie_index);
                }
                MessagePlayload::Request(index, begin, length) => {
                    push_be32(buf, index);
                    push_be32(buf, begin);
                    push_be32(buf, length);
                }
                MessagePlayload::Piece(index, begin, data) => {
                    push_be32(buf, index);
                    push_be32(buf, begin);
                    let mut d = data;
                    buf.append(&mut d);
                }
                MessagePlayload::Cancel(index, begin, length) => {
                    push_be32(buf, index);
                    push_be32(buf, begin);
                    push_be32(buf, length);
                }
                MessagePlayload::Port(port) => {
                    push_be16(buf, port);
                }
                _ => {},
            }
        }
        assert(buf@ =~= old(buf)@ + wire_bytes(msg@));
    }

    /// One decoding step on a growing buffer, as `spec_decode` describes:
    /// a complete frame is consumed whole, an incomplete one leaves the
    /// buffer untouched, and an unusable one is discarded with a protocol
    /// error.
    pub fn decode(&mut self, buf: &mut Vec<u8>) -> (r: Result<Option<Message>, Error>)
        ensures
            match spec_decode(old(buf)@) {
                DecodeOutcome::NeedMore => {
                    &&& r matches Ok(opt) && opt is None
                    &&& final(buf)@ == old(buf)@
                },
                DecodeOutcome::Frame(v, c) => {
                    &&& r matches Ok(opt) && opt matches Some(m) && m@ == v && msg_wf(m@)
                    &&& final(buf)@ == old(buf)@.skip(c)
                },
                DecodeOutcome::BadFrame(c) => {
                    &&& r is Err
                    &&& final(buf)@ == old(buf)@.skip(c)
                },
            },
    {
        let buf_len = buf.len();
        if buf_len < 4 {
            return Ok(None);
        }
        let l32 = read_be32(buf, 0);
        if l32 == 0 {
            drop_prefix(buf, 4);
            return Ok(Some(Message { len: 0, id: None, payload: MessagePlayload::Empty }));
        }
        if (buf_len as u64) < 4u64 + (l32 as u64) {
            return Ok(None);
        }
        let l = l32 as usize;
        let total = 4 + l;
        let id = buf[4];
        let ghost body = old(buf)@.subrange(5, 4 + l as int);
        let msg: Message = match id {
            0 | 1 | 2 | 3 => {
                if l != 1 {
                    drop_prefix(buf, total);
                    return Err(Error::NotSupportProtocol("bad frame length".to_owned()));
                }
                let payload = if id == 0 {
                    MessagePlayload::Choke
                } else if id == 1 {
                    MessagePlayload::UnChoke
                } else if id == 2 {
                    MessagePlayload::Interest
                } else {
                    MessagePlayload::NotInterest
                };
                Message { len: l, id: Some(id), payload }
            },
            4 => {
                if l != 5 {
                    drop_prefix(buf, total);
                    return Err(Error::NotSupportProtocol("bad frame length".to_owned()));
                }
                let pie_index = read_be32(buf, 5);
                proof {
                    assert(body[0] == old(buf)@[5] && body[1] == old(buf)@[6] && body[2] == old(
                        buf,
                    )@[7] && body[3] == old(buf)@[8]);
                }
                Message { len: l, id: Some(id), payload: MessagePlayload::Have(pie_index) }
            },
            5 => {
                let raw = slice_range(buf, 5, total);
                let bit_field = crate::bitfield::bv_from_bytes(&raw);
                proof {
                    assert(raw@ =~= body);
                    assert(bv_bits(bit_field) =~= bits_of_bytes(body));
                    assert(bytes_of_bits(bits_of_bytes(body)).len() == body.len());
                }
                Message { len: l, id: Some(id), payload: MessagePlayload::BitField(bit_field) }
            },
            6 | 8 => {
                if l != 13 {
                    drop_prefix(buf, total);
                    return Err(Error::NotSupportProtocol("bad frame length".to_owned()));
                }
                let index = read_be32(buf, 5);
                let begin = read_be32(buf, 9);
                let length = read_be32(buf, 13);
                proof {
                    assert forall|q: int| 0 <= q < 12 implies #[trigger] body[q] == old(buf)@[5
                        + q] by {}
                }
                let payload = if id == 6 {
                    MessagePlayload::Request(index, begin, length)
                } else {
                    MessagePlayload::Cancel(index, begin, length)
                };
                Message { len: l, id: Some(id), payload }
            },
            7 => {
                if l < 9 {
                    drop_prefix(buf, total);
                    return Err(Error::NotSupportProtocol("bad frame length".to_owned()));
                }
                let index = read_be32(buf, 5);
                let begin = read_be32(buf, 9);
                let data = slice_range(buf, 13, total);
                proof {
                    assert forall|q: int| 0 <= q < 8 implies #[trigger] body[q] == old(buf)@[5
                        + q] by {}
                    assert(data@ =~= body.skip(8));
                }
                Message { len: l, id: Some(id), payload: MessagePlayload::Piece(index, begin, data) }
            },
            9 => {
                if l != 3 {
                    drop_prefix(buf, total);
                    return Err(Error::NotSupportProtocol("bad frame length".to_owned()));
                }
                let port = read_be16(buf, 5);
                proof {
                    assert(body[0] == old(buf)@[5] && body[1] == old(buf)@[6]);
                }
                Message { len: l, id: Some(id), payload: MessagePlayload::Port(port) }
            },
            _ => {
                drop_prefix(buf, total);
                return Err(Error::NotSupportProtocol("unrecognized message id".to_owned()));
            },
        };
        drop_prefix(buf, total);
        Ok(Some(msg))
    }
}

/// Codec round trip, first direction: encoding a well-formed message and
/// decoding the bytes gives the same message back, consuming exactly its
/// frame.
pub proof fn lemma_decode_encode(m: MessageView)
    requires
        msg_wf(m),
    ensures
        spec_decode(wire_bytes(m)) == DecodeOutcome::Frame(m, wire_bytes(m).len() as int),
{
    let w = wire_bytes(m);
    let lu = m.len as u32;
    lemma_be32_roundtrip(lu);
    assert(w[0] == spec_be32(lu)[0] && w[1] == spec_be32(lu)[1] && w[2] == spec_be32(lu)[2] && w[3]
        == spec_be32(lu)[3]);
    assert(spec_be32_val(w[0], w[1], w[2], w[3]) == lu);
    match m.id {
        None => {
            assert(m.payload is Empty);
            assert(w.len() == 4);
            assert(spec_decode(w) == DecodeOutcome::Frame(
                MessageView { len: 0, id: None, payload: PayloadView::Empty },
                4,
            ));
            assert(MessageView { len: 0, id: None, payload: PayloadView::Empty } == m);
        },
        Some(idv) => {
            let pb = payload_bytes(m.payload);
            assert(m.len == 1 + pb.len());
            assert(w.len() == 4 + m.len);
            let l = m.len;
            assert(l >= 1);
            assert(w[4] == idv);
            let body = w.subrange(5, 4 + l);
            assert(body =~= pb);
            match m.payload {
                PayloadView::Have(x) => {
                    assert(body[0] == spec_be32(x)[0] && body[1] == spec_be32(x)[1] && body[2]
                        == spec_be32(x)[2] && body[3] == spec_be32(x)[3]);
                    lemma_be32_roundtrip(x);
                    assert(frame_payload(idv, body) == Some(PayloadView::Have(x)));
                },
                PayloadView::BitField(bits) => {
                    let bytes = bytes_of_bits(bits);
                    lemma_bytes_of_bits(bits);
                    assert(bits.len() % 8 == 0);
                    assert(bytes.len() == bits.len() / 8);
                    assert(bits_of_bytes(bytes) =~= bits);
                    assert(frame_payload(idv, body) == Some(PayloadView::BitField(bits)));
                },
                PayloadView::Request(a, b, c) => {
                    assert(body.len() == 12);
                    assert(body[0] == spec_be32(a)[0] && body[1] == spec_be32(a)[1] && body[2]
                        == spec_be32(a)[2] && body[3] == spec_be32(a)[3]);
                    assert(body[4] == spec_be32(b)[0] && body[5] == spec_be32(b)[1] && body[6]
                        == spec_be32(b)[2] && body[7] == spec_be32(b)[3]);
                    assert(body[8] == spec_be32(c)[0] && body[9] == spec_be32(c)[1] && body[10]
                        == spec_be32(c)[2] && body[11] == spec_be32(c)[3]);
                    lemma_be32_roundtrip(a);
                    lemma_be32_roundtrip(b);
                    lemma_be32_roundtrip(c);
                    assert(frame_payload(idv, body) == Some(PayloadView::Request(a, b, c)));
                },
                PayloadView::Piece(a, b, d) => {
                    assert(body.len() == 8 + d.len());
                    assert(body[0] == spec_be32(a)[0] && body[1] == spec_be32(a)[1] && body[2]
                        == spec_be32(a)[2] && body[3] == spec_be32(a)[3]);
                    assert(body[4] == spec_be32(b)[0] && body[5] == spec_be32(b)[1] && body[6]
                        == spec_be32(b)[2] && body[7] == spec_be32(b)[3]);
                    lemma_be32_roundtrip(a);
                    lemma_be32_roundtrip(b);
                    assert(body.skip(8) =~= d);
                    assert(frame_payload(idv, body) == Some(PayloadView::Piece(a, b, d)));
                },
                PayloadView::Cancel(a, b, c) => {
                    assert(body.len() == 12);
                    assert(body[0] == spec_be32(a)[0] && body[1] == spec_be32(a)[1] && body[2]
                        == spec_be32(a)[2] && body[3] == spec_be32(a)[3]);
                    assert(body[4] == spec_be32(b)[0] && body[5] == spec_be32(b)[1] && body[6]
                        == spec_be32(b)[2] && body[7] == spec_be32(b)[3]);
                    assert(body[8] == spec_be32(c)[0] && body[9] == spec_be32(c)[1] && body[10]
                        == spec_be32(c)[2] && body[11] == spec_be32(c)[3]);
                    lemma_be32_roundtrip(a);
                    lemma_be32_roundtrip(b);
                    lemma_be32_roundtrip(c);
                    assert(frame_payload(idv, body) == Some(PayloadView::Cancel(a, b, c)));
                },
                PayloadView::Port(x) => {
                    assert(body[0] == spec_be16(x)[0] && body[1] == spec_be16(x)[1]);
                    lemma_be16_roundtrip(x);
                    assert(frame_payload(idv, body) == Some(PayloadView::Port(x)));
                },
                PayloadView::Choke => {
                    assert(frame_payload(idv, body) == Some(PayloadView::Choke));
                },
                PayloadView::UnChoke => {
                    assert(frame_payload(idv, body) == Some(PayloadView::UnChoke));
                },
                PayloadView::Interest => {
                    assert(frame_payload(idv, body) == Some(PayloadView::Interest));
                },
                PayloadView::NotInterest => {
                    assert(frame_payload(idv, body) == Some(PayloadView::NotInterest));
                },
                PayloadView::Empty => {
                    assert(false);
                },
            }
            assert(frame_payload(idv, body) == Some(m.payload));
            assert(spec_decode(w) == DecodeOutcome::Frame(
                MessageView { len: l, id: Some(idv), payload: m.payload },
                4 + l,
            ));
            assert(MessageView { len: l, id: Some(idv), payload: m.payload } == m);
        },
    }
}

/// A parsed payload re-encodes to exactly the body it was parsed from.
proof fn lemma_frame_payload_bytes(id: u8, body: Seq<u8>, p: PayloadView)
    requires
        frame_payload(id, body) == Some(p),
    ensures
        payload_bytes(p) =~= body,
{
    if id == 4 {
        lemma_be32_bytes(body[0], body[1], body[2], body[3]);
    } else if id == 5 {
        let bits = bits_of_bytes(body);
        lemma_bytes_of_bits(bits);
        assert(bits.len() == 8 * body.len());
        assert(bytes_of_bits(bits).len() == body.len());
        assert forall|i: int| 0 <= i < 8 * body.len() implies #[trigger] nth_bit(
            bytes_of_bits(bits),
            i,
        ) == nth_bit(body, i) by {
            assert(nth_bit(bytes_of_bits(bits), i) == (i < bits.len() && bits[i]));
            assert(bits[i] == nth_bit(body, i));
        }
        lemma_same_bits_same_bytes(bytes_of_bits(bits), body);
    } else if id == 6 || id == 8 {
        lemma_be32_bytes(body[0], body[1], body[2], body[3]);
        lemma_be32_bytes(body[4], body[5], body[6], body[7]);
        lemma_be32_bytes(body[8], body[9], body[10], body[11]);
    } else if id == 7 {
        lemma_be32_bytes(body[0], body[1], body[2], body[3]);
        lemma_be32_bytes(body[4], body[5], body[6], body[7]);
        assert(payload_bytes(p) =~= spec_be32(spec_be32_val(body[0], body[1], body[2], body[3]))
            + spec_be32(spec_be32_val(body[4], body[5], body[6], body[7])) + body.skip(8));
    } else if id == 9 {
        lemma_be16_bytes(body[0], body[1]);
    }
}

/// A parsed payload carries the id it was parsed under.
proof fn lemma_frame_payload_id(id: u8, body: Seq<u8>, p: PayloadView)
    requires
        frame_payload(id, body) == Some(p),
    ensures
        payload_id(p) == Some(id),
        p matches PayloadView::BitField(bits) ==> bits.len() % 8 == 0,
{
    if id == 5 {
        assert(bits_of_bytes(body).len() == 8 * body.len());
    }
}

/// Codec round trip, second direction: any decoded message is well formed
/// and re-encodes to exactly the bytes it was read from.
pub proof fn lemma_encode_decode(buf: Seq<u8>, v: MessageView, c: int)
    requires
        spec_decode(buf) == DecodeOutcome::Frame(v, c),
    ensures
        msg_wf(v),
        4 <= c <= buf.len(),
        wire_bytes(v) =~= buf.subrange(0, c),
{
    let l32 = spec_be32_val(buf[0], buf[1], buf[2], buf[3]);
    let l = l32 as int;
    lemma_be32_bytes(buf[0], buf[1], buf[2], buf[3]);
    if l == 0 {
        assert(v == MessageView { len: 0, id: None, payload: PayloadView::Empty });
        assert(c == 4);
        assert(v.len as u32 == l32);
        assert(wire_bytes(v) =~= buf.subrange(0, 4));
    } else {
        let id = buf[4];
        let body = buf.subrange(5, 4 + l);
        let p = frame_payload(id, body).unwrap();
        assert(v == MessageView { len: l, id: Some(id), payload: p });
        assert(c == 4 + l);
        assert(body.len() == l - 1);
        lemma_frame_payload_bytes(id, body, p);
        lemma_frame_payload_id(id, body, p);
        assert(v.len as u32 == l32);
        assert(msg_wf(v));
        assert(wire_bytes(v) =~= buf.subrange(0, c)) by {
            assert(spec_be32(l32) =~= buf.subrange(0, 4));
            assert(wire_bytes(v).len() == c);
            assert forall|q: int| 0 <= q < c implies #[trigger] wire_bytes(v)[q] == buf.subrange(
                0,
                c,
            )[q] by {
                if q < 4 {
                    assert(wire_bytes(v)[q] == spec_be32(l32)[q]);
                    assert(buf.subrange(0, 4)[q] == buf[q]);
                } else if q == 4 {
                    assert(wire_bytes(v)[q] == id);
                } else {
                    assert(wire_bytes(v)[q] == payload_bytes(p)[q - 5]);
                    assert(payload_bytes(p)[q - 5] == body[q - 5]);
                    assert(body[q - 5] == buf[q]);
                }
            }
        }
    }
}

/// The bits of packed bytes are the packed bits: position `i` of
/// `bytes_of_bits(bits)` reads back `bits[i]`, and the padding reads zero.
pub proof fn lemma_bytes_of_bits(bits: Seq<bool>)
    ensures
        forall|i: int|
            0 <= i < 8 * bytes_of_bits(bits).len() ==> #[trigger] nth_bit(bytes_of_bits(bits), i)
                == (i < bits.len() && bits[i]),
{
    let bytes = bytes_of_bits(bits);
    assert forall|i: int| 0 <= i < 8 * bytes.len() implies #[trigger] nth_bit(bytes, i) == (i
        < bits.len() && bits[i]) by {
        let m = i / 8;
        let j = i % 8;
        assert(0 <= j < 8);
        assert(i == 8 * m + j);
        assert(bytes[m] == byte_from_bits(bits, m));
        lemma_byte_from_bits(bits, m, j);
    }
}

/// Reading bit `j` of the byte packed from positions `8m..8m+8`.
proof fn lemma_byte_from_bits(bits: Seq<bool>, m: int, j: int)
    requires
        0 <= m,
        0 <= j < 8,
    ensures
        ((byte_from_bits(bits, m) >> ((7 - j) as u8)) & 1 == 1) == (8 * m + j < bits.len()
            && bits[8 * m + j]),
{
    let x0 = spec_bit(bits, 8 * m);
    let x1 = spec_bit(bits, 8 * m + 1);
    let x2 = spec_bit(bits, 8 * m + 2);
    let x3 = spec_bit(bits, 8 * m + 3);
    let x4 = spec_bit(bits, 8 * m + 4);
    let x5 = spec_bit(bits, 8 * m + 5);
    let x6 = spec_bit(bits, 8 * m + 6);
    let x7 = spec_bit(bits, 8 * m + 7);
    let b = byte_from_bits(bits, m);
    assert(b == ((x0 << 7u8) | (x1 << 6u8) | (x2 << 5u8) | (x3 << 4u8) | (x4 << 3u8) | (x5 << 2u8)
        | (x6 << 1u8) | x7) as u8);
    let s = (7 - j) as u8;
    assert({
        let bb = ((x0 << 7u8) | (x1 << 6u8) | (x2 << 5u8) | (x3 << 4u8) | (x4 << 3u8) | (x5 << 2u8)
            | (x6 << 1u8) | x7) as u8;
        (x0 <= 1 && x1 <= 1 && x2 <= 1 && x3 <= 1 && x4 <= 1 && x5 <= 1 && x6 <= 1 && x7 <= 1)
            ==> (((bb >> 7u8) & 1 == 1) == (x0 == 1) && ((bb >> 6u8) & 1 == 1) == (x1 == 1) && ((bb
            >> 5u8) & 1 == 1) == (x2 == 1) && ((bb >> 4u8) & 1 == 1) == (x3 == 1) && ((bb >> 3u8)
            & 1 == 1) == (x4 == 1) && ((bb >> 2u8) & 1 == 1) == (x5 == 1) && ((bb >> 1u8) & 1 == 1)
            == (x6 == 1) && ((bb >> 0u8) & 1 == 1) == (x7 == 1))
    }) by (bit_vector);
    if j == 0 {
        assert(s == 7u8);
    } else if j == 1 {
        assert(s == 6u8);
    } else if j == 2 {
        assert(s == 5u8);
    } else if j == 3 {
        assert(s == 4u8);
    } else if j == 4 {
        assert(s == 3u8);
    } else if j == 5 {
        assert(s == 2u8);
    } else if j == 6 {
        assert(s == 1u8);
    } else {
        assert(s == 0u8);
    }
}

} // verus!
