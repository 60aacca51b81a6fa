//! Bencode production for the pieces of the metainfo the core re-encodes:
//! integers as `i<digits>e`, byte strings as `<len>:<bytes>`, and the
//! composition helpers the info dictionary needs. Dictionaries sort their
//! keys, which the callers lay out by hand.
use vstd::prelude::*;
use vstd::string::StringSliceAdditionalSpecFns;

verus! {

/// The decimal digits of `n`, most significant first.
pub open spec fn spec_dec(n: nat) -> Seq<u8>
    decreases n,
{
    if n < 10 {
        seq![(48 + n) as u8]
    } else {
        spec_dec((n / 10) as nat).push((48 + n % 10) as u8)
    }
}

/// A bencoded integer: `i`, an optional minus, the digits, `e`.
pub open spec fn spec_benc_int(v: int) -> Seq<u8> {
    if v >= 0 {
        seq![105u8] + spec_dec(v as nat) + seq![101u8]
    } else {
        seq![105u8, 45u8] + spec_dec((-v) as nat) + seq![101u8]
    }
}

/// A bencoded byte string: the length in decimal, `:`, the bytes.
pub open spec fn spec_benc_bytes(s: Seq<u8>) -> Seq<u8> {
    spec_dec(s.len()) + seq![58u8] + s
}

/// A bencoded text string: its UTF-8 bytes as a byte string.
pub open spec fn spec_benc_str(chars: Seq<char>) -> Seq<u8> {
    spec_benc_bytes(vstd::utf8::encode_utf8(chars))
}

/// Appends the decimal digits of `n`.
pub fn push_dec_u64(buf: &mut Vec<u8>, n: u64)
    ensures
        final(buf)@ == old(buf)@ + spec_dec(n as nat),
    decreases n,
{
    let ghost b0 = buf@;
    if n < 10 {
        buf.push(48 + (n as u8));
        proof {
            assert(buf@ =~= b0 + spec_dec(n as nat));
        }
    } else {
        push_dec_u64(buf, n / 10);
        buf.push(48 + ((n % 10) as u8));
        proof {
            assert(buf@ =~= b0 + spec_dec(n as nat));
        }
    }
}

/// Appends the bencoding of a 64-bit integer.
pub fn push_benc_i64(buf: &mut Vec<u8>, v: i64)
    ensures
        final(buf)@ == old(buf)@ + spec_benc_int(v as int),
{
    let ghost b0 = buf@;
    buf.push(105);
    if v >= 0 {
        push_dec_u64(buf, v as u64);
    } else {
        buf.push(45);
        let mag: u64 = ((-(v + 1)) as u64) + 1;
        proof {
            assert(mag as int == -(v as int));
        }
        push_dec_u64(buf, mag);
    }
    buf.push(101);
    proof {
        assert(buf@ =~= b0 + spec_benc_int(v as int));
    }
}

/// Appends the bencoding of a byte string.
pub fn push_benc_bytes(buf: &mut Vec<u8>, s: &Vec<u8>)
    ensures
        final(buf)@ == old(buf)@ + spec_benc_bytes(s@),
{
    let ghost b0 = buf@;
    push_dec_u64(buf, s.len() as u64);
    buf.push(58);
    buf.extend_from_slice(s.as_slice());
    proof {
        assert(buf@ =~= b0 + spec_benc_bytes(s@));
    }
}

/// Appends the bencoding of a text string: its UTF-8 bytes.
pub fn push_benc_str(buf: &mut Vec<u8>, s: &str)
    ensures
        final(buf)@ == old(buf)@ + spec_benc_str(s@),
{
    let ghost b0 = buf@;
    let bytes = s.as_bytes();
    let blen: usize = bytes.len();
    push_dec_u64(buf, blen as u64);
    buf.push(58);
    buf.extend_from_slice(bytes);
    proof {
        assert(s.spec_bytes() =~= vstd::utf8::encode_utf8(s@));
        assert(buf@ =~= b0 + spec_benc_str(s@));
    }
}

} // verus!
