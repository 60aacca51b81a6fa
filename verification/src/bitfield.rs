//! The peer availability bitfield is kept in `bit_vec::BitVec`, the same
//! structure the rest of the protocol code exchanges. The type is opaque
//! here; `bv_bits` names its boolean contents, and the small wrappers below
//! state what each method does to those contents.
use vstd::prelude::*;

verus! {

#[verifier::external_type_specification]
#[verifier::external_body]
#[verifier::reject_recursive_types(B)]
pub struct ExBitVec<B>(bit_vec::BitVec<B>);

/// The boolean contents of a `bit_vec::BitVec`, in index order.
pub uninterp spec fn bv_bits(bv: bit_vec::BitVec) -> Seq<bool>;

/// Bit `i` of a byte string, counting most-significant-bit first within
/// each byte, so bit 0 is the top bit of byte 0.
pub open spec fn nth_bit(bytes: Seq<u8>, i: int) -> bool {
    (bytes[i / 8] >> ((7 - (i % 8)) as u8)) & 1 == 1
}

/// All `8 * bytes.len()` bits of a byte string, most significant first.
pub open spec fn bits_of_bytes(bytes: Seq<u8>) -> Seq<bool> {
    Seq::new((8 * bytes.len()) as nat, |i: int| nth_bit(bytes, i))
}

/// Relies on bit_vec::BitVec::new: it returns the empty bit vector.
#[verifier::external_body]
pub fn bv_new() -> (r: bit_vec::BitVec)
    ensures
        bv_bits(r) == Seq::<bool>::empty(),
{
    bit_vec::BitVec::new()
}

/// Relies on bit_vec::BitVec::from_bytes: each byte becomes eight bits,
/// most significant bit first.
#[verifier::external_body]
pub fn bv_from_bytes(bytes: &Vec<u8>) -> (r: bit_vec::BitVec)
    ensures
        bv_bits(r) == bits_of_bytes(bytes@),
{
    bit_vec::BitVec::from_bytes(bytes.as_slice())
}

/// Relies on bit_vec::BitVec::to_bytes: bits are packed most significant
/// first and the final partial byte is padded with zero bits.
#[verifier::external_body]
pub fn bv_to_bytes(bv: &bit_vec::BitVec) -> (r: Vec<u8>)
    ensures
        r@.len() == (bv_bits(*bv).len() + 7) / 8,
        forall|i: int|
            0 <= i < 8 * r@.len() ==> #[trigger] nth_bit(r@, i) == (i < bv_bits(*bv).len()
                && bv_bits(*bv)[i]),
{
    bv.to_bytes()
}

/// Relies on bit_vec::BitVec::len: the number of bits held.
#[verifier::external_body]
pub fn bv_len(bv: &bit_vec::BitVec) -> (r: usize)
    ensures
        bv_bits(*bv).len() == r as nat,
{
    bv.len()
}

/// Relies on bit_vec::BitVec::get: `Some` of bit `i` when in range,
/// `None` otherwise.
#[verifier::external_body]
pub fn bv_get(bv: &bit_vec::BitVec, i: usize) -> (r: Option<bool>)
    ensures
        r == if (i as int) < bv_bits(*bv).len() {
            Some(bv_bits(*bv)[i as int])
        } else {
            None::<bool>
        },
{
    bv.get(i)
}

/// Relies on bit_vec::BitVec::set: writes bit `i`, which must be in range
/// (the call panics outside it, so the range is required here).
#[verifier::external_body]
pub fn bv_set(bv: &mut bit_vec::BitVec, i: usize, x: bool)
    requires
        (i as int) < bv_bits(*old(bv)).len(),
    ensures
        bv_bits(*final(bv)) == bv_bits(*old(bv)).update(i as int, x),
{
    bv.set(i, x)
}

/// Two bytes agreeing on all eight bit positions are equal.
proof fn lemma_u8_bits_eq(x: u8, y: u8)
    requires
        ((x >> 7u8) & 1 == 1) == ((y >> 7u8) & 1 == 1),
        ((x >> 6u8) & 1 == 1) == ((y >> 6u8) & 1 == 1),
        ((x >> 5u8) & 1 == 1) == ((y >> 5u8) & 1 == 1),
        ((x >> 4u8) & 1 == 1) == ((y >> 4u8) & 1 == 1),
        ((x >> 3u8) & 1 == 1) == ((y >> 3u8) & 1 == 1),
        ((x >> 2u8) & 1 == 1) == ((y >> 2u8) & 1 == 1),
        ((x >> 1u8) & 1 == 1) == ((y >> 1u8) & 1 == 1),
        ((x >> 0u8) & 1 == 1) == ((y >> 0u8) & 1 == 1),
    ensures
        x == y,
{
    assert((((x >> 7u8) & 1 == 1) == ((y >> 7u8) & 1 == 1) && ((x >> 6u8) & 1 == 1) == ((y >> 6u8)
        & 1 == 1) && ((x >> 5u8) & 1 == 1) == ((y >> 5u8) & 1 == 1) && ((x >> 4u8) & 1 == 1) == ((
    y >> 4u8) & 1 == 1) && ((x >> 3u8) & 1 == 1) == ((y >> 3u8) & 1 == 1) && ((x >> 2u8) & 1 == 1)
        == ((y >> 2u8) & 1 == 1) && ((x >> 1u8) & 1 == 1) == ((y >> 1u8) & 1 == 1) && ((x >> 0u8)
        & 1 == 1) == ((y >> 0u8) & 1 == 1)) ==> x == y) by (bit_vector);
}

/// Byte strings of equal length with the same bits are the same bytes.
pub proof fn lemma_same_bits_same_bytes(a: Seq<u8>, b: Seq<u8>)
    requires
        a.len() == b.len(),
        forall|i: int| 0 <= i < 8 * a.len() ==> #[trigger] nth_bit(a, i) == nth_bit(b, i),
    ensures
        a =~= b,
{
    assert forall|m: int| 0 <= m < a.len() implies a[m] == b[m] by {
        assert forall|j: int| 0 <= j < 8 implies #[trigger] nth_bit(a, 8 * m + j) == nth_bit(
            b,
            8 * m + j,
        ) && (8 * m + j) / 8 == m && (8 * m + j) % 8 == j by {
            assert(0 <= 8 * m + j < 8 * a.len());
            assert((8 * m + j) / 8 == m && (8 * m + j) % 8 == j) by (nonlinear_arith)
                requires
                    0 <= j < 8,
            ;
        }
        assert(nth_bit(a, 8 * m + 0) == nth_bit(b, 8 * m + 0));
        assert(nth_bit(a, 8 * m + 1) == nth_bit(b, 8 * m + 1));
        assert(nth_bit(a, 8 * m + 2) == nth_bit(b, 8 * m + 2));
        assert(nth_bit(a, 8 * m + 3) == nth_bit(b, 8 * m + 3));
        assert(nth_bit(a, 8 * m + 4) == nth_bit(b, 8 * m + 4));
        assert(nth_bit(a, 8 * m + 5) == nth_bit(b, 8 * m + 5));
        assert(nth_bit(a, 8 * m + 6) == nth_bit(b, 8 * m + 6));
        assert(nth_bit(a, 8 * m + 7) == nth_bit(b, 8 * m + 7));
        lemma_u8_bits_eq(a[m], b[m]);
    }
}

} // verus!
