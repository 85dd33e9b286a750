//! Bit sequences, held in `bitvec`'s `BitVec<u8, Lsb0>`.
//!
//! Verus cannot look inside a `BitVec`, so the calls into `bitvec` used by the
//! codec are collected here, each behind a small private function whose
//! contract is taken on trust from `bitvec`'s source. Everything else in the
//! crate, the packing rules of the payload included, is proved against these
//! contracts.

use bitvec::order::Lsb0;
use bitvec::vec::BitVec;
use vstd::prelude::*;

verus! {

/// An ordered sequence of bits, stored packed by `bitvec`.
///
/// The field is a `BitVec<u8, Lsb0>`. Its contents are known to proofs only
/// as `bits_of`, which is also the view.
#[verifier::external_body]
#[derive(Debug)]
pub struct BitSequence {
    inner: BitVec<u8, Lsb0>,
}

/// The bits that a bit sequence holds, first to last.
pub uninterp spec fn bits_of(v: BitSequence) -> Seq<bool>;

/// The position, within the first storage byte, of the first bit held.
pub uninterp spec fn head_of(v: BitSequence) -> nat;

impl View for BitSequence {
    type V = Seq<bool>;

    open spec fn view(&self) -> Seq<bool> {
        bits_of(*self)
    }
}

/// The largest number of bits that a bit sequence can hold.
pub open spec fn max_bits() -> nat {
    (usize::MAX / 8) as nat
}

/// Whether bit `j` of a byte is set, counting from the least significant.
pub open spec fn bit_at(b: u8, j: u8) -> bool {
    b & (1u8 << j) != 0
}

/// What the bit at position `i` of `bits` contributes to its byte at bit
/// position `j`; positions past the end contribute nothing.
pub open spec fn bit_weight(bits: Seq<bool>, i: int, j: u8) -> u8 {
    if 0 <= i < bits.len() && bits[i] {
        1u8 << j
    } else {
        0u8
    }
}

/// Byte `k` of the packed form: bits `8k .. 8k + 8`, the first in the least
/// significant position.
pub open spec fn packed_byte(bits: Seq<bool>, k: int) -> u8 {
    bit_weight(bits, 8 * k, 0) | bit_weight(bits, 8 * k + 1, 1) | bit_weight(bits, 8 * k + 2, 2)
        | bit_weight(bits, 8 * k + 3, 3) | bit_weight(bits, 8 * k + 4, 4) | bit_weight(
        bits,
        8 * k + 5,
        5,
    ) | bit_weight(bits, 8 * k + 6, 6) | bit_weight(bits, 8 * k + 7, 7)
}

/// The packed form of a bit sequence: eight bits to the byte, the unused
/// high bits of the last byte zero.
pub open spec fn pack_bits(bits: Seq<bool>) -> Seq<u8> {
    Seq::new(((bits.len() + 7) / 8) as nat, |k: int| packed_byte(bits, k))
}

/// All the bits of a byte sequence, eight to the byte, least significant
/// first.
pub open spec fn unpack_bytes(bytes: Seq<u8>) -> Seq<bool> {
    Seq::new(8 * bytes.len(), |i: int| bit_at(bytes[i / 8], (i % 8) as u8))
}

/// `BitVec::new`: a bit-vector that holds no bits.
#[verifier::external_body]
fn bitvec_new() -> (v: BitSequence)
    ensures
        bits_of(v) == Seq::<bool>::empty(),
{
    BitSequence { inner: BitVec::new() }
}

/// `BitVec::len`: the number of bits held.
#[verifier::external_body]
fn bitvec_len(v: &BitSequence) -> (n: usize)
    ensures
        n == bits_of(*v).len(),
{
    v.inner.len()
}

/// `BitVec::push`: appends one bit. `bitvec` panics when the new length
/// would exceed its capacity, so that is ruled out.
#[verifier::external_body]
fn bitvec_push(v: &mut BitSequence, bit: bool)
    requires
        bits_of(*old(v)).len() < max_bits(),
    ensures
        bits_of(*final(v)) == bits_of(*old(v)).push(bit),
{
    v.inner.push(bit)
}

/// `BitVec::pop`: removes and returns the last bit, or returns `None` and
/// changes nothing when there is none.
#[verifier::external_body]
fn bitvec_pop(v: &mut BitSequence) -> (bit: Option<bool>)
    ensures
        bits_of(*old(v)).len() == 0 ==> bit.is_none() && bits_of(*final(v)) == bits_of(*old(v)),
        bits_of(*old(v)).len() > 0 ==> bit == Some(bits_of(*old(v)).last()) && bits_of(*final(v))
            == bits_of(*old(v)).drop_last(),
{
    v.inner.pop()
}

/// `BitVec::clone`: a bit-vector with the same bits.
#[verifier::external_body]
fn bitvec_clone(v: &BitSequence) -> (copy: BitSequence)
    ensures
        bits_of(copy) == bits_of(*v),
{
    BitSequence { inner: v.inner.clone() }
}

/// `BitVec::extend_from_bitslice`: appends all the bits of `other`. `bitvec`
/// panics when the new length would exceed its capacity, so that is ruled
/// out.
#[verifier::external_body]
fn bitvec_extend(v: &mut BitSequence, other: &BitSequence)
    requires
        bits_of(*old(v)).len() + bits_of(*other).len() <= max_bits(),
    ensures
        bits_of(*final(v)) == bits_of(*old(v)) + bits_of(*other),
{
    v.inner.extend_from_bitslice(other.inner.as_bitslice())
}

/// Indexing a `BitSlice`: the bit at position `i`. `bitvec` panics when `i`
/// is out of range, so that is ruled out.
#[verifier::external_body]
fn bitvec_index(v: &BitSequence, i: usize) -> (bit: bool)
    requires
        i < bits_of(*v).len(),
    ensures
        bit == bits_of(*v)[i as int],
{
    v.inner[i]
}

/// `BitVec::force_align`: moves the bits to the front edge of the storage
/// and leaves the sequence itself unchanged.
#[verifier::external_body]
fn bitvec_force_align(v: &mut BitSequence)
    ensures
        bits_of(*final(v)) == bits_of(*old(v)),
        head_of(*final(v)) == 0,
{
    v.inner.force_align()
}

/// `BitVec::into_vec`: the storage bytes that hold the bits. This is stated
/// of a bit-vector whose bits start at the front edge of the storage. There
/// are as many bytes as the bits need, and bit `i` of the sequence is bit
/// `i % 8` of byte `i / 8`, counting from the least significant. `bitvec`
/// leaves the bits of the last byte beyond the sequence unspecified, and so
/// does this contract.
#[verifier::external_body]
fn bitvec_into_vec(v: BitSequence) -> (bytes: Vec<u8>)
    requires
        head_of(v) == 0,
    ensures
        bytes@.len() == (bits_of(v).len() + 7) / 8,
        forall|i: int|
            0 <= i < bits_of(v).len() ==> bit_at(#[trigger] bytes@[i / 8], (i % 8) as u8)
                == bits_of(v)[i],
{
    v.inner.into_vec()
}

/// `BitVec::from_slice`: a bit-vector over a copy of the bytes, holding all
/// their bits, least significant bit of each byte first. `bitvec` panics when
/// the bytes hold more bits than its capacity, so that is ruled out.
#[verifier::external_body]
fn bitvec_from_slice(bytes: &[u8]) -> (v: BitSequence)
    requires
        8 * bytes@.len() <= max_bits(),
    ensures
        bits_of(v) == unpack_bytes(bytes@),
{
    BitSequence { inner: BitVec::from_slice(bytes) }
}

/// The byte with exactly the low `r` bits set.
fn low_mask(r: usize) -> (m: u8)
    requires
        0 < r < 8,
    ensures
        forall|x: u8, j: u8| j < 8 ==> #[trigger] bit_at(x & m, j) == (j < r && bit_at(x, j)),
{
    if r == 1 {
        assert(forall|x: u8, j: u8|
            j < 8 ==> ((x & 0x01u8) & (1u8 << j) != 0) == (j < 1 && (x & (1u8 << j) != 0)))
            by (bit_vector);
        0x01
    } else if r == 2 {
        assert(forall|x: u8, j: u8|
            j < 8 ==> ((x & 0x03u8) & (1u8 << j) != 0) == (j < 2 && (x & (1u8 << j) != 0)))
            by (bit_vector);
        0x03
    } else if r == 3 {
        assert(forall|x: u8, j: u8|
            j < 8 ==> ((x & 0x07u8) & (1u8 << j) != 0) == (j < 3 && (x & (1u8 << j) != 0)))
            by (bit_vector);
        0x07
    } else if r == 4 {
        assert(forall|x: u8, j: u8|
            j < 8 ==> ((x & 0x0fu8) & (1u8 << j) != 0) == (j < 4 && (x & (1u8 << j) != 0)))
            by (bit_vector);
        0x0f
    } else if r == 5 {
        assert(forall|x: u8, j: u8|
            j < 8 ==> ((x & 0x1fu8) & (1u8 << j) != 0) == (j < 5 && (x & (1u8 << j) != 0)))
            by (bit_vector);
        0x1f
    } else if r == 6 {
        assert(forall|x: u8, j: u8|
            j < 8 ==> ((x & 0x3fu8) & (1u8 << j) != 0) == (j < 6 && (x & (1u8 << j) != 0)))
            by (bit_vector);
        0x3f
    } else {
        assert(forall|x: u8, j: u8|
            j < 8 ==> ((x & 0x7fu8) & (1u8 << j) != 0) == (j < 7 && (x & (1u8 << j) != 0)))
            by (bit_vector);
        0x7f
    }
}

/// A byte is the union of the weights of its eight bits.
proof fn lemma_byte_from_bits(b: u8, bits: Seq<bool>, k: int)
    requires
        forall|j: u8| j < 8 ==> #[trigger] bit_at(b, j) == (8 * k + j < bits.len() && bits[8 * k + j]),
        0 <= k,
    ensures
        b == packed_byte(bits, k),
{
    assert(b == (b & (1u8 << 0u8)) | (b & (1u8 << 1u8)) | (b & (1u8 << 2u8)) | (b & (1u8 << 3u8))
        | (b & (1u8 << 4u8)) | (b & (1u8 << 5u8)) | (b & (1u8 << 6u8)) | (b & (1u8 << 7u8)))
        by (bit_vector);
    assert(forall|j: u8| j < 8 && (b & (1u8 << j) != 0) ==> (b & (1u8 << j)) == (1u8 << j))
        by (bit_vector);
    assert(bit_at(b, 0) == (8 * k + 0 < bits.len() && bits[8 * k + 0]));
    assert(bit_at(b, 1) == (8 * k + 1 < bits.len() && bits[8 * k + 1]));
    assert(bit_at(b, 2) == (8 * k + 2 < bits.len() && bits[8 * k + 2]));
    assert(bit_at(b, 3) == (8 * k + 3 < bits.len() && bits[8 * k + 3]));
    assert(bit_at(b, 4) == (8 * k + 4 < bits.len() && bits[8 * k + 4]));
    assert(bit_at(b, 5) == (8 * k + 5 < bits.len() && bits[8 * k + 5]));
    assert(bit_at(b, 6) == (8 * k + 6 < bits.len() && bits[8 * k + 6]));
    assert(bit_at(b, 7) == (8 * k + 7 < bits.len() && bits[8 * k + 7]));
    assert((b & (1u8 << 0u8)) == bit_weight(bits, 8 * k, 0));
    assert((b & (1u8 << 1u8)) == bit_weight(bits, 8 * k + 1, 1));
    assert((b & (1u8 << 2u8)) == bit_weight(bits, 8 * k + 2, 2));
    assert((b & (1u8 << 3u8)) == bit_weight(bits, 8 * k + 3, 3));
    assert((b & (1u8 << 4u8)) == bit_weight(bits, 8 * k + 4, 4));
    assert((b & (1u8 << 5u8)) == bit_weight(bits, 8 * k + 5, 5));
    assert((b & (1u8 << 6u8)) == bit_weight(bits, 8 * k + 6, 6));
    assert((b & (1u8 << 7u8)) == bit_weight(bits, 8 * k + 7, 7));
}

/// Bit `j` of a packed byte is the bit of the sequence that was put there.
pub proof fn lemma_packed_byte_bit(bits: Seq<bool>, k: int, j: u8)
    requires
        0 <= k,
        j < 8,
    ensures
        bit_at(packed_byte(bits, k), j) == (8 * k + j < bits.len() && bits[8 * k + j]),
{
    let w0 = bit_weight(bits, 8 * k, 0);
    let w1 = bit_weight(bits, 8 * k + 1, 1);
    let w2 = bit_weight(bits, 8 * k + 2, 2);
    let w3 = bit_weight(bits, 8 * k + 3, 3);
    let w4 = bit_weight(bits, 8 * k + 4, 4);
    let w5 = bit_weight(bits, 8 * k + 5, 5);
    let w6 = bit_weight(bits, 8 * k + 6, 6);
    let w7 = bit_weight(bits, 8 * k + 7, 7);
    assert(forall|a0: u8, a1: u8, a2: u8, a3: u8, a4: u8, a5: u8, a6: u8, a7: u8, j: u8|
        j < 8 && (a0 == 0 || a0 == 1u8 << 0u8) && (a1 == 0 || a1 == 1u8 << 1u8) && (a2 == 0 || a2
            == 1u8 << 2u8) && (a3 == 0 || a3 == 1u8 << 3u8) && (a4 == 0 || a4 == 1u8 << 4u8) && (a5
            == 0 || a5 == 1u8 << 5u8) && (a6 == 0 || a6 == 1u8 << 6u8) && (a7 == 0 || a7 == 1u8
            << 7u8) ==> (((a0 | a1 | a2 | a3 | a4 | a5 | a6 | a7) & (1u8 << j) != 0) == ((j == 0
            && a0 != 0) || (j == 1 && a1 != 0) || (j == 2 && a2 != 0) || (j == 3 && a3 != 0) || (j
            == 4 && a4 != 0) || (j == 5 && a5 != 0) || (j == 6 && a6 != 0) || (j == 7 && a7
            != 0)))) by (bit_vector);
    assert(1u8 << 0u8 != 0 && 1u8 << 1u8 != 0 && 1u8 << 2u8 != 0 && 1u8 << 3u8 != 0 && 1u8 << 4u8
        != 0 && 1u8 << 5u8 != 0 && 1u8 << 6u8 != 0 && 1u8 << 7u8 != 0) by (bit_vector);
}

/// Unpacking a packed sequence gives the sequence back, followed by the
/// zero bits that filled the last byte.
pub proof fn lemma_unpack_pack(bits: Seq<bool>)
    ensures
        unpack_bytes(pack_bits(bits)).len() == 8 * ((bits.len() + 7) / 8),
        unpack_bytes(pack_bits(bits)).take(bits.len() as int) == bits,
        forall|i: int|
            bits.len() <= i < unpack_bytes(pack_bits(bits)).len() ==> !unpack_bytes(
                pack_bits(bits),
            )[i],
{
    let bytes = pack_bits(bits);
    let all = unpack_bytes(bytes);
    assert forall|i: int| 0 <= i < all.len() implies all[i] == (i < bits.len() && bits[i]) by {
        lemma_packed_byte_bit(bits, i / 8, (i % 8) as u8);
    }
    assert(all.take(bits.len() as int) =~= bits);
}

impl BitSequence {
    /// A sequence that holds no bits.
    pub fn new() -> (v: BitSequence)
        ensures
            v@ == Seq::<bool>::empty(),
    {
        bitvec_new()
    }

    /// The number of bits held.
    pub fn len(&self) -> (n: usize)
        ensures
            n == self@.len(),
    {
        bitvec_len(self)
    }

    /// The bit at position `i`, if there is one.
    pub fn get(&self, i: usize) -> (bit: Option<bool>)
        ensures
            bit == (if i < self@.len() {
                Some(self@[i as int])
            } else {
                None
            }),
    {
        if i < bitvec_len(self) {
            Some(bitvec_index(self, i))
        } else {
            None
        }
    }

    /// The bit at position `i`.
    pub(crate) fn bit(&self, i: usize) -> (bit: bool)
        requires
            i < self@.len(),
        ensures
            bit == self@[i as int],
    {
        bitvec_index(self, i)
    }

    /// Appends one bit.
    pub(crate) fn push(&mut self, bit: bool)
        requires
            old(self)@.len() < max_bits(),
        ensures
            final(self)@ == old(self)@.push(bit),
    {
        bitvec_push(self, bit)
    }

    /// Removes the last bit.
    pub(crate) fn pop(&mut self)
        requires
            old(self)@.len() > 0,
        ensures
            final(self)@ == old(self)@.drop_last(),
    {
        let _ = bitvec_pop(self);
    }

    /// Appends all the bits of `other`.
    pub(crate) fn extend(&mut self, other: &BitSequence)
        requires
            old(self)@.len() + other@.len() <= max_bits(),
        ensures
            final(self)@ == old(self)@ + other@,
    {
        bitvec_extend(self, other)
    }

    /// A copy with the same bits.
    pub fn duplicate(&self) -> (copy: BitSequence)
        ensures
            copy@ == self@,
    {
        bitvec_clone(self)
    }

    /// The sequence with the given bits, or `None` when they are more than a
    /// sequence can hold.
    pub fn from_bools(bools: &[bool]) -> (r: Option<BitSequence>)
        ensures
            r.is_some() <==> bools@.len() <= max_bits(),
            r matches Some(v) ==> v@ == bools@,
    {
        if bools.len() > usize::MAX / 8 {
            return None;
        }
        let mut v = bitvec_new();
        let mut i: usize = 0;
        while i < bools.len()
            invariant
                i <= bools@.len() <= max_bits(),
                v@ == bools@.take(i as int),
            decreases bools@.len() - i,
        {
            bitvec_push(&mut v, bools[i]);
            assert(bools@.take(i + 1) =~= bools@.take(i as int).push(bools@[i as int]));
            i += 1;
        }
        assert(bools@.take(i as int) =~= bools@);
        Some(v)
    }

    /// The bits, one `bool` each.
    pub fn to_bools(&self) -> (bools: Vec<bool>)
        ensures
            bools@ == self@,
    {
        let n = bitvec_len(self);
        let mut bools: Vec<bool> = Vec::new();
        let mut i: usize = 0;
        while i < n
            invariant
                i <= n == self@.len(),
                bools@ == self@.take(i as int),
            decreases n - i,
        {
            bools.push(bitvec_index(self, i));
            assert(self@.take(i + 1) =~= self@.take(i as int).push(self@[i as int]));
            i += 1;
        }
        assert(self@.take(i as int) =~= self@);
        bools
    }

    /// The packed form: eight bits to the byte, the first bit in the least
    /// significant position, the last byte filled up with zero bits.
    pub fn into_bytes(self) -> (bytes: Vec<u8>)
        ensures
            bytes@ == pack_bits(self@),
    {
        let mut v = self;
        let n = bitvec_len(&v);
        bitvec_force_align(&mut v);
        let mut bytes = bitvec_into_vec(v);
        let ghost raw = bytes@;
        let r = n % 8;
        if r != 0 {
            let last = bytes.len() - 1;
            let m = low_mask(r);
            let x = bytes[last];
            bytes.set(last, x & m);
        }
        proof {
            assert forall|k: int| 0 <= k < bytes@.len() implies bytes@[k] == packed_byte(
                self@,
                k,
            ) by {
                assert forall|j: u8| j < 8 implies #[trigger] bit_at(bytes@[k], j) == (8 * k + j
                    < self@.len() && self@[8 * k + j]) by {
                    let i = 8 * k + j;
                    if i < n {
                        assert(raw[i / 8] == raw[k]);
                        assert((i % 8) as u8 == j);
                        assert(bit_at(raw[k], j) == self@[i]);
                    }
                }
                lemma_byte_from_bits(bytes@[k], self@, k);
            }
            assert(bytes@ =~= pack_bits(self@));
        }
        bytes
    }

    /// The sequence of all the bits of `bytes`, eight to the byte, least
    /// significant first; `None` when they are more than a sequence can hold.
    pub fn from_bytes(bytes: &[u8]) -> (r: Option<BitSequence>)
        ensures
            r.is_some() <==> 8 * bytes@.len() <= max_bits(),
            r matches Some(v) ==> v@ == unpack_bytes(bytes@),
    {
        if bytes.len() > usize::MAX / 64 {
            None
        } else {
            Some(bitvec_from_slice(bytes))
        }
    }
}

} // verus!
