//! A growable bit sequence, kept in a `bitvec` vector of bytes that numbers
//! the bits of each byte from the most significant one.

use bitvec::order::Msb0;
use bitvec::vec::BitVec;
use vstd::prelude::*;

verus! {

/// The greatest number of bits that one buffer can hold.
pub const MAX_BITS: usize = usize::MAX / 8;

/// A sequence of bits that grows at its end.
///
/// The bits live in a `bitvec::vec::BitVec<u8, Msb0>`, which Verus cannot look
/// into: what the buffer holds is `buffer_bits`, and each operation on the
/// vector is one trusted function below.
#[verifier::external_body]
#[derive(Debug)]
pub struct BitBuffer {
    bits: BitVec<u8, Msb0>,
}

/// The bits that a buffer holds, first to last.
pub uninterp spec fn buffer_bits(buffer: BitBuffer) -> Seq<bool>;

/// `n` times the bit `value`.
pub open spec fn repeated(value: bool, n: nat) -> Seq<bool> {
    Seq::new(n, |i: int| value)
}

/// The place value of bit `j` of a byte, where bit 0 is the most significant.
pub open spec fn bit_weight(j: int) -> int {
    if j == 0 {
        128
    } else if j == 1 {
        64
    } else if j == 2 {
        32
    } else if j == 3 {
        16
    } else if j == 4 {
        8
    } else if j == 5 {
        4
    } else if j == 6 {
        2
    } else {
        1
    }
}

/// Bit `j` of a byte, where bit 0 is the most significant.
pub open spec fn bit_of_byte(byte: u8, j: int) -> bool {
    (byte as int / bit_weight(j)) % 2 == 1
}

/// The bits of a sequence of bytes: eight per byte, the most significant
/// first.
pub open spec fn bits_of_bytes(bytes: Seq<u8>) -> Seq<bool> {
    Seq::new(8 * bytes.len(), |i: int| bit_of_byte(bytes[i / 8], i % 8))
}

/// A bit as a number.
pub open spec fn bit_value(bit: bool) -> int {
    if bit {
        1
    } else {
        0
    }
}

/// The byte made of the eight bits from `at` on, the first of them the most
/// significant.
pub open spec fn byte_of_bits(bits: Seq<bool>, at: int) -> int {
    128 * bit_value(bits[at]) + 64 * bit_value(bits[at + 1]) + 32 * bit_value(bits[at + 2]) + 16
        * bit_value(bits[at + 3]) + 8 * bit_value(bits[at + 4]) + 4 * bit_value(bits[at + 5]) + 2
        * bit_value(bits[at + 6]) + bit_value(bits[at + 7])
}

/// The bytes of a sequence of bits, eight bits to the byte. Bits behind the
/// last whole byte are left out.
pub open spec fn bytes_of_bits(bits: Seq<bool>) -> Seq<u8> {
    Seq::new(bits.len() / 8, |k: int| byte_of_bits(bits, 8 * k) as u8)
}

/// Each bit of a byte made of eight bits is the bit it was made of.
pub proof fn lemma_bit_of_packed(bits: Seq<bool>, at: int, j: int)
    requires
        0 <= j < 8,
    ensures
        0 <= byte_of_bits(bits, at) < 256,
        bit_of_byte(byte_of_bits(bits, at) as u8, j) == bits[at + j],
{
}

/// Bits packed into bytes and unpacked again are the same bits, where they
/// fill whole bytes.
pub proof fn lemma_unpack_pack(bits: Seq<bool>)
    requires
        bits.len() % 8 == 0,
    ensures
        bits_of_bytes(bytes_of_bits(bits)) == bits,
{
    let bytes = bytes_of_bits(bits);
    assert forall|i: int| 0 <= i < bits.len() implies bits_of_bytes(bytes)[i] == bits[i] by {
        lemma_bit_of_packed(bits, 8 * (i / 8), i % 8);
    }
    assert(bits_of_bytes(bytes) =~= bits);
}

impl View for BitBuffer {
    type V = Seq<bool>;

    open spec fn view(&self) -> Seq<bool> {
        buffer_bits(*self)
    }
}

impl BitBuffer {
    /// `BitVec::new`: a vector without bits.
    #[verifier::external_body]
    pub(crate) fn new() -> (buffer: BitBuffer)
        ensures
            buffer_bits(buffer) == Seq::<bool>::empty(),
    {
        BitBuffer { bits: BitVec::new() }
    }

    /// `BitVec::len`: the number of bits held, which the vector's own
    /// encoding of its length keeps within `MAX_BITS`.
    #[verifier::external_body]
    pub(crate) fn bit_len(&self) -> (n: usize)
        ensures
            n == buffer_bits(*self).len(),
            n <= MAX_BITS,
    {
        self.bits.len()
    }

    /// `BitSlice::index`, by which a `BitVec` is indexed with a position and
    /// which panics past the end: the bit at `index`.
    #[verifier::external_body]
    pub(crate) fn bit_at(&self, index: usize) -> (bit: bool)
        requires
            index < buffer_bits(*self).len(),
        ensures
            bit == buffer_bits(*self)[index as int],
    {
        self.bits[index]
    }

    /// `BitVec::push`, which panics when the vector already holds `MAX_BITS`
    /// bits: the bit is appended.
    #[verifier::external_body]
    pub(crate) fn push(&mut self, bit: bool)
        requires
            buffer_bits(*old(self)).len() < MAX_BITS,
        ensures
            buffer_bits(*final(self)) == buffer_bits(*old(self)).push(bit),
    {
        self.bits.push(bit)
    }

    /// `BitVec::truncate`: the first `len` bits stay, or all of them where
    /// the vector is no longer than that.
    #[verifier::external_body]
    pub(crate) fn truncate(&mut self, len: usize)
        ensures
            buffer_bits(*final(self)) == (if len < buffer_bits(*old(self)).len() {
                buffer_bits(*old(self)).take(len as int)
            } else {
                buffer_bits(*old(self))
            }),
    {
        self.bits.truncate(len)
    }

    /// `BitVec::extend_from_bitslice` on the bits `start..end` of `source`,
    /// taken with `BitSlice::index`. The two panic where the range leaves
    /// `source` or the result would exceed `MAX_BITS` bits: those bits are
    /// appended in order.
    #[verifier::external_body]
    pub(crate) fn extend_from_range(&mut self, source: &BitBuffer, start: usize, end: usize)
        requires
            start <= end <= buffer_bits(*source).len(),
            buffer_bits(*old(self)).len() + (end - start) <= MAX_BITS,
        ensures
            buffer_bits(*final(self)) == buffer_bits(*old(self)) + buffer_bits(*source).subrange(
                start as int,
                end as int,
            ),
    {
        self.bits.extend_from_bitslice(&source.bits[start..end])
    }

    /// `BitVec::resize`, which panics past `MAX_BITS` bits: the vector is cut
    /// to `len` bits, or filled up to `len` bits with `value`.
    #[verifier::external_body]
    pub(crate) fn resize(&mut self, len: usize, value: bool)
        requires
            len <= MAX_BITS,
        ensures
            buffer_bits(*final(self)) == (if len <= buffer_bits(*old(self)).len() {
                buffer_bits(*old(self)).take(len as int)
            } else {
                buffer_bits(*old(self)) + repeated(
                    value,
                    (len - buffer_bits(*old(self)).len()) as nat,
                )
            }),
    {
        self.bits.resize(len, value)
    }

    /// `BitSlice::shift_end`, which panics where `by` exceeds the length: every
    /// bit moves `by` places towards the end, the last `by` bits fall off and
    /// the first `by` bits become zero.
    #[verifier::external_body]
    pub(crate) fn shift_end(&mut self, by: usize)
        requires
            by <= buffer_bits(*old(self)).len(),
        ensures
            buffer_bits(*final(self)) == repeated(false, by as nat) + buffer_bits(*old(self)).take(
                buffer_bits(*old(self)).len() - by,
            ),
    {
        self.bits.shift_end(by)
    }

    /// `BitVec::from_vec`, which panics where the bytes hold more than
    /// `MAX_BITS` bits: the vector holds the bits of the bytes in order, the
    /// most significant bit of each byte first.
    #[verifier::external_body]
    pub(crate) fn from_vec(bytes: Vec<u8>) -> (buffer: BitBuffer)
        requires
            8 * bytes@.len() <= MAX_BITS,
        ensures
            buffer_bits(buffer) == bits_of_bytes(bytes@),
    {
        BitBuffer { bits: BitVec::from_vec(bytes) }
    }

    /// The number of bits in the buffer.
    pub fn len(&self) -> (n: usize)
        ensures
            n == self@.len(),
            n <= MAX_BITS,
    {
        self.bit_len()
    }

    /// The bit at `index`.
    pub fn get(&self, index: usize) -> (bit: bool)
        requires
            index < self@.len(),
        ensures
            bit == self@[index as int],
    {
        self.bit_at(index)
    }

    /// The bits `start..end` of the buffer, as a buffer of their own.
    pub fn slice(&self, start: usize, end: usize) -> (part: BitBuffer)
        requires
            start <= end <= self@.len(),
        ensures
            part@ == self@.subrange(start as int, end as int),
    {
        let mut part = BitBuffer::new();
        let total = self.bit_len();
        assert(end - start <= total);
        part.extend_from_range(self, start, end);
        part
    }

    /// A buffer that holds the given bits.
    pub fn from_bools(bits: &[bool]) -> (buffer: BitBuffer)
        requires
            bits@.len() <= MAX_BITS,
        ensures
            buffer@ == bits@,
    {
        let mut buffer = BitBuffer::new();
        let mut i: usize = 0;
        while i < bits.len()
            invariant
                i <= bits@.len() <= MAX_BITS,
                buffer@ == bits@.take(i as int),
            decreases bits@.len() - i,
        {
            buffer.push(bits[i]);
            i += 1;
            assert(bits@.take(i as int) == bits@.take(i - 1).push(bits@[i - 1]));
        }
        assert(bits@.take(i as int) == bits@);
        buffer
    }

    /// A buffer that holds the bits of the given bytes, the most significant
    /// bit of each byte first.
    pub fn from_bytes(bytes: &[u8]) -> (buffer: BitBuffer)
        requires
            8 * bytes@.len() <= MAX_BITS,
        ensures
            buffer@ == bits_of_bytes(bytes@),
    {
        let mut owned: Vec<u8> = Vec::new();
        let mut i: usize = 0;
        while i < bytes.len()
            invariant
                i <= bytes@.len(),
                owned@ == bytes@.take(i as int),
            decreases bytes@.len() - i,
        {
            owned.push(bytes[i]);
            i += 1;
            assert(bytes@.take(i as int) == bytes@.take(i - 1).push(bytes@[i - 1]));
        }
        assert(bytes@.take(i as int) == bytes@);
        BitBuffer::from_vec(owned)
    }

    /// The bits of the buffer as bytes, eight bits to the byte and the first
    /// of them the most significant.
    pub fn to_bytes(&self) -> (bytes: Vec<u8>)
        requires
            self@.len() % 8 == 0,
        ensures
            bytes@ == bytes_of_bits(self@),
    {
        let count = self.bit_len() / 8;
        let mut bytes: Vec<u8> = Vec::new();
        let mut k: usize = 0;
        while k < count
            invariant
                k <= count,
                count == self@.len() / 8,
                self@.len() % 8 == 0,
                self@.len() <= MAX_BITS,
                bytes@ == bytes_of_bits(self@).take(k as int),
            decreases count - k,
        {
            let at = 8 * k;
            let mut byte: u8 = 0;
            if self.bit_at(at) {
                byte += 128;
            }
            if self.bit_at(at + 1) {
                byte += 64;
            }
            if self.bit_at(at + 2) {
                byte += 32;
            }
            if self.bit_at(at + 3) {
                byte += 16;
            }
            if self.bit_at(at + 4) {
                byte += 8;
            }
            if self.bit_at(at + 5) {
                byte += 4;
            }
            if self.bit_at(at + 6) {
                byte += 2;
            }
            if self.bit_at(at + 7) {
                byte += 1;
            }
            assert(byte == byte_of_bits(self@, 8 * k));
            bytes.push(byte);
            k += 1;
            assert(bytes@ == bytes_of_bits(self@).take(k as int));
        }
        assert(bytes_of_bits(self@).take(k as int) == bytes_of_bits(self@));
        bytes
    }

    /// The bits of the buffer, one `bool` each.
    pub fn to_bools(&self) -> (bits: Vec<bool>)
        ensures
            bits@ == self@,
    {
        let n = self.bit_len();
        let mut bits: Vec<bool> = Vec::new();
        let mut i: usize = 0;
        while i < n
            invariant
                n == self@.len(),
                i <= n,
                bits@ == self@.take(i as int),
            decreases n - i,
        {
            bits.push(self.bit_at(i));
            i += 1;
            assert(self@.take(i as int) == self@.take(i - 1).push(self@[i - 1]));
        }
        assert(self@.take(i as int) == self@);
        bits
    }
}

} // verus!
