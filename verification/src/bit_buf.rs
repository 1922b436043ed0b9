//! The growable bit vector that the codec accumulates bits in.
//!
//! The storage is the `BitVec<u8>` of the `bv` crate. The verifier does not
//! look inside it: what each operation does is stated here and taken on
//! trust.

use crate::bits::{byte_bit, byte_of};
use bv::BitVec;
use bv::Bits;
use vstd::prelude::*;

verus! {

/// A packed, growable sequence of bits.
#[verifier::external_body]
pub struct BitBuf {
    inner: BitVec<u8>,
}

/// The bits that a bit vector holds, in the order in which they were pushed.
pub uninterp spec fn bit_buf_bits(v: BitBuf) -> Seq<bool>;

impl View for BitBuf {
    type V = Seq<bool>;

    open spec fn view(&self) -> Seq<bool> {
        bit_buf_bits(*self)
    }
}

/// `BitVec::new`: makes a bit vector that holds no bits.
#[verifier::external_body]
pub(crate) fn bit_buf_new() -> (v: BitBuf)
    ensures
        bit_buf_bits(v) == Seq::<bool>::empty(),
{
    BitBuf { inner: BitVec::new() }
}

/// `BitVec::len`: the number of bits held.
#[verifier::external_body]
pub(crate) fn bit_buf_len(v: &BitBuf) -> (n: u64)
    ensures
        n == bit_buf_bits(*v).len(),
{
    v.inner.len()
}

/// `BitVec::block_len`: the number of bytes that hold the bits, which is the
/// bit count divided by eight and rounded up. The crate computes it as
/// `(len + 7) >> 3` in a `u64` and narrows that to `usize`, so the call is
/// kept to lengths for which neither step loses anything.
#[verifier::external_body]
pub(crate) fn bit_buf_block_len(v: &BitBuf) -> (n: usize)
    requires
        bit_buf_bits(*v).len() + 7 <= u64::MAX,
        (bit_buf_bits(*v).len() + 7) / 8 <= usize::MAX,
    ensures
        n == (bit_buf_bits(*v).len() + 7) / 8,
{
    v.inner.block_len()
}

/// The length from which `BitVec::push` is no longer called here.
pub const PUSH_LIMIT: u64 = 0x4000_0000_0000_0000;

/// `BitVec::push`: appends one bit at the end. To make room the crate may
/// ask for as many bits again as it holds, and adds that to the length in a
/// `u64`, so the call is kept to lengths that can be doubled.
#[verifier::external_body]
pub(crate) fn bit_buf_push(v: &mut BitBuf, value: bool)
    requires
        bit_buf_bits(*old(v)).len() < PUSH_LIMIT,
    ensures
        bit_buf_bits(*final(v)) == bit_buf_bits(*old(v)).push(value),
{
    v.inner.push(value)
}

/// `BitVec::pop`: removes the last bit and returns it, or returns `None`
/// and changes nothing where there is no bit.
#[verifier::external_body]
pub(crate) fn bit_buf_pop(v: &mut BitBuf) -> (bit: Option<bool>)
    ensures
        match bit {
            Some(b) => {
                &&& bit_buf_bits(*old(v)).len() > 0
                &&& b == bit_buf_bits(*old(v)).last()
                &&& bit_buf_bits(*final(v)) == bit_buf_bits(*old(v)).drop_last()
            },
            None => {
                &&& bit_buf_bits(*old(v)).len() == 0
                &&& bit_buf_bits(*final(v)) == bit_buf_bits(*old(v))
            },
        },
{
    v.inner.pop()
}

/// `BitVec::clear`: removes every bit.
#[verifier::external_body]
pub(crate) fn bit_buf_clear(v: &mut BitBuf)
    ensures
        bit_buf_bits(*final(v)) == Seq::<bool>::empty(),
{
    v.inner.clear()
}

/// `Bits::get_block` of `BitVec<u8>`: the byte at `position`, which holds
/// the bits from `8 * position` on, the first of them in the least
/// significant place. In the last byte the places past the end of the
/// vector are zero. The crate panics where `position` is not below the
/// number of bytes in use.
#[verifier::external_body]
pub(crate) fn bit_buf_get_block(v: &BitBuf, position: usize) -> (block: u8)
    requires
        bit_buf_bits(*v).len() + 7 <= u64::MAX,
        position < (bit_buf_bits(*v).len() + 7) / 8,
    ensures
        block == byte_of(bit_buf_bits(*v).skip(8 * position)),
{
    v.inner.get_block(position)
}

/// `Bits::get_bit` of `u8`: whether the bit at `position` is set, the least
/// significant bit being at position zero. The crate panics from position
/// eight on.
#[verifier::external_body]
pub(crate) fn block_get_bit(block: u8, position: u64) -> (bit: bool)
    requires
        position < 8,
    ensures
        bit == byte_bit(block, position as int),
{
    block.get_bit(position)
}

impl BitBuf {
    /// A bit vector that holds the given bits in the given order.
    pub fn from_bools(bits: &[bool]) -> (v: BitBuf)
        requires
            bits@.len() <= PUSH_LIMIT,
        ensures
            v@ == bits@,
    {
        let mut v = bit_buf_new();
        let mut i: usize = 0;
        while i < bits.len()
            invariant
                i <= bits.len() <= PUSH_LIMIT,
                v@ == bits@.take(i as int),
            decreases bits.len() - i,
        {
            bit_buf_push(&mut v, bits[i]);
            i += 1;
            assert(bits@.take(i as int) =~= bits@.take(i - 1).push(bits@[i - 1]));
        }
        assert(bits@.take(bits@.len() as int) =~= bits@);
        v
    }
}

} // verus!
