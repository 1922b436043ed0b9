//! Reading a byte sequence bit by bit.

use crate::bit_buf::block_get_bit;
use crate::bits::{bits_of_byte, lemma_unpack_first, unpack};
use vstd::prelude::*;

verus! {

/// A reader that hands out the bits of a byte sequence one at a time, the
/// least significant bit of each byte first.
pub struct BitIter<'a> {
    inner: &'a [u8],
    pos: usize,
    cur: u8,
    bit_index: u8,
}

impl<'a> View for BitIter<'a> {
    type V = Seq<bool>;

    /// The bits that are still to come.
    closed spec fn view(&self) -> Seq<bool> {
        bits_of_byte(self.cur).skip(self.bit_index as int) + unpack(
            self.inner@.skip(self.pos as int),
        )
    }
}

impl<'a> BitIter<'a> {
    #[verifier::type_invariant]
    spec fn wf(self) -> bool {
        self.bit_index <= 8 && self.pos <= self.inner@.len()
    }

    /// A reader at the first bit of `inner`.
    pub fn new(inner: &'a [u8]) -> (bits: BitIter<'a>)
        ensures
            bits@ == unpack(inner@),
    {
        let bits = BitIter { inner, pos: 0, cur: 0, bit_index: 8 };
        proof {
            assert(inner@.skip(0) =~= inner@);
            assert(bits@ =~= unpack(inner@));
        }
        bits
    }

    /// The next bit, or `None` where all bits have been read.
    pub fn next(&mut self) -> (bit: Option<bool>)
        ensures
            match bit {
                Some(b) => {
                    &&& old(self)@.len() > 0
                    &&& b == old(self)@[0]
                    &&& final(self)@ == old(self)@.drop_first()
                },
                None => old(self)@.len() == 0 && final(self)@ == old(self)@,
            },
    {
        proof {
            use_type_invariant(&*self);
        }
        if self.bit_index == 8 {
            if self.pos >= self.inner.len() {
                return None;
            }
            proof {
                let rest = self.inner@.skip(self.pos as int);
                lemma_unpack_first(rest);
                assert(rest.drop_first() =~= self.inner@.skip(self.pos + 1));
                assert(bits_of_byte(rest[0]).skip(0) =~= bits_of_byte(rest[0]));
            }
            self.cur = self.inner[self.pos];
            self.pos += 1;
            self.bit_index = 0;
            assert(self@ =~= old(self)@);
        }
        let ghost before = self@;
        self.bit_index += 1;
        let bit = block_get_bit(self.cur, self.bit_index as u64 - 1);
        assert(self@ =~= before.drop_first());
        Some(bit)
    }
}

} // verus!
