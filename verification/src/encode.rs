//! The encoder: from bytes and a code table to packed bytes.

use crate::bit_buf::{
    bit_buf_clear, bit_buf_get_block, bit_buf_len, bit_buf_new, bit_buf_push, block_get_bit,
    BitBuf,
};
use crate::bits::{
    byte_bit, byte_of, lemma_byte_of_bit, lemma_pack_continue, lemma_pack_padded, pack,
    pack_padded, tail,
};
use crate::code::{SymbolCode, SymbolCodes};
use crate::error::HuffError;
use vstd::prelude::*;

verus! {

/// The bits at the end of an encoding that did not fill a byte: fewer than
/// eight, held in the low places of `block`, whose other places are zero.
#[derive(Clone, Copy, Debug)]
pub struct Remainder {
    pub block: u8,
    pub bit_len: u8,
}

impl View for Remainder {
    type V = Seq<bool>;

    open spec fn view(&self) -> Seq<bool> {
        Seq::new(self.bit_len as nat, |i: int| byte_bit(self.block, i))
    }
}

impl SymbolCodes {
    /// The number of symbols at the start of `input` that have a code: the
    /// place of the first symbol without one, or the length of `input`.
    pub open spec fn coded_prefix_len(self, input: Seq<u8>) -> nat
        decreases input.len(),
    {
        if input.len() == 0 || self.code(input[0]).len() == 0 {
            0
        } else {
            1 + self.coded_prefix_len(input.drop_first())
        }
    }

    /// Whether every symbol of `input` has a code.
    pub open spec fn covers(self, input: Seq<u8>) -> bool {
        forall|i: int| 0 <= i < input.len() ==> self.code(#[trigger] input[i]).len() > 0
    }
}

/// Where the first `k` symbols have a code and the next one, if there is
/// one, has none, `k` is the length of the coded prefix.
pub proof fn lemma_coded_prefix_len(codes: SymbolCodes, input: Seq<u8>, k: int)
    requires
        0 <= k <= input.len(),
        forall|i: int| 0 <= i < k ==> codes.code(#[trigger] input[i]).len() > 0,
        k < input.len() ==> codes.code(input[k]).len() == 0,
    ensures
        codes.coded_prefix_len(input) == k,
    decreases input.len(),
{
    if k > 0 {
        let rest = input.drop_first();
        assert(codes.code(input[0]).len() > 0);
        assert forall|i: int| 0 <= i < k - 1 implies codes.code(#[trigger] rest[i]).len() > 0 by {
            assert(rest[i] == input[i + 1]);
        }
        lemma_coded_prefix_len(codes, rest, k - 1);
    }
}

/// Where every symbol has a code, the coded prefix is the whole input.
pub proof fn lemma_covered_prefix(codes: SymbolCodes, input: Seq<u8>)
    requires
        codes.covers(input),
    ensures
        codes.coded_prefix_len(input) == input.len(),
{
    lemma_coded_prefix_len(codes, input, input.len() as int);
}

/// The encoding of an input that ends in `symbol` is the encoding of what
/// comes before, followed by the code of `symbol`.
pub proof fn lemma_encoding_take(codes: SymbolCodes, input: Seq<u8>, k: int)
    requires
        0 <= k < input.len(),
    ensures
        codes.encoding(input.take(k + 1)) == codes.encoding(input.take(k)) + codes.code(input[k]),
{
    assert(input.take(k + 1).drop_last() =~= input.take(k));
}

/// Appends the bits of a code to the accumulator.
fn push_code(accumulator: &mut BitBuf, code: &SymbolCode)
    requires
        old(accumulator)@.len() < 8,
    ensures
        final(accumulator)@ == old(accumulator)@ + code@,
{
    let code_len = code.bit_len();
    let ghost pending = accumulator@;
    let mut i: u64 = 0;
    assert(accumulator@ =~= pending + code@.take(0));
    while i < code_len
        invariant
            i <= code_len,
            code_len == code@.len(),
            code_len <= 255,
            pending.len() < 8,
            accumulator@ == pending + code@.take(i as int),
        decreases code_len - i,
    {
        bit_buf_push(accumulator, code.get_bit(i));
        i += 1;
        assert(accumulator@ =~= pending + code@.take(i as int));
    }
    assert(code@.take(code_len as int) =~= code@);
}

/// Appends each whole byte of the accumulator to `output`.
fn emit_full_bytes(accumulator: &BitBuf, output: &mut Vec<u8>)
    requires
        accumulator@.len() < 8 + 255,
    ensures
        final(output)@ == old(output)@ + pack(accumulator@),
{
    let ghost bits = accumulator@;
    let full_bytes = bit_buf_len(accumulator) / 8;
    let mut k: u64 = 0;
    assert(output@ =~= old(output)@ + pack(bits).take(0));
    while k < full_bytes
        invariant
            k <= full_bytes,
            accumulator@ == bits,
            bits.len() < 8 + 255,
            full_bytes == bits.len() / 8,
            output@ == old(output)@ + pack(bits).take(k as int),
        decreases full_bytes - k,
    {
        let block = bit_buf_get_block(accumulator, k as usize);
        output.push(block);
        k += 1;
        assert(output@ =~= old(output)@ + pack(bits).take(k as int));
    }
    assert(pack(bits).take(full_bytes as int) =~= pack(bits));
}

/// Drops the whole bytes from the accumulator and keeps the bits that
/// follow them.
fn keep_remainder(accumulator: &mut BitBuf)
    requires
        old(accumulator)@.len() < 8 + 255,
    ensures
        final(accumulator)@ == tail(old(accumulator)@),
{
    let ghost bits = accumulator@;
    let full_bytes = bit_buf_len(accumulator) / 8;
    let remainder_len = bit_buf_len(accumulator) - full_bytes * 8;
    if remainder_len > 0 {
        let remainder = bit_buf_get_block(accumulator, full_bytes as usize);
        bit_buf_clear(accumulator);
        let mut j: u64 = 0;
        assert(accumulator@ =~= tail(bits).take(0));
        while j < remainder_len
            invariant
                j <= remainder_len,
                remainder_len == tail(bits).len(),
                remainder_len < 8,
                remainder == byte_of(tail(bits)),
                accumulator@ == tail(bits).take(j as int),
            decreases remainder_len - j,
        {
            proof {
                lemma_byte_of_bit(tail(bits), j as int);
            }
            bit_buf_push(accumulator, block_get_bit(remainder, j));
            j += 1;
            assert(accumulator@ =~= tail(bits).take(j as int));
        }
        assert(tail(bits).take(remainder_len as int) =~= tail(bits));
    } else {
        bit_buf_clear(accumulator);
        assert(tail(bits) =~= Seq::<bool>::empty());
    }
}

/// The bits of the accumulator, which are fewer than eight, as a value.
fn take_remainder(accumulator: &BitBuf) -> (remainder: Remainder)
    requires
        accumulator@.len() < 8,
    ensures
        remainder@ == accumulator@,
        remainder.bit_len < 8,
        remainder.block == byte_of(remainder@),
{
    let bit_len = bit_buf_len(accumulator);
    let block = if bit_len > 0 {
        bit_buf_get_block(accumulator, 0)
    } else {
        0
    };
    let remainder = Remainder { block, bit_len: bit_len as u8 };
    proof {
        let left = accumulator@;
        assert(left.skip(0) =~= left);
        assert forall|j: int| 0 <= j < left.len() implies remainder@[j] == left[j] by {
            lemma_byte_of_bit(left, j);
        }
        assert(remainder@ =~= left);
        if bit_len == 0 {
            assert(byte_of(left) == 0u8) by {
                assert(0u8 | 0u8 == 0u8) by (bit_vector);
            }
        }
    }
    remainder
}

/// Encodes `input` with a code table and appends the bytes that the code
/// bits fill to `output`. The bits after the last whole byte are not
/// written: they are returned. Fails at the first symbol that the table has
/// no code for; the bytes filled up to that symbol are then in `output`.
pub fn encode(input: &[u8], output: &mut Vec<u8>, symbol_codes: &SymbolCodes) -> (encoded: Result<
    Remainder,
    HuffError,
>)
    ensures
        match encoded {
            Ok(remainder) => {
                &&& symbol_codes.covers(input@)
                &&& final(output)@ == old(output)@ + pack(symbol_codes.encoding(input@))
                &&& remainder@ == tail(symbol_codes.encoding(input@))
                &&& remainder.bit_len < 8
                &&& remainder.block == byte_of(remainder@)
            },
            Err(e) => {
                let k = symbol_codes.coded_prefix_len(input@) as int;
                &&& k < input@.len()
                &&& e == HuffError::ContractViolation { symbol: input@[k] }
                &&& final(output)@ == old(output)@ + pack(symbol_codes.encoding(input@.take(k)))
            },
        },
{
    let mut accumulator = bit_buf_new();
    let mut idx: usize = 0;
    proof {
        assert(input@.take(0) =~= Seq::<u8>::empty());
        assert(tail(Seq::<bool>::empty()) =~= Seq::<bool>::empty());
        assert(pack(Seq::<bool>::empty()) =~= Seq::<u8>::empty());
        assert(old(output)@ + Seq::<u8>::empty() =~= old(output)@);
    }
    while idx < input.len()
        invariant
            idx <= input@.len(),
            forall|i: int| 0 <= i < idx ==> symbol_codes.code(#[trigger] input@[i]).len() > 0,
            accumulator@ == tail(symbol_codes.encoding(input@.take(idx as int))),
            output@ == old(output)@ + pack(symbol_codes.encoding(input@.take(idx as int))),
        decreases input.len() - idx,
    {
        let byte = input[idx];
        let code = symbol_codes.codes[byte as usize];
        let ghost done = symbol_codes.encoding(input@.take(idx as int));
        if code.bit_len() == 0 {
            proof {
                lemma_coded_prefix_len(*symbol_codes, input@, idx as int);
            }
            return Err(HuffError::ContractViolation { symbol: byte });
        }
        push_code(&mut accumulator, &code);
        emit_full_bytes(&accumulator, output);
        proof {
            lemma_encoding_take(*symbol_codes, input@, idx as int);
            lemma_pack_continue(done, code@);
            assert(output@ =~= old(output)@ + (pack(done) + pack(accumulator@)));
        }
        keep_remainder(&mut accumulator);
        idx += 1;
    }
    proof {
        assert(input@.take(input@.len() as int) =~= input@);
    }
    Ok(take_remainder(&accumulator))
}

/// Encodes `input` as `encode` does, and then writes the bits that did not
/// fill a byte as one more byte, filled up with zero bits.
pub fn encode_padded(input: &[u8], output: &mut Vec<u8>, symbol_codes: &SymbolCodes) -> (encoded:
    Result<(), HuffError>)
    ensures
        match encoded {
            Ok(_) => {
                &&& symbol_codes.covers(input@)
                &&& final(output)@ == old(output)@ + pack_padded(symbol_codes.encoding(input@))
            },
            Err(e) => {
                let k = symbol_codes.coded_prefix_len(input@) as int;
                &&& k < input@.len()
                &&& e == HuffError::ContractViolation { symbol: input@[k] }
                &&& final(output)@ == old(output)@ + pack(symbol_codes.encoding(input@.take(k)))
            },
        },
{
    match encode(input, output, symbol_codes) {
        Ok(remainder) => {
            proof {
                lemma_pack_padded(symbol_codes.encoding(input@));
            }
            if remainder.bit_len > 0 {
                let ghost whole = output@;
                output.push(remainder.block);
                assert(output@ =~= old(output)@ + pack_padded(symbol_codes.encoding(input@)));
            }
            Ok(())
        },
        Err(e) => Err(e),
    }
}

} // verus!
