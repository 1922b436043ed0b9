//! The code table: for each byte value the bits of its code, packed.

use crate::bit_buf::{
    bit_buf_block_len, bit_buf_get_block, bit_buf_len, bit_buf_new, bit_buf_pop, bit_buf_push,
    block_get_bit, BitBuf,
};
use crate::bits::{byte_bit, byte_of, is_prefix, lemma_byte_of_bit};
use crate::error::HuffError;
use crate::tree::{lemma_code_len, lemma_contains_parent, lemma_prefix_free, HuffNode};
use vstd::prelude::*;

verus! {

/// The code of one symbol: up to 255 bits, packed eight to a byte with the
/// first bit in the least significant place. A code of no bits stands for a
/// symbol that has no code.
#[derive(Clone, Copy, Debug)]
pub struct SymbolCode {
    packed_bits: [u8; 32],
    length: u8,
}

impl View for SymbolCode {
    type V = Seq<bool>;

    /// The bits of the code, first bit first.
    closed spec fn view(&self) -> Seq<bool> {
        Seq::new(self.length as nat, |i: int| byte_bit(self.packed_bits@[i / 8], i % 8))
    }
}

impl Default for SymbolCode {
    /// The code of no bits.
    fn default() -> (code: SymbolCode)
        ensures
            code@ == Seq::<bool>::empty(),
    {
        let code = SymbolCode { packed_bits: [0u8; 32], length: 0 };
        assert(code@ =~= Seq::<bool>::empty());
        code
    }
}

impl SymbolCode {
    /// Packs the bits of a bit vector into a code. Fails where there are
    /// more than 255 of them.
    pub fn from_bits(bits: &BitBuf) -> (packed: Result<SymbolCode, HuffError>)
        requires
            bits@.len() > 0,
        ensures
            match packed {
                Ok(code) => bits@.len() <= 255 && code@ == bits@,
                Err(e) => e == HuffError::RepresentationLimit && bits@.len() > 255,
            },
    {
        let length = bit_buf_len(bits);
        if length > 255 {
            return Err(HuffError::RepresentationLimit);
        }
        let mut packed_bits = [0u8; 32];
        let block_len = bit_buf_block_len(bits);
        let mut i: usize = 0;
        while i < block_len
            invariant
                i <= block_len <= 32,
                block_len == (bits@.len() + 7) / 8,
                bits@.len() <= 255,
                forall|k: int| 0 <= k < i ==> packed_bits@[k] == byte_of(bits@.skip(8 * k)),
            decreases block_len - i,
        {
            packed_bits[i] = bit_buf_get_block(bits, i);
            i += 1;
        }
        let code = SymbolCode { packed_bits, length: length as u8 };
        proof {
            assert forall|j: int| 0 <= j < bits@.len() implies code@[j] == bits@[j] by {
                lemma_byte_of_bit(bits@.skip(8 * (j / 8)), j % 8);
            }
            assert(code@ =~= bits@);
        }
        Ok(code)
    }

    /// The number of bits of the code.
    pub fn bit_len(&self) -> (n: u64)
        ensures
            n == self@.len(),
            n <= 255,
    {
        self.length as u64
    }

    /// The byte at `position` of the packed bits.
    pub fn get_block(&self, position: usize) -> (block: u8)
        requires
            position < 32,
        ensures
            forall|j: int|
                0 <= j < 8 && 8 * position + j < self@.len() ==> byte_bit(block, j)
                    == self@[8 * position + j],
    {
        let block = self.packed_bits[position];
        proof {
            assert forall|j: int| 0 <= j < 8 && 8 * position + j < self@.len() implies byte_bit(
                block,
                j,
            ) == self@[8 * position + j] by {
                assert((8 * position + j) / 8 == position);
                assert((8 * position + j) % 8 == j);
            }
        }
        block
    }

    /// The bit at `position` of the code.
    pub fn get_bit(&self, position: u64) -> (bit: bool)
        requires
            position < self@.len(),
        ensures
            bit == self@[position as int],
    {
        let block = self.packed_bits[(position / 8) as usize];
        block_get_bit(block, position % 8)
    }
}

/// `String::push`: appends one character at the end of a string.
#[verifier::external_body]
fn string_push(text: &mut String, c: char)
    ensures
        final(text)@ == old(text)@.push(c),
{
    text.push(c)
}

/// The bits of a code written out, `'1'` for a set bit and `'0'` for a
/// clear one, first bit first.
pub open spec fn bit_chars(bits: Seq<bool>) -> Seq<char> {
    Seq::new(
        bits.len(),
        |i: int|
            if bits[i] {
                '1'
            } else {
                '0'
            },
    )
}

/// Writes the bits of a code out as a string of the characters `0` and `1`.
pub fn bits_to_string(code: &SymbolCode) -> (text: String)
    ensures
        text@ == bit_chars(code@),
{
    let mut result = String::new();
    let bit_len = code.bit_len();
    let mut i: u64 = 0;
    while i < bit_len
        invariant
            i <= bit_len,
            bit_len == code@.len(),
            result@ == bit_chars(code@.take(i as int)),
        decreases bit_len - i,
    {
        string_push(
            &mut result,
            if code.get_bit(i) {
                '1'
            } else {
                '0'
            },
        );
        i += 1;
        assert(result@ =~= bit_chars(code@.take(i as int)));
    }
    assert(code@.take(bit_len as int) =~= code@);
    result
}

/// The code of each byte value: that of byte `b` is at index `b`.
#[derive(Clone, Copy)]
pub struct SymbolCodes {
    pub codes: [SymbolCode; 256],
}

impl SymbolCodes {
    /// The bits of the code of a symbol.
    pub open spec fn code(self, symbol: u8) -> Seq<bool> {
        self.codes@[symbol as int]@
    }

    /// The codes of the symbols of `input`, one after the other.
    pub open spec fn encoding(self, input: Seq<u8>) -> Seq<bool>
        decreases input.len(),
    {
        if input.len() == 0 {
            Seq::empty()
        } else {
            self.encoding(input.drop_last()) + self.code(input.last())
        }
    }

    /// Whether the table holds for each symbol the code that the tree gives
    /// it.
    pub open spec fn matches_tree(self, tree: HuffNode) -> bool {
        forall|symbol: u8| self.code(symbol) == tree.code(symbol)
    }

    /// Whether no code in the table is the beginning of the code of another
    /// symbol.
    pub open spec fn prefix_free(self) -> bool {
        forall|a: u8, b: u8|
            a != b && self.code(a).len() > 0 && self.code(b).len() > 0 ==> !is_prefix(
                #[trigger] self.code(a),
                #[trigger] self.code(b),
            )
    }
}

/// A table made from a tree encodes as the tree does.
pub proof fn lemma_encoding_matches(codes: SymbolCodes, tree: HuffNode, input: Seq<u8>)
    requires
        codes.matches_tree(tree),
    ensures
        codes.encoding(input) == tree.encoding(input),
    decreases input.len(),
{
    if input.len() > 0 {
        lemma_encoding_matches(codes, tree, input.drop_last());
    }
}

/// The codes that a tree gives to its symbols are free of prefixes.
pub proof fn lemma_table_prefix_free(codes: SymbolCodes, tree: HuffNode)
    requires
        codes.matches_tree(tree),
    ensures
        codes.prefix_free(),
{
    assert forall|a: u8, b: u8|
        a != b && codes.code(a).len() > 0 && codes.code(b).len() > 0 implies !is_prefix(
        #[trigger] codes.code(a),
        #[trigger] codes.code(b),
    ) by {
        lemma_code_len(tree, a);
        lemma_code_len(tree, b);
        lemma_prefix_free(tree, a, b);
    }
}

/// Derives the code table of a tree: the code of each symbol is the way
/// from the root to its leaf, and a symbol that the tree does not hold gets
/// the code of no bits. Fails where the tree is higher than a code is long.
pub fn codes_from_tree(tree: &HuffNode) -> (table: Result<SymbolCodes, HuffError>)
    requires
        tree is Parent,
    ensures
        match table {
            Ok(codes) => {
                &&& tree.height() <= 255
                &&& codes.matches_tree(*tree)
                &&& codes.prefix_free()
                &&& forall|symbol: u8| codes.code(symbol).len() > 0 <==> tree.contains(symbol)
            },
            Err(e) => e == HuffError::RepresentationLimit && tree.height() > 255,
        },
{
    let mut codes = [SymbolCode::default(); 256];
    let mut cur_bits = bit_buf_new();
    match codes_from_tree_impl(tree, &mut codes, &mut cur_bits) {
        Ok(()) => {
            let table = SymbolCodes { codes };
            proof {
                assert forall|symbol: u8| table.code(symbol) == tree.code(symbol) by {
                    lemma_code_len(*tree, symbol);
                    if tree.contains(symbol) {
                        assert(Seq::<bool>::empty() + tree.code(symbol) =~= tree.code(symbol));
                    } else {
                        assert(tree.code(symbol) =~= Seq::<bool>::empty());
                    }
                }
                lemma_table_prefix_free(table, *tree);
                assert forall|symbol: u8|
                    table.code(symbol).len() > 0 <==> tree.contains(symbol) by {
                    lemma_code_len(*tree, symbol);
                }
            }
            Ok(table)
        },
        Err(e) => Err(e),
    }
}

/// Walks the tree below a node that is reached by the bits in `cur_bits`,
/// and stores for each leaf the way to it.
fn codes_from_tree_impl(
    tree: &HuffNode,
    codes: &mut [SymbolCode; 256],
    cur_bits: &mut BitBuf,
) -> (done: Result<(), HuffError>)
    requires
        old(cur_bits)@.len() > 0 || tree is Parent,
    ensures
        match done {
            Ok(_) => {
                &&& old(cur_bits)@.len() + tree.height() <= 255
                &&& final(cur_bits)@ == old(cur_bits)@
                &&& forall|symbol: u8|
                    (#[trigger] final(codes)@[symbol as int])@ == if tree.contains(symbol) {
                        old(cur_bits)@ + tree.code(symbol)
                    } else {
                        old(codes)@[symbol as int]@
                    }
            },
            Err(e) => {
                &&& e == HuffError::RepresentationLimit
                &&& old(cur_bits)@.len() + tree.height() > 255
            },
        },
    decreases tree,
{
    let ghost prefix = cur_bits@;
    match tree {
        HuffNode::Parent(p) => {
            if bit_buf_len(cur_bits) >= 255 {
                return Err(HuffError::RepresentationLimit);
            }
            bit_buf_push(cur_bits, false);
            match codes_from_tree_impl(&p.zero, codes, cur_bits) {
                Ok(()) => {},
                Err(e) => {
                    return Err(e);
                },
            }
            let ghost after_zero = codes@;
            let _ = bit_buf_pop(cur_bits);
            assert(cur_bits@ =~= prefix);
            bit_buf_push(cur_bits, true);
            match codes_from_tree_impl(&p.one, codes, cur_bits) {
                Ok(()) => {},
                Err(e) => {
                    return Err(e);
                },
            }
            let _ = bit_buf_pop(cur_bits);
            proof {
                assert(cur_bits@ =~= prefix);
                assert forall|symbol: u8|
                    (#[trigger] codes@[symbol as int])@ == if tree.contains(symbol) {
                        prefix + tree.code(symbol)
                    } else {
                        old(codes)@[symbol as int]@
                    } by {
                    lemma_contains_parent(*p, symbol);
                    let _ = after_zero[symbol as int];
                    if p.one.contains(symbol) {
                        assert(prefix.push(true) + p.one.code(symbol) =~= prefix + tree.code(
                            symbol,
                        ));
                    } else if p.zero.contains(symbol) {
                        assert(prefix.push(false) + p.zero.code(symbol) =~= prefix + tree.code(
                            symbol,
                        ));
                    }
                }
            }
            Ok(())
        },
        HuffNode::Leaf(l) => {
            match SymbolCode::from_bits(cur_bits) {
                Ok(code) => {
                    codes[l.symbol as usize] = code;
                    proof {
                        assert forall|symbol: u8|
                            (#[trigger] codes@[symbol as int])@ == if tree.contains(symbol) {
                                prefix + tree.code(symbol)
                            } else {
                                old(codes)@[symbol as int]@
                            } by {
                            assert(prefix + Seq::<bool>::empty() =~= prefix);
                            if tree.contains(symbol) {
                                assert(tree.leaves()[tree.leaves().index_of(symbol)] == symbol);
                            } else {
                                assert(tree.leaves()[0] == l.symbol);
                            }
                        }
                    }
                    Ok(())
                },
                Err(e) => Err(e),
            }
        },
    }
}

} // verus!
