//! The stages of the codec put together.

use crate::builder::{build_tree, huffman_tree};
use crate::code::{codes_from_tree, SymbolCodes};
use crate::counts::{count_symbols, counts_of};
use crate::decode::decode_counted;
use crate::encode::encode_padded;
use crate::error::HuffError;
use crate::laws::{has_two_symbols, lemma_distinct_symbols_of_input, lemma_round_trip};
use vstd::prelude::*;

verus! {

/// One run of the codec over an input that is held in memory: counts the
/// symbols, builds the tree, derives the code table, encodes the input with
/// a zero-padded last byte, and decodes the bytes again, stopping after as
/// many symbols as the input has. The decoded symbols, which are the input,
/// are appended to `output`, and the code table is returned. Fails, without
/// writing, where the input does not hold two different byte values.
pub fn recode(input: &[u8], output: &mut Vec<u8>) -> (done: Result<SymbolCodes, HuffError>)
    requires
        input@.len() <= u32::MAX,
    ensures
        match done {
            Ok(codes) => {
                &&& has_two_symbols(input@)
                &&& codes.matches_tree(huffman_tree(counts_of(input@)))
                &&& final(output)@ == old(output)@ + input@
            },
            Err(e) => {
                &&& e == HuffError::Configuration
                &&& !has_two_symbols(input@)
                &&& final(output)@ == old(output)@
            },
        },
{
    let symbol_counts = count_symbols(input);
    proof {
        lemma_distinct_symbols_of_input(input@);
    }
    let tree = match build_tree(&symbol_counts) {
        Ok(tree) => tree,
        Err(e) => {
            return Err(e);
        },
    };
    let codes = match codes_from_tree(&tree) {
        Ok(codes) => codes,
        Err(e) => {
            return Err(e);
        },
    };
    proof {
        lemma_round_trip(input@, codes);
    }
    let mut encoded: Vec<u8> = Vec::new();
    match encode_padded(input, &mut encoded, &codes) {
        Ok(()) => {},
        Err(e) => {
            proof {
                crate::encode::lemma_covered_prefix(codes, input@);
            }
            return Err(e);
        },
    }
    assert(encoded@ =~= crate::bits::pack_padded(codes.encoding(input@)));
    let written = decode_counted(&encoded, output, &tree, input.len());
    Ok(codes)
}

} // verus!
