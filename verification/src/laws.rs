//! What holds of the codec as a whole: the tree that the builder makes holds
//! the symbols that occur, and decoding undoes encoding.

use crate::bits::{
    lemma_unpack_pack, lemma_unpack_pack_padded, pack, pack_padded, padding_len, tail, unpack,
    zeros,
};
use crate::builder::{huffman_tree, lemma_huffman_tree};
use crate::code::{lemma_encoding_matches, SymbolCodes};
use crate::counts::{
    counts_of, distinct_symbols, lemma_occurrences_le_len, lemma_occurs_iff_counted,
};
use crate::tree::{lemma_code_decodes, lemma_code_len, HuffNode};
use vstd::prelude::*;

verus! {

/// Whether two different byte values occur in `input`.
pub open spec fn has_two_symbols(input: Seq<u8>) -> bool {
    exists|i: int, j: int| 0 <= i < input.len() && 0 <= j < input.len() && input[i] != input[j]
}

/// Two counts that are not zero make two distinct symbols.
pub proof fn lemma_two_counted(counts: Seq<u32>, n: int, a: int, b: int)
    requires
        0 <= a < b < n,
        counts[a] > 0,
        counts[b] > 0,
    ensures
        distinct_symbols(counts, n) >= 2,
    decreases n,
{
    if b < n - 1 {
        lemma_two_counted(counts, n - 1, a, b);
    } else {
        lemma_one_counted(counts, n - 1, a);
    }
}

/// A count that is not zero makes a distinct symbol.
pub proof fn lemma_one_counted(counts: Seq<u32>, n: int, a: int)
    requires
        0 <= a < n,
        counts[a] > 0,
    ensures
        distinct_symbols(counts, n) >= 1,
    decreases n,
{
    if a < n - 1 {
        lemma_one_counted(counts, n - 1, a);
    }
}

/// Where there are distinct symbols, there are as many counts that are not
/// zero.
pub proof fn lemma_distinct_witness(counts: Seq<u32>, n: int)
    ensures
        distinct_symbols(counts, n) >= 1 ==> exists|a: int| 0 <= a < n && counts[a] > 0,
        distinct_symbols(counts, n) >= 2 ==> exists|a: int, b: int|
            0 <= a < b < n && counts[a] > 0 && counts[b] > 0,
    decreases n,
{
    if n > 0 {
        lemma_distinct_witness(counts, n - 1);
        if counts[n - 1] > 0 {
            if distinct_symbols(counts, n) >= 2 {
                let a = choose|a: int| 0 <= a < n - 1 && counts[a] > 0;
                assert(0 <= a < n - 1 < n && counts[a] > 0 && counts[n - 1] > 0);
            }
        }
    }
}

/// The counts of an input show two or more distinct symbols exactly if two
/// different byte values occur in it.
pub proof fn lemma_distinct_symbols_of_input(input: Seq<u8>)
    requires
        input.len() <= u32::MAX,
    ensures
        distinct_symbols(counts_of(input), 256) >= 2 <==> has_two_symbols(input),
{
    let counts = counts_of(input);
    assert forall|s: u8| counts[s as int] > 0 <==> input.contains(s) by {
        lemma_occurs_iff_counted(input, s);
        lemma_occurrences_le_len(input, s);
    }
    if has_two_symbols(input) {
        let (i, j) = choose|i: int, j: int|
            0 <= i < input.len() && 0 <= j < input.len() && input[i] != input[j];
        let a = input[i];
        let b = input[j];
        assert(input.contains(a));
        assert(input.contains(b));
        if a < b {
            lemma_two_counted(counts, 256, a as int, b as int);
        } else {
            lemma_two_counted(counts, 256, b as int, a as int);
        }
    }
    if distinct_symbols(counts, 256) >= 2 {
        lemma_distinct_witness(counts, 256);
        let (a, b) = choose|a: int, b: int| 0 <= a < b < 256 && counts[a] > 0 && counts[b] > 0;
        assert(input.contains(a as u8));
        assert(input.contains(b as u8));
        let i = input.index_of(a as u8);
        let j = input.index_of(b as u8);
        assert(input[i] != input[j]);
    }
}

/// The encoding of two inputs one after the other is the encoding of the
/// first followed by that of the second.
pub proof fn lemma_encoding_concat(tree: HuffNode, a: Seq<u8>, b: Seq<u8>)
    ensures
        tree.encoding(a + b) == tree.encoding(a) + tree.encoding(b),
    decreases b.len(),
{
    if b.len() == 0 {
        assert(a + b =~= a);
        assert(tree.encoding(a) + tree.encoding(b) =~= tree.encoding(a));
    } else {
        assert((a + b).drop_last() =~= a + b.drop_last());
        lemma_encoding_concat(tree, a, b.drop_last());
        assert(tree.encoding(a + b) =~= tree.encoding(a) + tree.encoding(b));
    }
}

/// Decoding reads an encoding back symbol by symbol, and then goes on with
/// the bits that follow it.
pub proof fn lemma_decode_encoding(tree: HuffNode, input: Seq<u8>, rest: Seq<bool>)
    requires
        tree is Parent,
        forall|i: int| 0 <= i < input.len() ==> tree.contains(#[trigger] input[i]),
    ensures
        tree.decode_all(tree.encoding(input) + rest) == input + tree.decode_all(rest),
    decreases input.len(),
{
    if input.len() == 0 {
        assert(tree.encoding(input) + rest =~= rest);
        assert(input + tree.decode_all(rest) =~= tree.decode_all(rest));
    } else {
        let first = input[0];
        let others = input.drop_first();
        assert(input =~= seq![first] + others);
        lemma_encoding_concat(tree, seq![first], others);
        assert(seq![first].drop_last() =~= Seq::<u8>::empty());
        assert(tree.encoding(seq![first]) =~= tree.code(first)) by {
            assert(tree.encoding(Seq::<u8>::empty()) =~= Seq::<bool>::empty());
        }
        let after = tree.encoding(others) + rest;
        let bits = tree.encoding(input) + rest;
        assert(bits =~= tree.code(first) + after);
        assert(tree.contains(first));
        lemma_code_decodes(tree, first, after);
        lemma_code_len(tree, first);
        assert forall|i: int| 0 <= i < others.len() implies tree.contains(
            #[trigger] others[i],
        ) by {
            assert(others[i] == input[i + 1]);
        }
        lemma_decode_encoding(tree, others, rest);
        assert(tree.decode_all(bits) =~= seq![first] + tree.decode_all(after));
        assert(tree.decode_all(bits) =~= input + tree.decode_all(rest));
    }
}

/// Decoding the padded bytes of an encoding gives the input back in its
/// first symbols. What may follow them comes from the zero bits of the
/// padding; a decoder that stops after as many symbols as the input had
/// does not see it.
pub proof fn lemma_round_trip_with_tree(tree: HuffNode, input: Seq<u8>)
    requires
        tree is Parent,
        forall|i: int| 0 <= i < input.len() ==> tree.contains(#[trigger] input[i]),
    ensures
        tree.decode_all(unpack(pack_padded(tree.encoding(input)))) == input + tree.decode_all(
            zeros(padding_len(tree.encoding(input).len())),
        ),
        tree.decode_all(unpack(pack_padded(tree.encoding(input)))).take(input.len() as int)
            == input,
        tail(tree.encoding(input)).len() == 0 ==> tree.decode_all(
            unpack(pack(tree.encoding(input))),
        ) == input,
{
    let bits = tree.encoding(input);
    let pad = zeros(padding_len(bits.len()));
    lemma_unpack_pack_padded(bits);
    lemma_decode_encoding(tree, input, pad);
    assert((input + tree.decode_all(pad)).take(input.len() as int) =~= input);
    if tail(bits).len() == 0 {
        lemma_unpack_pack(bits);
        assert(unpack(pack(bits)) =~= bits + Seq::<bool>::empty());
        lemma_decode_encoding(tree, input, Seq::empty());
        assert(tree.decode_all(Seq::<bool>::empty()) =~= Seq::<u8>::empty());
        assert(input + Seq::<u8>::empty() =~= input);
    }
}

/// Round trip: for an input in which two different byte values occur, the
/// tree built from the input's own counts has a code for every symbol of
/// the input, and decoding the padded encoding against that tree gives the
/// input back when the decoder stops after as many symbols as the input
/// has.
pub proof fn lemma_round_trip(input: Seq<u8>, codes: SymbolCodes)
    requires
        input.len() <= u32::MAX,
        has_two_symbols(input),
        codes.matches_tree(huffman_tree(counts_of(input))),
    ensures
        huffman_tree(counts_of(input)) is Parent,
        huffman_tree(counts_of(input)).height() <= 255,
        codes.covers(input),
        huffman_tree(counts_of(input)).decode_all(
            unpack(pack_padded(codes.encoding(input))),
        ).len() >= input.len(),
        huffman_tree(counts_of(input)).decode_all(
            unpack(pack_padded(codes.encoding(input))),
        ).take(input.len() as int) == input,
{
    let counts = counts_of(input);
    let tree = huffman_tree(counts);
    lemma_distinct_symbols_of_input(input);
    lemma_huffman_tree(counts);
    assert forall|i: int| 0 <= i < input.len() implies tree.contains(#[trigger] input[i]) by {
        lemma_occurs_iff_counted(input, input[i]);
        lemma_occurrences_le_len(input, input[i]);
        assert(input.contains(input[i]));
        assert(counts[input[i] as int] > 0);
    }
    assert forall|i: int| 0 <= i < input.len() implies codes.code(#[trigger] input[i]).len()
        > 0 by {
        lemma_code_len(tree, input[i]);
    }
    lemma_encoding_matches(codes, tree, input);
    lemma_round_trip_with_tree(tree, input);
}

} // verus!
