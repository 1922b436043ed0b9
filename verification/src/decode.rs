//! The decoder: from packed bytes and the tree back to symbols.

use crate::bit_iter::BitIter;
use crate::bits::unpack;
use crate::tree::{lemma_decode_one_consumes, HuffNode};
use vstd::prelude::*;

verus! {

/// Reads one symbol: walks from the root of `tree` along the bits that
/// `bits` hands out until a leaf is reached. Returns `None` where the bits
/// run out before that; no bit is left then.
pub fn decode_symbol(bits: &mut BitIter, tree: &HuffNode) -> (symbol: Option<u8>)
    ensures
        match tree.decode_one(old(bits)@) {
            Some((s, rest)) => symbol == Some(s) && final(bits)@ == rest,
            None => symbol is None && final(bits)@.len() == 0,
        },
    decreases tree,
{
    match tree {
        HuffNode::Leaf(l) => Some(l.symbol),
        HuffNode::Parent(p) => {
            match bits.next() {
                None => None,
                Some(bit) => {
                    if bit {
                        decode_symbol(bits, &p.one)
                    } else {
                        decode_symbol(bits, &p.zero)
                    }
                },
            }
        },
    }
}

/// Decodes the bits of `input` against `tree` and appends the symbols to
/// `output`, one symbol after the other until the bits run out. Trailing
/// bits that end in the middle of a code give no symbol.
pub fn decode(input: &[u8], output: &mut Vec<u8>, tree: &HuffNode)
    requires
        tree is Parent,
    ensures
        final(output)@ == old(output)@ + tree.decode_all(unpack(input@)),
{
    let mut iter = BitIter::new(input);
    let ghost all = tree.decode_all(unpack(input@));
    assert(output@ + all =~= old(output)@ + all);
    loop
        invariant
            tree is Parent,
            output@ + tree.decode_all(iter@) == old(output)@ + all,
        ensures
            output@ == old(output)@ + all,
        decreases iter@.len(),
    {
        let ghost bits = iter@;
        let ghost emitted = output@;
        proof {
            lemma_decode_one_consumes(*tree, bits);
        }
        match decode_symbol(&mut iter, tree) {
            Some(symbol) => {
                output.push(symbol);
                assert(output@ + tree.decode_all(iter@) =~= emitted + tree.decode_all(bits));
            },
            None => {
                assert(emitted + tree.decode_all(bits) =~= emitted);
                break ;
            },
        }
    }
}

/// Decodes as `decode` does, but stops as soon as `count` symbols have been
/// written. Returns the number of symbols written, which is less than
/// `count` only where the bits ran out first.
pub fn decode_counted(input: &[u8], output: &mut Vec<u8>, tree: &HuffNode, count: usize) -> (written:
    usize)
    requires
        tree is Parent,
    ensures
        written <= count,
        written <= tree.decode_all(unpack(input@)).len(),
        written == count || written == tree.decode_all(unpack(input@)).len(),
        final(output)@ == old(output)@ + tree.decode_all(unpack(input@)).take(written as int),
{
    let mut iter = BitIter::new(input);
    let ghost all = tree.decode_all(unpack(input@));
    let mut written: usize = 0;
    assert(output@ =~= old(output)@ + all.take(0));
    assert(all.skip(0) =~= all);
    while written < count
        invariant
            tree is Parent,
            written <= count,
            written <= all.len(),
            tree.decode_all(iter@) == all.skip(written as int),
            output@ == old(output)@ + all.take(written as int),
        ensures
            written <= count,
            written <= all.len(),
            written == count || written == all.len(),
            output@ == old(output)@ + all.take(written as int),
        decreases count - written,
    {
        let ghost bits = iter@;
        proof {
            lemma_decode_one_consumes(*tree, bits);
        }
        match decode_symbol(&mut iter, tree) {
            Some(symbol) => {
                assert(all.skip(written as int)[0] == symbol);
                assert(tree.decode_all(iter@) =~= all.skip(written as int).drop_first());
                output.push(symbol);
                written += 1;
                assert(all.skip(written - 1).drop_first() =~= all.skip(written as int));
                assert(output@ =~= old(output)@ + all.take(written as int));
            },
            None => {
                assert(all.skip(written as int).len() == 0);
                break ;
            },
        }
    }
    written
}

} // verus!
