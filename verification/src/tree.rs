//! The Huffman tree and what it means: which symbols it holds, the code of
//! each, and how a bit sequence is read against it.

use crate::bits::is_prefix;
use vstd::prelude::*;

verus! {

/// An inner node: two subtrees, reached by a zero bit and by a one bit.
#[derive(Debug)]
pub struct HuffParent {
    pub zero: Box<HuffNode>,
    pub one: Box<HuffNode>,
}

/// A leaf: one symbol.
#[derive(Clone, Copy, Debug)]
pub struct HuffLeaf {
    pub symbol: u8,
}

/// A binary tree with symbols at its leaves. Every inner node has exactly
/// two children, each owned by its parent alone.
#[derive(Debug)]
pub enum HuffNode {
    Parent(HuffParent),
    Leaf(HuffLeaf),
}

impl Clone for HuffNode {
    /// A copy of the whole tree.
    fn clone(&self) -> (copy: HuffNode)
        ensures
            copy == *self,
        decreases self,
    {
        match self {
            HuffNode::Leaf(l) => HuffNode::Leaf(HuffLeaf { symbol: l.symbol }),
            HuffNode::Parent(p) => {
                let zero: HuffNode = (*p.zero).clone();
                let one: HuffNode = (*p.one).clone();
                HuffNode::Parent(HuffParent { zero: Box::new(zero), one: Box::new(one) })
            },
        }
    }
}

impl Clone for HuffParent {
    /// A copy of the node and of both subtrees.
    fn clone(&self) -> (copy: HuffParent)
        ensures
            copy == *self,
    {
        let zero: HuffNode = (*self.zero).clone();
        let one: HuffNode = (*self.one).clone();
        HuffParent { zero: Box::new(zero), one: Box::new(one) }
    }
}

impl HuffNode {
    /// The symbols at the leaves, those under the zero child first.
    pub open spec fn leaves(self) -> Seq<u8>
        decreases self,
    {
        match self {
            HuffNode::Leaf(l) => seq![l.symbol],
            HuffNode::Parent(p) => p.zero.leaves() + p.one.leaves(),
        }
    }

    /// Whether some leaf holds the symbol.
    pub open spec fn contains(self, symbol: u8) -> bool {
        self.leaves().contains(symbol)
    }

    /// Whether no symbol is at two leaves.
    pub open spec fn distinct_leaves(self) -> bool {
        self.leaves().no_duplicates()
    }

    /// The number of edges on the longest way from the root to a leaf.
    pub open spec fn height(self) -> nat
        decreases self,
    {
        match self {
            HuffNode::Leaf(_) => 0,
            HuffNode::Parent(p) => 1 + if p.zero.height() >= p.one.height() {
                p.zero.height()
            } else {
                p.one.height()
            },
        }
    }

    /// The sum of the counts of the symbols at the leaves.
    pub open spec fn weight(self, counts: Seq<u32>) -> nat
        decreases self,
    {
        match self {
            HuffNode::Leaf(l) => counts[l.symbol as int] as nat,
            HuffNode::Parent(p) => p.zero.weight(counts) + p.one.weight(counts),
        }
    }

    /// The code of a symbol: the bits on the way from the root to its leaf,
    /// `false` for a step to the zero child and `true` for a step to the one
    /// child. Where several leaves hold the symbol, the last of them in
    /// traversal order counts. A symbol that the tree does not hold has the
    /// empty code.
    pub open spec fn code(self, symbol: u8) -> Seq<bool>
        decreases self,
    {
        match self {
            HuffNode::Leaf(_) => Seq::empty(),
            HuffNode::Parent(p) => if p.one.contains(symbol) {
                seq![true] + p.one.code(symbol)
            } else if p.zero.contains(symbol) {
                seq![false] + p.zero.code(symbol)
            } else {
                Seq::empty()
            },
        }
    }

    /// The codes of the symbols of `input`, one after the other.
    pub open spec fn encoding(self, input: Seq<u8>) -> Seq<bool>
        decreases input.len(),
    {
        if input.len() == 0 {
            Seq::empty()
        } else {
            self.encoding(input.drop_last()) + self.code(input.last())
        }
    }

    /// One walk from the root: a `false` bit leads to the zero child, a
    /// `true` bit to the one child. At a leaf the walk ends with the leaf's
    /// symbol and the bits not yet read. It ends with `None` where the bits
    /// run out before a leaf is reached.
    pub open spec fn decode_one(self, bits: Seq<bool>) -> Option<(u8, Seq<bool>)>
        decreases self,
    {
        match self {
            HuffNode::Leaf(l) => Some((l.symbol, bits)),
            HuffNode::Parent(p) => if bits.len() == 0 {
                None
            } else if bits[0] {
                p.one.decode_one(bits.drop_first())
            } else {
                p.zero.decode_one(bits.drop_first())
            },
        }
    }

    /// The symbols of all the walks that the bits allow, one walk after the
    /// other until the bits run out. Bits left over in the middle of a walk
    /// give no symbol.
    pub open spec fn decode_all(self, bits: Seq<bool>) -> Seq<u8>
        decreases bits.len(),
    {
        match self.decode_one(bits) {
            Some((symbol, rest)) => if rest.len() < bits.len() {
                seq![symbol] + self.decode_all(rest)
            } else {
                Seq::empty()
            },
            None => Seq::empty(),
        }
    }
}

/// A walk never gives bits back: what is left is the end of what was given.
pub proof fn lemma_decode_one_consumes(tree: HuffNode, bits: Seq<bool>)
    ensures
        match tree.decode_one(bits) {
            Some((symbol, rest)) => {
                &&& tree.contains(symbol)
                &&& rest.len() <= bits.len()
                &&& rest == bits.skip(bits.len() - rest.len())
                &&& tree is Parent ==> rest.len() < bits.len()
                &&& bits.len() - rest.len() <= tree.height()
            },
            None => true,
        },
    decreases tree,
{
    match tree {
        HuffNode::Leaf(l) => {
            assert(bits.skip(0) =~= bits);
            assert(seq![l.symbol][0] == l.symbol);
        },
        HuffNode::Parent(p) => {
            if bits.len() > 0 {
                let child = if bits[0] {
                    *p.one
                } else {
                    *p.zero
                };
                lemma_decode_one_consumes(child, bits.drop_first());
                match child.decode_one(bits.drop_first()) {
                    Some((symbol, rest)) => {
                        assert(rest =~= bits.skip(bits.len() - rest.len()));
                        let k = child.leaves().index_of(symbol);
                        if bits[0] {
                            assert(tree.leaves()[p.zero.leaves().len() + k] == symbol);
                        } else {
                            assert(tree.leaves()[k] == symbol);
                        }
                    },
                    None => {},
                }
            }
        },
    }
}

/// A symbol is in a parent exactly if it is in one of the children.
pub proof fn lemma_contains_parent(p: HuffParent, symbol: u8)
    ensures
        HuffNode::Parent(p).contains(symbol) <==> p.zero.contains(symbol) || p.one.contains(
            symbol,
        ),
{
    let t = HuffNode::Parent(p);
    let a = p.zero.leaves();
    let b = p.one.leaves();
    if a.contains(symbol) {
        let k = a.index_of(symbol);
        assert(t.leaves()[k] == symbol);
    }
    if b.contains(symbol) {
        let k = b.index_of(symbol);
        assert(t.leaves()[a.len() + k] == symbol);
    }
    if t.contains(symbol) {
        let k = t.leaves().index_of(symbol);
        if k < a.len() {
            assert(a[k] == symbol);
        } else {
            assert(b[k - a.len()] == symbol);
        }
    }
}

/// The code of a symbol that the tree holds is no longer than the tree is
/// high, and is not empty unless the tree is a single leaf. A symbol that
/// the tree does not hold has the empty code.
pub proof fn lemma_code_len(tree: HuffNode, symbol: u8)
    ensures
        tree.code(symbol).len() <= tree.height(),
        tree.contains(symbol) && tree is Parent ==> tree.code(symbol).len() >= 1,
        !tree.contains(symbol) ==> tree.code(symbol).len() == 0,
    decreases tree,
{
    match tree {
        HuffNode::Leaf(_) => {},
        HuffNode::Parent(p) => {
            lemma_contains_parent(p, symbol);
            lemma_code_len(*p.zero, symbol);
            lemma_code_len(*p.one, symbol);
        },
    }
}

/// Reading the code of a symbol from the root ends at a leaf with that
/// symbol, and leaves what followed the code.
pub proof fn lemma_code_decodes(tree: HuffNode, symbol: u8, rest: Seq<bool>)
    requires
        tree.contains(symbol),
    ensures
        tree.decode_one(tree.code(symbol) + rest) == Some((symbol, rest)),
    decreases tree,
{
    match tree {
        HuffNode::Leaf(l) => {
            assert(seq![l.symbol][tree.leaves().index_of(symbol)] == symbol);
            assert(tree.code(symbol) + rest =~= rest);
        },
        HuffNode::Parent(p) => {
            lemma_contains_parent(p, symbol);
            let bits = tree.code(symbol) + rest;
            if p.one.contains(symbol) {
                assert(bits.drop_first() =~= p.one.code(symbol) + rest);
                lemma_code_decodes(*p.one, symbol, rest);
            } else {
                assert(bits.drop_first() =~= p.zero.code(symbol) + rest);
                lemma_code_decodes(*p.zero, symbol, rest);
            }
        },
    }
}

/// A tree has more leaves than it is high.
pub proof fn lemma_height_below_leaves(tree: HuffNode)
    ensures
        tree.height() < tree.leaves().len(),
    decreases tree,
{
    match tree {
        HuffNode::Leaf(_) => {},
        HuffNode::Parent(p) => {
            lemma_height_below_leaves(*p.zero);
            lemma_height_below_leaves(*p.one);
        },
    }
}

/// The codes of two different symbols of a tree start differently: neither
/// is the beginning of the other.
pub proof fn lemma_prefix_free(tree: HuffNode, a: u8, b: u8)
    requires
        a != b,
        tree.contains(a),
        tree.contains(b),
    ensures
        !is_prefix(tree.code(a), tree.code(b)),
    decreases tree,
{
    match tree {
        HuffNode::Leaf(l) => {
            assert(tree.leaves()[tree.leaves().index_of(a)] == a);
            assert(tree.leaves()[tree.leaves().index_of(b)] == b);
        },
        HuffNode::Parent(p) => {
            lemma_contains_parent(p, a);
            lemma_contains_parent(p, b);
            let ca = tree.code(a);
            let cb = tree.code(b);
            if p.one.contains(a) == p.one.contains(b) {
                let child = if p.one.contains(a) {
                    *p.one
                } else {
                    *p.zero
                };
                lemma_prefix_free(child, a, b);
                if is_prefix(ca, cb) {
                    let sa = child.code(a);
                    let sb = child.code(b);
                    assert(sa =~= ca.drop_first());
                    assert(sb =~= cb.drop_first());
                    assert(sb.take(sa.len() as int) =~= cb.take(ca.len() as int).drop_first());
                    assert(is_prefix(sa, sb));
                }
            } else {
                if is_prefix(ca, cb) {
                    assert(cb.take(ca.len() as int)[0] == ca[0]);
                }
            }
        },
    }
}

} // verus!
