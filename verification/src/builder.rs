//! Building the Huffman tree from the counts of the symbols.
//!
//! The builder keeps the trees made so far in a queue ordered by weight. It
//! starts with one leaf for each symbol that occurs, put in by rising symbol
//! value, and then merges the two trees of least weight until one is left.
//! Among trees of equal weight the one that entered the queue first leaves
//! first, so the tree built from given counts is always the same one.

use crate::counts::{distinct_symbols, total, SymbolCounts};
use crate::error::HuffError;
use crate::keyed::Keyed;
use crate::queue::{
    enqueue, insert_pos, lemma_enqueue_sorted, lemma_insert_pos, sorted_by_key, MinQueue,
};
use crate::tree::{lemma_height_below_leaves, HuffLeaf, HuffNode, HuffParent};
use vstd::multiset::Multiset;
use vstd::prelude::*;

verus! {

/// A leaf for a symbol, keyed by the count of that symbol.
pub open spec fn leaf_entry(counts: Seq<u32>, symbol: int) -> Keyed<u64, HuffNode> {
    Keyed {
        key: counts[symbol] as u64,
        value: HuffNode::Leaf(HuffLeaf { symbol: symbol as u8 }),
    }
}

/// The queue that the builder starts from, as far as the symbols below `n`
/// go: a leaf for each of them that occurs, put in by rising symbol value.
pub open spec fn leaf_queue(counts: Seq<u32>, n: int) -> Seq<Keyed<u64, HuffNode>>
    decreases n,
{
    if n <= 0 {
        Seq::empty()
    } else if counts[n - 1] > 0 {
        enqueue(leaf_queue(counts, n - 1), leaf_entry(counts, n - 1))
    } else {
        leaf_queue(counts, n - 1)
    }
}

/// The parent of two queued trees: the first becomes the zero child, the
/// second the one child, and the key is the sum of their keys.
pub open spec fn merged(a: Keyed<u64, HuffNode>, b: Keyed<u64, HuffNode>) -> Keyed<u64, HuffNode> {
    Keyed {
        key: (a.key + b.key) as u64,
        value: HuffNode::Parent(HuffParent { zero: Box::new(a.value), one: Box::new(b.value) }),
    }
}

/// One step of the builder: the two entries at the front leave the queue,
/// and their parent enters it.
pub open spec fn merge_step(q: Seq<Keyed<u64, HuffNode>>) -> Seq<Keyed<u64, HuffNode>> {
    enqueue(q.skip(2), merged(q[0], q[1]))
}

/// The tree that is left when the builder has merged a queue down to one
/// entry.
pub open spec fn merge_all(q: Seq<Keyed<u64, HuffNode>>) -> HuffNode
    decreases q.len(),
    via merge_all_decreases
{
    if q.len() < 2 {
        q[0].value
    } else {
        merge_all(merge_step(q))
    }
}

#[via_fn]
proof fn merge_all_decreases(q: Seq<Keyed<u64, HuffNode>>) {
    if q.len() >= 2 {
        lemma_insert_pos(q.skip(2), merged(q[0], q[1]).key);
    }
}

/// The Huffman tree of a table of counts.
pub open spec fn huffman_tree(counts: Seq<u32>) -> HuffNode {
    merge_all(leaf_queue(counts, 256))
}

/// All the leaf symbols of the trees in a queue.
pub open spec fn forest_leaves(q: Seq<Keyed<u64, HuffNode>>) -> Multiset<u8>
    decreases q.len(),
{
    if q.len() == 0 {
        Multiset::empty()
    } else {
        forest_leaves(q.drop_last()).add(q.last().value.leaves().to_multiset())
    }
}

/// What holds of the queue throughout the building of the tree for
/// `counts`: it is ordered by key, the key of each tree is the tree's
/// weight, and the trees together hold each symbol that occurs once and no
/// other symbol.
pub open spec fn queue_inv(q: Seq<Keyed<u64, HuffNode>>, counts: Seq<u32>) -> bool {
    &&& counts.len() == 256
    &&& sorted_by_key(q)
    &&& forall|i: int| 0 <= i < q.len() ==> (#[trigger] q[i]).key == q[i].value.weight(counts)
    &&& forall|s: u8|
        #[trigger] forest_leaves(q).count(s) == if counts[s as int] > 0 {
            1nat
        } else {
            0nat
        }
    &&& forest_leaves(q).len() == distinct_symbols(counts, 256)
}

proof fn lemma_forest_concat(a: Seq<Keyed<u64, HuffNode>>, b: Seq<Keyed<u64, HuffNode>>)
    ensures
        forest_leaves(a + b) == forest_leaves(a).add(forest_leaves(b)),
    decreases b.len(),
{
    broadcast use vstd::multiset::group_multiset_axioms;

    if b.len() == 0 {
        assert(a + b =~= a);
        assert(forest_leaves(a + b) =~= forest_leaves(a).add(forest_leaves(b)));
    } else {
        assert((a + b).drop_last() =~= a + b.drop_last());
        lemma_forest_concat(a, b.drop_last());
        assert(forest_leaves(a + b) =~= forest_leaves(a).add(forest_leaves(b)));
    }
}

proof fn lemma_forest_single(e: Keyed<u64, HuffNode>)
    ensures
        forest_leaves(seq![e]) == e.value.leaves().to_multiset(),
{
    broadcast use vstd::multiset::group_multiset_axioms;

    let none = Seq::<Keyed<u64, HuffNode>>::empty();
    assert(seq![e].drop_last() =~= none);
    assert(forest_leaves(none) =~= Multiset::empty());
    assert(seq![e].last() == e);
    assert(forest_leaves(seq![e]) =~= e.value.leaves().to_multiset());
}

/// An entry put into a queue adds its leaves to those of the queue.
proof fn lemma_forest_insert(q: Seq<Keyed<u64, HuffNode>>, i: int, e: Keyed<u64, HuffNode>)
    requires
        0 <= i <= q.len(),
    ensures
        forest_leaves(q.insert(i, e)) == forest_leaves(q).add(e.value.leaves().to_multiset()),
{
    broadcast use vstd::multiset::group_multiset_axioms;

    let front = q.take(i);
    let back = q.skip(i);
    assert(q.insert(i, e) =~= (front + seq![e]) + back);
    assert(q =~= front + back);
    lemma_forest_concat(front + seq![e], back);
    lemma_forest_concat(front, seq![e]);
    lemma_forest_concat(front, back);
    lemma_forest_single(e);
    assert(forest_leaves(q.insert(i, e)) =~= forest_leaves(q).add(
        e.value.leaves().to_multiset(),
    ));
}

/// The leaves of a queue are those of its first two trees and those of the
/// rest.
pub proof fn lemma_forest_front(q: Seq<Keyed<u64, HuffNode>>)
    requires
        q.len() >= 2,
    ensures
        forest_leaves(q) == forest_leaves(q.skip(2)).add(
            q[0].value.leaves().to_multiset().add(q[1].value.leaves().to_multiset()),
        ),
{
    broadcast use vstd::multiset::group_multiset_axioms;

    assert(q =~= (seq![q[0]] + seq![q[1]]) + q.skip(2));
    lemma_forest_concat(seq![q[0]] + seq![q[1]], q.skip(2));
    lemma_forest_concat(seq![q[0]], seq![q[1]]);
    lemma_forest_single(q[0]);
    lemma_forest_single(q[1]);
    assert(forest_leaves(q) =~= forest_leaves(q.skip(2)).add(
        q[0].value.leaves().to_multiset().add(q[1].value.leaves().to_multiset()),
    ));
}

/// No tree weighs more than if each of its leaves had the greatest count.
pub proof fn lemma_weight_bound(tree: HuffNode, counts: Seq<u32>)
    ensures
        tree.weight(counts) <= tree.leaves().len() * 0xffff_ffff,
    decreases tree,
{
    match tree {
        HuffNode::Leaf(l) => {},
        HuffNode::Parent(p) => {
            lemma_weight_bound(*p.zero, counts);
            lemma_weight_bound(*p.one, counts);
            assert((p.zero.leaves().len() + p.one.leaves().len()) * 0xffff_ffff
                == p.zero.leaves().len() * 0xffff_ffff + p.one.leaves().len() * 0xffff_ffff)
                by (nonlinear_arith);
        },
    }
}

/// At most 256 byte values are distinct.
pub proof fn lemma_distinct_symbols_bound(counts: Seq<u32>, n: int)
    ensures
        distinct_symbols(counts, n) <= if n <= 0 { 0 } else { n },
    decreases n,
{
    if n > 0 {
        lemma_distinct_symbols_bound(counts, n - 1);
    }
}

/// The queue of leaves that the builder starts from.
pub proof fn lemma_leaf_queue(counts: Seq<u32>, n: int)
    requires
        counts.len() == 256,
        0 <= n <= 256,
    ensures
        sorted_by_key(leaf_queue(counts, n)),
        leaf_queue(counts, n).len() == distinct_symbols(counts, n),
        forall|i: int|
            0 <= i < leaf_queue(counts, n).len() ==> (#[trigger] leaf_queue(counts, n)[i]).key
                == leaf_queue(counts, n)[i].value.weight(counts),
        forall|s: u8|
            #[trigger] forest_leaves(leaf_queue(counts, n)).count(s) == if s < n && counts[s as int]
                > 0 {
                1nat
            } else {
                0nat
            },
        forest_leaves(leaf_queue(counts, n)).len() == distinct_symbols(counts, n),
    decreases n,
{
    broadcast use vstd::multiset::group_multiset_axioms;
    broadcast use vstd::seq_lib::group_to_multiset_ensures;

    if n > 0 {
        lemma_leaf_queue(counts, n - 1);
        let before = leaf_queue(counts, n - 1);
        if counts[n - 1] > 0 {
            let e = leaf_entry(counts, n - 1);
            let pos = insert_pos(before, e.key);
            let after = leaf_queue(counts, n);
            lemma_insert_pos(before, e.key);
            lemma_enqueue_sorted(before, e);
            lemma_forest_insert(before, pos, e);
            assert forall|i: int| 0 <= i < after.len() implies (#[trigger] after[i]).key
                == after[i].value.weight(counts) by {
                if i < pos {
                    assert(after[i] == before[i]);
                } else if i > pos {
                    assert(after[i] == before[i - 1]);
                }
            }
            let single = e.value.leaves();
            assert(single =~= Seq::<u8>::empty().push((n - 1) as u8));
            assert(single.to_multiset() =~= Multiset::<u8>::empty().insert((n - 1) as u8));
            assert(single.to_multiset().len() == 1);
        }
    } else {
        assert(forest_leaves(leaf_queue(counts, n)) =~= Multiset::empty());
    }
}

/// The builder's first queue is a queue of the building.
pub proof fn lemma_leaf_queue_inv(counts: Seq<u32>)
    requires
        counts.len() == 256,
    ensures
        queue_inv(leaf_queue(counts, 256), counts),
{
    lemma_leaf_queue(counts, 256);
}

/// Each step of the builder merges the two trees of least weight in the
/// queue, the lighter or earlier of them as the zero child, into a tree
/// whose weight is the sum of theirs, and leaves a queue of the building
/// that is one entry shorter.
pub proof fn lemma_merge_step(q: Seq<Keyed<u64, HuffNode>>, counts: Seq<u32>)
    requires
        queue_inv(q, counts),
        q.len() >= 2,
    ensures
        forall|i: int| 0 <= i < q.len() ==> q[0].key <= (#[trigger] q[i]).key,
        forall|i: int| 1 <= i < q.len() ==> q[1].key <= (#[trigger] q[i]).key,
        q[0].key + q[1].key <= u64::MAX,
        merged(q[0], q[1]).key == q[0].key + q[1].key,
        merged(q[0], q[1]).key == merged(q[0], q[1]).value.weight(counts),
        merged(q[0], q[1]).value == HuffNode::Parent(
            HuffParent { zero: Box::new(q[0].value), one: Box::new(q[1].value) },
        ),
        merge_step(q) == q.skip(2).insert(
            insert_pos(q.skip(2), merged(q[0], q[1]).key),
            merged(q[0], q[1]),
        ),
        merge_step(q).len() == q.len() - 1,
        queue_inv(merge_step(q), counts),
{
    broadcast use vstd::multiset::group_multiset_axioms;
    broadcast use vstd::seq_lib::group_to_multiset_ensures;

    let rest = q.skip(2);
    let m = merged(q[0], q[1]);
    let l0 = q[0].value.leaves();
    let l1 = q[1].value.leaves();
    lemma_forest_front(q);
    lemma_weight_bound(q[0].value, counts);
    lemma_weight_bound(q[1].value, counts);
    lemma_distinct_symbols_bound(counts, 256);
    assert(l0.len() + l1.len() <= 256);
    assert((l0.len() + l1.len()) * 0xffff_ffff == l0.len() * 0xffff_ffff + l1.len()
        * 0xffff_ffff) by (nonlinear_arith);
    assert((l0.len() + l1.len()) * 0xffff_ffff <= 256 * 0xffff_ffff) by (nonlinear_arith)
        requires
            l0.len() + l1.len() <= 256,
    ;
    assert(q[0].key + q[1].key <= u64::MAX);
    assert(sorted_by_key(rest)) by {
        assert forall|i: int, j: int| 0 <= i <= j < rest.len() implies rest[i].key
            <= rest[j].key by {
            assert(q[i + 2].key <= q[j + 2].key);
        }
    }
    let pos = insert_pos(rest, m.key);
    let after = merge_step(q);
    lemma_insert_pos(rest, m.key);
    lemma_enqueue_sorted(rest, m);
    lemma_forest_insert(rest, pos, m);
    vstd::seq_lib::lemma_multiset_commutative(l0, l1);
    assert(forest_leaves(after) =~= forest_leaves(q));
    assert forall|i: int| 0 <= i < after.len() implies (#[trigger] after[i]).key
        == after[i].value.weight(counts) by {
        if i < pos {
            assert(after[i] == rest[i]);
            assert(rest[i] == q[i + 2]);
        } else if i > pos {
            assert(after[i] == rest[i - 1]);
            assert(rest[i - 1] == q[i + 1]);
        }
    }
}

/// The tree that the builder ends with holds the leaves of the queue that
/// it started from, and is no single leaf unless the queue held but one.
pub proof fn lemma_merge_all(q: Seq<Keyed<u64, HuffNode>>, counts: Seq<u32>)
    requires
        queue_inv(q, counts),
        q.len() >= 1,
    ensures
        merge_all(q).leaves().to_multiset() == forest_leaves(q),
        q.len() >= 2 ==> merge_all(q) is Parent,
    decreases q.len(),
{
    if q.len() >= 2 {
        lemma_merge_step(q, counts);
        lemma_merge_all(merge_step(q), counts);
        if merge_step(q).len() < 2 {
            let pos = insert_pos(q.skip(2), merged(q[0], q[1]).key);
            lemma_insert_pos(q.skip(2), merged(q[0], q[1]).key);
            assert(merge_step(q)[0] == merged(q[0], q[1]));
        }
    } else {
        lemma_forest_single(q[0]);
        assert(q =~= seq![q[0]]);
    }
}

/// A tree that holds each symbol that occurs at one leaf, and no other
/// symbol, weighs as much as all the counts together.
pub proof fn lemma_weight_is_total(tree: HuffNode, counts: Seq<u32>)
    requires
        counts.len() == 256,
        forall|s: u8|
            #[trigger] tree.leaves().to_multiset().count(s) == if counts[s as int] > 0 {
                1nat
            } else {
                0nat
            },
    ensures
        tree.weight(counts) == total(counts, 256),
{
    lemma_weight_is_sum(tree, counts);
    lemma_sum_over_is_total(tree.leaves().to_multiset(), counts, 256);
}

/// The sum of the counts of the symbols below `n`, each taken as often as
/// the multiset holds the symbol.
pub open spec fn sum_over(m: Multiset<u8>, counts: Seq<u32>, n: int) -> nat
    decreases n,
{
    if n <= 0 {
        0
    } else {
        sum_over(m, counts, n - 1) + m.count((n - 1) as u8) * counts[n - 1] as nat
    }
}

proof fn lemma_sum_over_add(a: Multiset<u8>, b: Multiset<u8>, counts: Seq<u32>, n: int)
    ensures
        sum_over(a.add(b), counts, n) == sum_over(a, counts, n) + sum_over(b, counts, n),
    decreases n,
{
    broadcast use vstd::multiset::group_multiset_axioms;

    if n > 0 {
        lemma_sum_over_add(a, b, counts, n - 1);
        let s = (n - 1) as u8;
        let c = counts[n - 1] as nat;
        assert((a.count(s) + b.count(s)) * c == a.count(s) * c + b.count(s) * c)
            by (nonlinear_arith);
    }
}

proof fn lemma_sum_over_single(symbol: u8, counts: Seq<u32>, n: int)
    requires
        0 <= n <= 256,
    ensures
        sum_over(seq![symbol].to_multiset(), counts, n) == if symbol < n {
            counts[symbol as int] as nat
        } else {
            0nat
        },
    decreases n,
{
    broadcast use vstd::multiset::group_multiset_axioms;
    broadcast use vstd::seq_lib::group_to_multiset_ensures;

    let m = seq![symbol].to_multiset();
    assert(seq![symbol] =~= Seq::<u8>::empty().push(symbol));
    assert(m =~= Multiset::<u8>::empty().insert(symbol));
    if n > 0 {
        lemma_sum_over_single(symbol, counts, n - 1);
        let s = (n - 1) as u8;
        if s == symbol {
            assert(m.count(s) == 1);
        } else {
            assert(m.count(s) == 0);
        }
    }
}

proof fn lemma_weight_is_sum(tree: HuffNode, counts: Seq<u32>)
    ensures
        tree.weight(counts) == sum_over(tree.leaves().to_multiset(), counts, 256),
    decreases tree,
{
    match tree {
        HuffNode::Leaf(l) => {
            lemma_sum_over_single(l.symbol, counts, 256);
        },
        HuffNode::Parent(p) => {
            lemma_weight_is_sum(*p.zero, counts);
            lemma_weight_is_sum(*p.one, counts);
            vstd::seq_lib::lemma_multiset_commutative(p.zero.leaves(), p.one.leaves());
            lemma_sum_over_add(
                p.zero.leaves().to_multiset(),
                p.one.leaves().to_multiset(),
                counts,
                256,
            );
        },
    }
}

proof fn lemma_sum_over_is_total(m: Multiset<u8>, counts: Seq<u32>, n: int)
    requires
        0 <= n <= 256,
        forall|s: u8|
            #[trigger] m.count(s) == if counts[s as int] > 0 {
                1nat
            } else {
                0nat
            },
    ensures
        sum_over(m, counts, n) == total(counts, n),
    decreases n,
{
    if n > 0 {
        lemma_sum_over_is_total(m, counts, n - 1);
        let s = (n - 1) as u8;
        assert(m.count(s) == if counts[s as int] > 0 {
            1nat
        } else {
            0nat
        });
    }
}

/// The Huffman tree of counts with two or more distinct symbols is no
/// single leaf, holds each symbol that occurs at exactly one leaf and no
/// other symbol, and is at most 255 high, so that each of its codes can be
/// held.
pub proof fn lemma_huffman_tree(counts: Seq<u32>)
    requires
        counts.len() == 256,
        distinct_symbols(counts, 256) >= 2,
    ensures
        huffman_tree(counts) is Parent,
        huffman_tree(counts).distinct_leaves(),
        huffman_tree(counts).leaves().len() == distinct_symbols(counts, 256),
        forall|s: u8| huffman_tree(counts).contains(s) <==> counts[s as int] > 0,
        huffman_tree(counts).height() <= 255,
        huffman_tree(counts).weight(counts) == total(counts, 256),
{
    broadcast use vstd::multiset::group_multiset_axioms;
    broadcast use vstd::seq_lib::group_to_multiset_ensures;

    let q = leaf_queue(counts, 256);
    let tree = huffman_tree(counts);
    lemma_leaf_queue(counts, 256);
    lemma_leaf_queue_inv(counts);
    lemma_merge_all(q, counts);
    let leaves = tree.leaves();
    assert forall|s: u8| tree.contains(s) <==> counts[s as int] > 0 by {
        assert(forest_leaves(q).count(s) == if counts[s as int] > 0 {
            1nat
        } else {
            0nat
        });
    }
    assert forall|x: u8| leaves.to_multiset().contains(x) implies leaves.to_multiset().count(x)
        == 1 by {
        assert(forest_leaves(q).count(x) == if counts[x as int] > 0 {
            1nat
        } else {
            0nat
        });
    }
    leaves.lemma_multiset_has_no_duplicates_conv();
    lemma_height_below_leaves(tree);
    lemma_distinct_symbols_bound(counts, 256);
    lemma_weight_is_total(tree, counts);
}

/// Builds the Huffman tree for a table of counts. Fails where fewer than
/// two distinct symbols occur.
pub fn build_tree(symbol_counts: &SymbolCounts) -> (built: Result<HuffNode, HuffError>)
    ensures
        match built {
            Ok(tree) => {
                &&& distinct_symbols(symbol_counts@, 256) >= 2
                &&& tree == huffman_tree(symbol_counts@)
                &&& tree is Parent
                &&& tree.distinct_leaves()
                &&& forall|s: u8| tree.contains(s) <==> symbol_counts@[s as int] > 0
                &&& tree.height() <= 255
            },
            Err(e) => e == HuffError::Configuration && distinct_symbols(symbol_counts@, 256) < 2,
        },
{
    let ghost counts = symbol_counts@;
    let mut node_queue: MinQueue<HuffNode> = MinQueue::new();
    let mut symbol: usize = 0;
    while symbol < 256
        invariant
            symbol <= 256,
            counts == symbol_counts@,
            counts.len() == 256,
            node_queue.wf(),
            node_queue@ == leaf_queue(counts, symbol as int),
        decreases 256 - symbol,
    {
        if symbol_counts.counts[symbol] > 0 {
            node_queue.push(
                symbol_counts.counts[symbol] as u64,
                HuffNode::Leaf(HuffLeaf { symbol: symbol as u8 }),
            );
        }
        symbol += 1;
    }
    proof {
        lemma_leaf_queue(counts, 256);
    }
    if node_queue.len() < 2 {
        return Err(HuffError::Configuration);
    }
    while node_queue.len() > 1
        invariant
            node_queue.wf(),
            node_queue@.len() >= 1,
            queue_inv(node_queue@, counts),
            merge_all(node_queue@) == huffman_tree(counts),
        decreases node_queue@.len(),
    {
        let ghost q = node_queue@;
        proof {
            lemma_merge_step(q, counts);
        }
        let first = node_queue.pop().unwrap();
        let second = node_queue.pop().unwrap();
        let new_weight = first.key + second.key;
        let new_node = HuffNode::Parent(
            HuffParent { zero: Box::new(first.value), one: Box::new(second.value) },
        );
        assert(q.drop_first().drop_first() =~= q.skip(2));
        node_queue.push(new_weight, new_node);
        assert(node_queue@ == merge_step(q));
    }
    proof {
        lemma_huffman_tree(counts);
    }
    let last = node_queue.pop().unwrap();
    Ok(last.value)
}

} // verus!
