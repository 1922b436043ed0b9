//! How deep the builder puts each tree of its queue, and why a symbol that
//! occurs more often never gets a longer code.

use crate::builder::{
    forest_leaves, huffman_tree, leaf_entry, leaf_queue, lemma_forest_front, lemma_leaf_queue,
    lemma_leaf_queue_inv, lemma_merge_step, merge_all, merge_step, merged, queue_inv,
};
use crate::keyed::Keyed;
use crate::queue::{insert_pos, lemma_insert_pos};
use crate::tree::HuffNode;
use vstd::prelude::*;

verus! {

/// The place that the entry at `i` has in the queue after one step of the
/// builder. The two entries at the front go to the place of their parent.
pub open spec fn place_after_step(q: Seq<Keyed<u64, HuffNode>>, i: int) -> int {
    let parent_place = insert_pos(q.skip(2), merged(q[0], q[1]).key);
    if i < 2 {
        parent_place
    } else if i - 2 < parent_place {
        i - 2
    } else {
        i - 1
    }
}

/// The number of edges between the root of the tree that the builder ends
/// with and the root of the tree at place `i` of the queue.
pub open spec fn root_depth(q: Seq<Keyed<u64, HuffNode>>, i: int) -> nat
    decreases q.len(),
    via root_depth_decreases
{
    if q.len() < 2 {
        0
    } else if i < 2 {
        1 + root_depth(merge_step(q), place_after_step(q, i))
    } else {
        root_depth(merge_step(q), place_after_step(q, i))
    }
}

#[via_fn]
proof fn root_depth_decreases(q: Seq<Keyed<u64, HuffNode>>, i: int) {
    if q.len() >= 2 {
        lemma_insert_pos(q.skip(2), merged(q[0], q[1]).key);
    }
}

/// After a step each entry that stayed is found at its new place, and the
/// parent of the two that left at theirs.
pub proof fn lemma_place_after_step(q: Seq<Keyed<u64, HuffNode>>, i: int)
    requires
        q.len() >= 2,
        0 <= i < q.len(),
    ensures
        0 <= place_after_step(q, i) < merge_step(q).len(),
        i >= 2 ==> merge_step(q)[place_after_step(q, i)] == q[i],
        i < 2 ==> merge_step(q)[place_after_step(q, i)] == merged(q[0], q[1]),
{
    lemma_insert_pos(q.skip(2), merged(q[0], q[1]).key);
}

/// Along the queue the trees lie ever less deep in the tree that the
/// builder ends with: an entry that leaves the queue later is no deeper
/// than one that leaves earlier. And no entry that weighs at most as much as
/// the first two together lies more than one level above the first.
pub proof fn lemma_depth_order(q: Seq<Keyed<u64, HuffNode>>, counts: Seq<u32>)
    requires
        queue_inv(q, counts),
        q.len() >= 1,
    ensures
        forall|i: int, j: int|
            0 <= i <= j < q.len() ==> root_depth(q, i) >= root_depth(q, j),
        forall|j: int|
            0 <= j < q.len() && q.len() >= 2 && q[j].key <= q[0].key + q[1].key ==> root_depth(
                q,
                0,
            ) <= #[trigger] root_depth(q, j) + 1,
    decreases q.len(),
{
    if q.len() >= 2 {
        let rest = q.skip(2);
        let m = merged(q[0], q[1]);
        let p = insert_pos(rest, m.key);
        let next = merge_step(q);
        lemma_merge_step(q, counts);
        lemma_insert_pos(rest, m.key);
        lemma_depth_order(next, counts);
        assert forall|k: int| 0 <= k < rest.len() implies q[1].key <= (#[trigger] rest[k]).key by {
            assert(rest[k] == q[k + 2]);
        }
        assert forall|i: int, j: int| 0 <= i <= j < q.len() implies root_depth(q, i)
            >= root_depth(q, j) by {
            lemma_place_after_step(q, i);
            lemma_place_after_step(q, j);
            let pi = place_after_step(q, i);
            let pj = place_after_step(q, j);
            if i < 2 && j >= 2 {
                if pj < p {
                    assert(next[0] == rest[0]);
                    if p >= 2 {
                        assert(next[1] == rest[1]);
                    } else {
                        assert(next[1] == m);
                    }
                    assert(next[p] == m);
                    assert(next[p].key <= next[0].key + next[1].key);
                    assert(root_depth(next, 0) <= root_depth(next, p) + 1);
                    assert(root_depth(next, 0) >= root_depth(next, pj));
                } else {
                    assert(root_depth(next, p) >= root_depth(next, pj));
                }
            } else if i >= 2 {
                assert(pi <= pj);
                assert(root_depth(next, pi) >= root_depth(next, pj));
            }
        }
        assert forall|j: int|
            0 <= j < q.len() && q[j].key <= q[0].key + q[1].key implies root_depth(q, 0)
            <= #[trigger] root_depth(q, j) + 1 by {
            lemma_place_after_step(q, j);
            if j >= 2 {
                assert(rest[j - 2] == q[j]);
                assert(j - 2 < p);
                assert(root_depth(next, j - 2) >= root_depth(next, p));
            }
        }
    }
}

/// The code of a symbol is as long as its tree in the queue lies deep,
/// plus the length of its code within that tree.
pub proof fn lemma_code_len_from_queue(
    q: Seq<Keyed<u64, HuffNode>>,
    counts: Seq<u32>,
    i: int,
    symbol: u8,
)
    requires
        queue_inv(q, counts),
        0 <= i < q.len(),
        q[i].value.contains(symbol),
    ensures
        merge_all(q).code(symbol).len() == root_depth(q, i) + q[i].value.code(symbol).len(),
    decreases q.len(),
{
    broadcast use vstd::multiset::group_multiset_axioms;
    broadcast use vstd::seq_lib::group_to_multiset_ensures;

    if q.len() >= 2 {
        let next = merge_step(q);
        let place = place_after_step(q, i);
        let m = merged(q[0], q[1]);
        lemma_merge_step(q, counts);
        lemma_place_after_step(q, i);
        if i < 2 {
            lemma_forest_front(q);
            let l0 = q[0].value.leaves();
            let l1 = q[1].value.leaves();
            assert(forest_leaves(q).count(symbol) <= 1);
            assert(l0.to_multiset().count(symbol) + l1.to_multiset().count(symbol) <= 1);
            if i == 0 {
                assert(!q[1].value.contains(symbol));
            }
            crate::tree::lemma_contains_parent(m.value->Parent_0, symbol);
            assert(m.value.contains(symbol));
            assert(m.value.code(symbol).len() == 1 + q[i].value.code(symbol).len());
        }
        lemma_code_len_from_queue(next, counts, place, symbol);
    }
}

/// Each symbol that occurs has its leaf in the queue that the builder
/// starts from.
pub proof fn lemma_leaf_in_queue(counts: Seq<u32>, n: int, symbol: int)
    requires
        counts.len() == 256,
        0 <= symbol < n <= 256,
        counts[symbol] > 0,
    ensures
        exists|i: int|
            0 <= i < leaf_queue(counts, n).len() && #[trigger] leaf_queue(counts, n)[i]
                == leaf_entry(counts, symbol),
    decreases n,
{
    let before = leaf_queue(counts, n - 1);
    let after = leaf_queue(counts, n);
    if counts[n - 1] > 0 {
        let e = leaf_entry(counts, n - 1);
        let pos = insert_pos(before, e.key);
        lemma_insert_pos(before, e.key);
        if symbol == n - 1 {
            assert(after[pos] == e);
        } else {
            lemma_leaf_in_queue(counts, n - 1, symbol);
            let i = choose|i: int|
                0 <= i < before.len() && #[trigger] before[i] == leaf_entry(counts, symbol);
            if i < pos {
                assert(after[i] == before[i]);
            } else {
                assert(after[i + 1] == before[i]);
            }
        }
    } else {
        lemma_leaf_in_queue(counts, n - 1, symbol);
    }
}

/// A symbol that occurs more often than another has a code that is no
/// longer than the other's.
pub proof fn lemma_frequent_symbols_have_short_codes(counts: Seq<u32>, a: u8, b: u8)
    requires
        counts.len() == 256,
        counts[a as int] > counts[b as int] > 0,
    ensures
        huffman_tree(counts).code(a).len() <= huffman_tree(counts).code(b).len(),
{
    let q = leaf_queue(counts, 256);
    lemma_leaf_queue(counts, 256);
    lemma_leaf_queue_inv(counts);
    lemma_leaf_in_queue(counts, 256, a as int);
    lemma_leaf_in_queue(counts, 256, b as int);
    let ia = choose|i: int| 0 <= i < q.len() && #[trigger] q[i] == leaf_entry(counts, a as int);
    let ib = choose|i: int| 0 <= i < q.len() && #[trigger] q[i] == leaf_entry(counts, b as int);
    assert(q[ia].key > q[ib].key);
    assert(ib < ia);
    lemma_depth_order(q, counts);
    assert(q[ia].value.leaves()[0] == a);
    assert(q[ib].value.leaves()[0] == b);
    lemma_code_len_from_queue(q, counts, ia, a);
    lemma_code_len_from_queue(q, counts, ib, b);
}

} // verus!
