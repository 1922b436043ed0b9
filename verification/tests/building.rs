use huff::{build_tree, count_symbols, HuffError, HuffLeaf, HuffNode, HuffParent, SymbolCounts};

fn show(tree: &HuffNode) -> String {
    match tree {
        HuffNode::Leaf(l) => format!("{}", l.symbol as char),
        HuffNode::Parent(p) => format!("({} {})", show(&p.zero), show(&p.one)),
    }
}

fn counts_from(pairs: &[(u8, u32)]) -> SymbolCounts {
    let mut counts = [0u32; 256];
    for &(symbol, count) in pairs {
        counts[symbol as usize] = count;
    }
    SymbolCounts { counts }
}

#[test]
fn empty_input_is_a_configuration_error() {
    let counts = count_symbols(&[]);
    assert_eq!(build_tree(&counts).err(), Some(HuffError::Configuration));
}

#[test]
fn single_symbol_input_is_a_configuration_error() {
    let counts = count_symbols(b"zzzzzzzz");
    assert_eq!(build_tree(&counts).err(), Some(HuffError::Configuration));
}

#[test]
fn two_symbols_merge_directly_into_the_root() {
    let counts = count_symbols(b"aaab");
    let tree = build_tree(&counts).unwrap();
    assert_eq!(show(&tree), "(b a)");
}

#[test]
fn lighter_tree_becomes_the_zero_child() {
    let tree = build_tree(&counts_from(&[(b'x', 10), (b'y', 3)])).unwrap();
    assert_eq!(show(&tree), "(y x)");
}

#[test]
fn equal_weights_leave_in_the_order_they_came() {
    let tree = build_tree(&counts_from(&[(b'a', 1), (b'b', 1), (b'c', 1), (b'd', 1)])).unwrap();
    assert_eq!(show(&tree), "((a b) (c d))");
}

#[test]
fn merged_tree_goes_behind_trees_of_equal_weight() {
    let tree = build_tree(&counts_from(&[(b'a', 5), (b'b', 2), (b'c', 1), (b'd', 1)])).unwrap();
    assert_eq!(show(&tree), "((b (c d)) a)");
}

#[test]
fn skewed_counts_give_a_chain() {
    let tree =
        build_tree(&counts_from(&[(b'a', 1), (b'b', 2), (b'c', 4), (b'd', 8), (b'e', 16)]))
            .unwrap();
    assert_eq!(show(&tree), "((((a b) c) d) e)");
}

#[test]
fn every_counted_symbol_is_at_exactly_one_leaf() {
    let input = b"the quick brown fox jumps over the lazy dog";
    let counts = count_symbols(input);
    let tree = build_tree(&counts).unwrap();
    let mut leaves = Vec::new();
    let mut stack = vec![&tree];
    while let Some(node) = stack.pop() {
        match node {
            HuffNode::Leaf(l) => leaves.push(l.symbol),
            HuffNode::Parent(p) => {
                stack.push(&p.zero);
                stack.push(&p.one);
            }
        }
    }
    leaves.sort();
    let mut expected: Vec<u8> =
        (0..=255u8).filter(|&s| counts.counts[s as usize] > 0).collect();
    expected.sort();
    assert_eq!(leaves, expected);
}

#[test]
fn largest_counts_do_not_overflow_the_weights() {
    let mut counts = [u32::MAX; 256];
    counts[0] = 1;
    let tree = build_tree(&SymbolCounts { counts }).unwrap();
    assert!(matches!(tree, HuffNode::Parent(_)));
}

#[test]
fn clone_copies_the_whole_tree() {
    let tree = HuffNode::Parent(HuffParent {
        zero: Box::new(HuffNode::Leaf(HuffLeaf { symbol: b'p' })),
        one: Box::new(HuffNode::Parent(HuffParent {
            zero: Box::new(HuffNode::Leaf(HuffLeaf { symbol: b'q' })),
            one: Box::new(HuffNode::Leaf(HuffLeaf { symbol: b'r' })),
        })),
    });
    assert_eq!(show(&tree.clone()), "(p (q r))");
}
