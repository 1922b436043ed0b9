use huff::{
    bits_to_string, build_tree, codes_from_tree, count_symbols, BitBuf, HuffError, HuffLeaf,
    HuffNode, HuffParent, SymbolCode, SymbolCodes,
};

fn bits_of(code: &SymbolCode) -> String {
    let mut text = String::new();
    for i in 0..code.bit_len() {
        text.push(if code.get_bit(i) { '1' } else { '0' });
    }
    text
}

fn table_for(input: &[u8]) -> SymbolCodes {
    let tree = build_tree(&count_symbols(input)).unwrap();
    codes_from_tree(&tree).unwrap()
}

fn leaf(symbol: u8) -> HuffNode {
    HuffNode::Leaf(HuffLeaf { symbol })
}

fn parent(zero: HuffNode, one: HuffNode) -> HuffNode {
    HuffNode::Parent(HuffParent { zero: Box::new(zero), one: Box::new(one) })
}

/// A tree in which every inner node has a leaf as its zero child: `height`
/// inner nodes one below the other.
fn chain(height: u32) -> HuffNode {
    let mut tree = leaf(0);
    for level in 0..height {
        tree = parent(leaf((level % 200 + 1) as u8), tree);
    }
    tree
}

#[test]
fn worked_example_codes() {
    let codes = table_for(b"aaab");
    assert_eq!(bits_of(&codes.codes[b'a' as usize]), "1");
    assert_eq!(bits_of(&codes.codes[b'b' as usize]), "0");
    assert_eq!(codes.codes[b'c' as usize].bit_len(), 0);
}

#[test]
fn codes_are_the_paths_to_the_leaves() {
    let tree = parent(parent(leaf(b'b'), parent(leaf(b'c'), leaf(b'd'))), leaf(b'a'));
    let codes = codes_from_tree(&tree).unwrap();
    assert_eq!(bits_of(&codes.codes[b'a' as usize]), "1");
    assert_eq!(bits_of(&codes.codes[b'b' as usize]), "00");
    assert_eq!(bits_of(&codes.codes[b'c' as usize]), "010");
    assert_eq!(bits_of(&codes.codes[b'd' as usize]), "011");
}

#[test]
fn symbols_outside_the_tree_have_no_code() {
    let codes = table_for(b"hello world");
    for symbol in 0..=255u8 {
        let present = b"hello world".contains(&symbol);
        assert_eq!(codes.codes[symbol as usize].bit_len() > 0, present);
    }
}

#[test]
fn last_leaf_wins_where_a_symbol_is_at_two_leaves() {
    let tree = parent(leaf(b'a'), parent(leaf(b'b'), leaf(b'a')));
    let codes = codes_from_tree(&tree).unwrap();
    assert_eq!(bits_of(&codes.codes[b'a' as usize]), "11");
    assert_eq!(bits_of(&codes.codes[b'b' as usize]), "10");
}

#[test]
fn no_code_is_a_prefix_of_another() {
    let input = b"it was the best of times, it was the worst of times";
    let codes = table_for(input);
    let present: Vec<String> = (0..=255u8)
        .map(|s| bits_of(&codes.codes[s as usize]))
        .filter(|c| !c.is_empty())
        .collect();
    assert!(present.len() >= 2);
    for (i, a) in present.iter().enumerate() {
        for (j, b) in present.iter().enumerate() {
            if i != j {
                assert!(!b.starts_with(a.as_str()), "{} is a prefix of {}", a, b);
            }
        }
    }
}

#[test]
fn more_frequent_symbols_have_codes_no_longer() {
    let mut input = Vec::new();
    for (symbol, count) in [(b'a', 100usize), (b'b', 40), (b'c', 12), (b'd', 5), (b'e', 2), (b'f', 1)]
    {
        input.extend(std::iter::repeat(symbol).take(count));
    }
    let counts = count_symbols(&input);
    let codes = table_for(&input);
    for a in 0..=255usize {
        for b in 0..=255usize {
            if counts.counts[a] > counts.counts[b] && counts.counts[b] > 0 {
                assert!(codes.codes[a].bit_len() <= codes.codes[b].bit_len());
            }
        }
    }
    assert_eq!(codes.codes[b'a' as usize].bit_len(), 1);
    assert_eq!(codes.codes[b'f' as usize].bit_len(), 5);
}

#[test]
fn more_frequent_symbols_have_codes_no_longer_in_text() {
    let input = b"abracadabra alakazam, a man a plan a canal panama";
    let counts = count_symbols(input);
    let codes = table_for(input);
    for a in 0..=255usize {
        for b in 0..=255usize {
            if counts.counts[a] > counts.counts[b] && counts.counts[b] > 0 {
                assert!(codes.codes[a].bit_len() <= codes.codes[b].bit_len());
            }
        }
    }
}

#[test]
fn code_of_255_bits_is_held() {
    let tree = chain(255);
    let codes = codes_from_tree(&tree).unwrap();
    let deepest = &codes.codes[0];
    assert_eq!(deepest.bit_len(), 255);
    assert_eq!(bits_of(deepest), "1".repeat(255));
    assert_eq!(bits_of(&codes.codes[200]), "1".repeat(55) + "0");
}

#[test]
fn tree_higher_than_255_is_a_representation_limit_error() {
    let tree = chain(256);
    assert_eq!(codes_from_tree(&tree).err(), Some(HuffError::RepresentationLimit));
}

#[test]
fn from_bits_packs_least_significant_bit_first() {
    let bits = [true, false, true, true, false, false, false, false, true, true];
    let code = SymbolCode::from_bits(&BitBuf::from_bools(&bits)).unwrap();
    assert_eq!(code.bit_len(), 10);
    assert_eq!(bits_of(&code), "1011000011");
    assert_eq!(code.get_block(0), 0b0000_1101);
    assert_eq!(code.get_block(1), 0b0000_0011);
}

#[test]
fn from_bits_takes_255_bits_and_refuses_256() {
    let bits = vec![true; 255];
    let code = SymbolCode::from_bits(&BitBuf::from_bools(&bits)).unwrap();
    assert_eq!(code.bit_len(), 255);
    assert!(code.get_bit(254));
    let too_many = vec![false; 256];
    assert_eq!(
        SymbolCode::from_bits(&BitBuf::from_bools(&too_many)).err(),
        Some(HuffError::RepresentationLimit)
    );
}

#[test]
fn default_code_has_no_bits() {
    assert_eq!(SymbolCode::default().bit_len(), 0);
}

#[test]
fn bits_to_string_writes_zeros_and_ones() {
    let bits = [false, true, true, false, true, false, false, false, false, true];
    let code = SymbolCode::from_bits(&BitBuf::from_bools(&bits)).unwrap();
    assert_eq!(bits_to_string(&code), "0110100001");
    assert_eq!(bits_to_string(&SymbolCode::default()), "");
}
