use huff::{
    build_tree, codes_from_tree, count_symbols, decode, decode_counted, decode_symbol, encode,
    encode_padded, recode, BitIter, HuffError, HuffLeaf, HuffNode, HuffParent, SymbolCodes,
};

fn leaf(symbol: u8) -> HuffNode {
    HuffNode::Leaf(HuffLeaf { symbol })
}

fn parent(zero: HuffNode, one: HuffNode) -> HuffNode {
    HuffNode::Parent(HuffParent { zero: Box::new(zero), one: Box::new(one) })
}

fn tree_and_table(input: &[u8]) -> (HuffNode, SymbolCodes) {
    let tree = build_tree(&count_symbols(input)).unwrap();
    let codes = codes_from_tree(&tree).unwrap();
    (tree, codes)
}

fn round_trip(input: &[u8]) -> Vec<u8> {
    let (tree, codes) = tree_and_table(input);
    let mut encoded = Vec::new();
    encode_padded(input, &mut encoded, &codes).unwrap();
    let mut decoded = Vec::new();
    let written = decode_counted(&encoded, &mut decoded, &tree, input.len());
    assert_eq!(written, input.len());
    decoded
}

#[test]
fn bit_iter_reads_least_significant_bit_first() {
    let bytes = [0b0000_0101u8, 0b1000_0000u8];
    let mut bits = BitIter::new(&bytes);
    let mut read = Vec::new();
    while let Some(bit) = bits.next() {
        read.push(bit);
    }
    let expected = vec![
        true, false, true, false, false, false, false, false, false, false, false, false, false,
        false, false, true,
    ];
    assert_eq!(read, expected);
    assert_eq!(bits.next(), None);
}

#[test]
fn bit_iter_over_nothing_is_empty() {
    let mut bits = BitIter::new(&[]);
    assert_eq!(bits.next(), None);
}

#[test]
fn worked_example_encodes_to_four_bits() {
    let (_, codes) = tree_and_table(b"aaab");
    let mut output = Vec::new();
    let remainder = encode(b"aaab", &mut output, &codes).unwrap();
    assert!(output.is_empty());
    assert_eq!(remainder.bit_len, 4);
    assert_eq!(remainder.block, 0b0000_0111);
}

#[test]
fn worked_example_round_trip() {
    let (tree, codes) = tree_and_table(b"aaab");
    let mut encoded = Vec::new();
    encode_padded(b"aaab", &mut encoded, &codes).unwrap();
    assert_eq!(encoded, vec![0b0000_0111]);
    let mut decoded = Vec::new();
    let written = decode_counted(&encoded, &mut decoded, &tree, 4);
    assert_eq!(written, 4);
    assert_eq!(decoded, b"aaab");
}

#[test]
fn decoding_to_the_end_reads_the_padding_as_symbols() {
    let (tree, _) = tree_and_table(b"aaab");
    let mut decoded = Vec::new();
    decode(&[0b0000_0111], &mut decoded, &tree);
    assert_eq!(decoded, b"aaabbbbb");
}

#[test]
fn whole_bytes_are_written_and_nothing_is_left() {
    let (tree, codes) = tree_and_table(b"aaab");
    let mut output = vec![0xEE];
    let remainder = encode(b"aaabaaab", &mut output, &codes).unwrap();
    assert_eq!(output, vec![0xEE, 0b0111_0111]);
    assert_eq!(remainder.bit_len, 0);
    assert_eq!(remainder.block, 0);
    let mut decoded = Vec::new();
    decode(&output[1..], &mut decoded, &tree);
    assert_eq!(decoded, b"aaabaaab");
}

#[test]
fn encode_appends_packed_code_bits() {
    let tree = parent(parent(leaf(b'b'), parent(leaf(b'c'), leaf(b'd'))), leaf(b'a'));
    let codes = codes_from_tree(&tree).unwrap();
    // a=1 b=00 c=010 d=011; "abcdab" is 1 00 010 011 1 00
    let mut output = Vec::new();
    let remainder = encode(b"abcdab", &mut output, &codes).unwrap();
    assert_eq!(output, vec![0b1001_0001]);
    assert_eq!(remainder.bit_len, 4);
    assert_eq!(remainder.block, 0b0000_0011);
    let mut padded = Vec::new();
    encode_padded(b"abcdab", &mut padded, &codes).unwrap();
    assert_eq!(padded, vec![0b1001_0001, 0b0000_0011]);
}

#[test]
fn encoding_nothing_writes_nothing() {
    let (_, codes) = tree_and_table(b"aaab");
    let mut output = Vec::new();
    let remainder = encode(&[], &mut output, &codes).unwrap();
    assert!(output.is_empty());
    assert_eq!(remainder.bit_len, 0);
    encode_padded(&[], &mut output, &codes).unwrap();
    assert!(output.is_empty());
}

#[test]
fn symbol_without_code_is_a_contract_violation() {
    let (_, codes) = tree_and_table(b"aaab");
    let mut output = Vec::new();
    let input = b"aaabaaabaaabcaaa";
    let result = encode(input, &mut output, &codes);
    assert_eq!(result.err(), Some(HuffError::ContractViolation { symbol: b'c' }));
    assert_eq!(output, vec![0b0111_0111]);
    let mut padded = Vec::new();
    assert_eq!(
        encode_padded(b"xa", &mut padded, &codes).err(),
        Some(HuffError::ContractViolation { symbol: b'x' })
    );
    assert!(padded.is_empty());
}

#[test]
fn decode_symbol_walks_to_a_leaf() {
    let tree = parent(parent(leaf(b'b'), parent(leaf(b'c'), leaf(b'd'))), leaf(b'a'));
    // bits, first to last: 0 1 1 (d), 1 (a), 0 0 (b), 0 1 then the end
    let bytes = [0b1000_1110u8];
    let mut bits = BitIter::new(&bytes);
    assert_eq!(decode_symbol(&mut bits, &tree), Some(b'd'));
    assert_eq!(decode_symbol(&mut bits, &tree), Some(b'a'));
    assert_eq!(decode_symbol(&mut bits, &tree), Some(b'b'));
    assert_eq!(decode_symbol(&mut bits, &tree), None);
    assert_eq!(bits.next(), None);
}

#[test]
fn decode_drops_a_code_that_is_cut_off() {
    let tree = parent(parent(leaf(b'b'), parent(leaf(b'c'), leaf(b'd'))), leaf(b'a'));
    let mut decoded = vec![b'>'];
    decode(&[0b1000_1110], &mut decoded, &tree);
    assert_eq!(decoded, b">dab");
}

#[test]
fn decode_counted_stops_at_the_count_or_at_the_end() {
    let tree = parent(leaf(b'n'), leaf(b'y'));
    let mut decoded = Vec::new();
    assert_eq!(decode_counted(&[0b0000_0110], &mut decoded, &tree, 3), 3);
    assert_eq!(decoded, b"nyy");
    let mut all = Vec::new();
    assert_eq!(decode_counted(&[0b0000_0110], &mut all, &tree, 100), 8);
    assert_eq!(all, b"nyynnnnn");
    let mut none = Vec::new();
    assert_eq!(decode_counted(&[0b0000_0110], &mut none, &tree, 0), 0);
    assert!(none.is_empty());
}

#[test]
fn round_trip_of_text() {
    let input = b"so it goes. so it goes. and so on, until the bits run out";
    assert_eq!(round_trip(input), input);
}

#[test]
fn round_trip_of_all_byte_values() {
    let mut input = Vec::new();
    for value in 0..=255u8 {
        for _ in 0..(value as usize % 7 + 1) {
            input.push(value);
        }
    }
    assert_eq!(round_trip(&input), input);
}

#[test]
fn round_trip_of_two_symbols() {
    assert_eq!(round_trip(&[0, 255]), vec![0, 255]);
    assert_eq!(round_trip(&[9; 17].iter().chain(&[3u8]).copied().collect::<Vec<u8>>()).len(), 18);
}

#[test]
fn round_trip_of_skewed_input() {
    let mut input = Vec::new();
    let mut run = 1usize;
    for value in 0..14u8 {
        input.extend(std::iter::repeat(value).take(run));
        run *= 2;
    }
    assert_eq!(round_trip(&input), input);
}

#[test]
fn recode_gives_the_input_back() {
    let input = b"mississippi river";
    let mut output = vec![b'['];
    let codes = recode(input, &mut output).unwrap();
    assert_eq!(&output[1..], input);
    assert!(codes.codes[b's' as usize].bit_len() > 0);
    assert!(codes.codes[b's' as usize].bit_len() <= codes.codes[b'v' as usize].bit_len());
    assert_eq!(codes.codes[b'z' as usize].bit_len(), 0);
}

#[test]
fn recode_refuses_fewer_than_two_symbols() {
    let mut output = Vec::new();
    assert_eq!(recode(&[], &mut output).err(), Some(HuffError::Configuration));
    assert_eq!(recode(b"qqqq", &mut output).err(), Some(HuffError::Configuration));
    assert!(output.is_empty());
}
