use huff::count_symbols;

#[test]
fn counts_of_empty_input_are_zero() {
    let counts = count_symbols(&[]);
    assert!(counts.counts.iter().all(|&c| c == 0));
}

#[test]
fn counts_each_byte_value() {
    let counts = count_symbols(b"aaab");
    assert_eq!(counts.counts[b'a' as usize], 3);
    assert_eq!(counts.counts[b'b' as usize], 1);
    assert_eq!(counts.counts[b'c' as usize], 0);
    let nonzero = counts.counts.iter().filter(|&&c| c > 0).count();
    assert_eq!(nonzero, 2);
}

#[test]
fn counts_sum_to_input_length() {
    let input: Vec<u8> = (0..1000u32).map(|i| (i * 7 % 256) as u8).collect();
    let counts = count_symbols(&input);
    let sum: u64 = counts.counts.iter().map(|&c| c as u64).sum();
    assert_eq!(sum, 1000);
}

#[test]
fn counts_the_extreme_byte_values() {
    let counts = count_symbols(&[0, 255, 255, 0, 0]);
    assert_eq!(counts.counts[0], 3);
    assert_eq!(counts.counts[255], 2);
    assert_eq!(counts.counts[1], 0);
}
