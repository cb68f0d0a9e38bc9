use libzstd_bitexact::huffman::read_table;

#[test]
fn direct_weights_roundtrip() {
    // Three explicit weights (header 127 + 3), nibbles 2, 2, 1 -> symbols
    // 0..2; total = 2 + 2 + 1 = 5, table_log = 3, rest = 3 -> invalid
    // (not a power of two). Use weights 2, 2, 2: total 6, table_log 3,
    // rest 2 -> last weight 2: four symbols with codes of 2 bits each...
    // total becomes 8 = 2^3 exactly.
    let desc = [127 + 3, 0x22, 0x20];
    let (table, consumed) = read_table(&desc).unwrap();
    assert_eq!(consumed, 3);
    assert_eq!(table.table_log, 3);
    // Each weight-2 symbol covers 2 of 8 entries with 2-bit codes.
    assert!(table.entries.iter().all(|e| e.nb_bits == 2));
}

#[test]
fn rejects_invalid_weight_sum() {
    // Weights 2, 2, 1: total 5, rest 3 is not a power of two.
    let desc = [127 + 3, 0x22, 0x10];
    assert!(read_table(&desc).is_err());
}
