use libzstd_bitexact::Error;
use libzstd_bitexact::bits::ReverseBitReader;
use libzstd_bitexact::fse::{build_dtable, read_ncount, FseState, FseTable};

#[test]
fn rle_table_always_yields_symbol() {
    let t = FseTable::rle(42);
    let data = [0x01u8]; // empty payload, just the padding bit
    let mut br = ReverseBitReader::new(&data).unwrap();
    let mut s = FseState::new(&t, &mut br);
    for _ in 0..10 {
        assert_eq!(s.symbol(), 42);
        s.advance(&mut br);
    }
    assert!(br.finished_exactly());
}

#[test]
fn build_dtable_uniform_two_symbols() {
    // Two symbols, equal probability, accuracy log 5 (the format's
    // minimum: the spread step only cycles fully for sizes >= 16).
    let t = build_dtable(&[16, 16], 5).unwrap();
    assert_eq!(t.entries.len(), 32);
    assert_eq!(t.entries.iter().filter(|e| e.symbol == 0).count(), 16);
    assert_eq!(t.entries.iter().filter(|e| e.symbol == 1).count(), 16);
    // With probability table_size/2, every state reads exactly one bit.
    assert!(t.entries.iter().all(|e| e.nb_bits == 1));
}

#[test]
fn ncount_rejects_oversized_accuracy_log() {
    // First nibble encodes table_log - 5; 0xF -> table_log 20.
    assert!(read_ncount(&[0xFF, 0xFF], 35, 9).is_err());
}

#[test]
fn counts_that_do_not_fill_a_table_are_refused() {
    assert_eq!(build_dtable(&[16, 15], 5).err(), Some(Error::Corrupted("FSE table spread did not complete")));
    assert_eq!(build_dtable(&[-1; 33], 5).err(), Some(Error::Corrupted("FSE counts exceed table size")));
    assert!(build_dtable(&[-1; 32], 5).is_ok());
}
