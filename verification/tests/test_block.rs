use libzstd_bitexact::block::{copy_match, resolve_offset};

#[test]
fn copy_match_handles_overlap() {
    let mut out = b"abc".to_vec();
    copy_match(&mut out, 0, &[], 3, 7);
    assert_eq!(out, b"abcabcabca");

    let mut out = b"xy".to_vec();
    copy_match(&mut out, 0, &[], 1, 4);
    assert_eq!(out, b"xyyyyy");

    let mut out = b"hello world".to_vec();
    copy_match(&mut out, 0, &[], 11, 5);
    assert_eq!(out, b"hello worldhello");
}

#[test]
fn copy_match_reaches_into_dictionary() {
    // Virtual history is `dict ++ out[frame_base..]`. Here frame_base = 2
    // (the leading "XX" is prior-frame output, off limits); the dictionary
    // holds "DICT", and the frame output so far is "ab", so the virtual
    // buffer is "DICTab".
    let dict = b"DICT";

    // Straddle the seam: offset 4 from position 6 starts at 'C', copying
    // "CT" from the dictionary and "ab" from the frame output.
    let mut out = b"XXab".to_vec();
    copy_match(&mut out, 2, dict, 4, 4);
    assert_eq!(&out[2..], b"abCTab");

    // A match wholly inside the dictionary.
    let mut out = b"XX".to_vec();
    copy_match(&mut out, 2, dict, 4, 4);
    assert_eq!(&out[2..], b"DICT");

    // A match straddling the seam that then run-extends over itself:
    // "CT" from the dictionary, then the freshly written bytes repeat.
    let mut out = b"XX".to_vec();
    copy_match(&mut out, 2, dict, 2, 5);
    assert_eq!(&out[2..], b"CTCTC");
}

#[test]
fn repeat_offsets_follow_spec() {
    let mut rep = [1, 4, 8];
    // Literal offset: value 10 -> offset 7, history shifts.
    assert_eq!(resolve_offset(10, 5, &mut rep).unwrap(), 7);
    assert_eq!(rep, [7, 1, 4]);
    // Repeat offset 1 with literals: no change.
    assert_eq!(resolve_offset(1, 5, &mut rep).unwrap(), 7);
    assert_eq!(rep, [7, 1, 4]);
    // Repeat offset 2: swaps.
    assert_eq!(resolve_offset(2, 5, &mut rep).unwrap(), 1);
    assert_eq!(rep, [1, 7, 4]);
    // Repeat offset 3: rotates.
    assert_eq!(resolve_offset(3, 5, &mut rep).unwrap(), 4);
    assert_eq!(rep, [4, 1, 7]);
    // No literals: value 1 selects rep[1].
    assert_eq!(resolve_offset(1, 0, &mut rep).unwrap(), 1);
    assert_eq!(rep, [1, 4, 7]);
    // No literals: value 3 means rep[0] - 1.
    let mut rep = [5, 10, 20];
    assert_eq!(resolve_offset(3, 0, &mut rep).unwrap(), 4);
    assert_eq!(rep, [4, 5, 10]);
    // ... which is corruption when rep[0] is 1.
    let mut rep = [1, 4, 8];
    assert!(resolve_offset(3, 0, &mut rep).is_err());
}
