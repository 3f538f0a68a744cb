use screeps_os::strlib::{bytestring_to_utf15, is_utf15_well_formed, utf15_to_bytestring};

fn sample(n: usize) -> Vec<u8> {
    (0..n).map(|i| ((i * 37 + 11) & 0xFF) as u8).collect()
}

#[test]
fn empty_input_encodes_to_nothing() {
    assert!(bytestring_to_utf15(&[]).is_empty());
    assert!(utf15_to_bytestring(&[]).is_empty());
    assert!(is_utf15_well_formed(&[]));
}

#[test]
fn short_input_has_exact_encoding() {
    let out = bytestring_to_utf15(&[1, 2, 3]);
    assert_eq!(out.len(), 65);
    assert_eq!(out[0], 0x31);
    assert_eq!(out[1], 8208);
    assert_eq!(out[2], 96);
    assert!(out[3..64].iter().all(|&u| u == 0));
    assert_eq!(out[64], 6144);
}

#[test]
fn full_word_of_ones_has_exact_fields() {
    let out = bytestring_to_utf15(&[0xFF; 8]);
    assert_eq!(&out[..10], &[0x31, 32752, 32767, 32767, 32767, 15, 0, 0, 0, 0]);
}

#[test]
fn encoding_units_fit_in_fifteen_bits() {
    let out = bytestring_to_utf15(&vec![0xFF; 500]);
    assert!(out[1..].iter().all(|&u| u < 0x8000));
    assert_eq!(out.len() % 64, 1);
}

#[test]
fn header_marks_partial_last_block() {
    assert_eq!(bytestring_to_utf15(&sample(240))[0], 0x30);
    assert_eq!(bytestring_to_utf15(&sample(241))[0], 0x31);
    assert_eq!(bytestring_to_utf15(&sample(240)).len(), 129);
    assert_eq!(bytestring_to_utf15(&sample(241)).len(), 193);
}

#[test]
fn decoding_undoes_encoding() {
    for n in [1usize, 3, 7, 8, 9, 15, 16, 100, 118, 119, 120, 121, 125, 126, 127, 239, 240, 241, 359, 360, 1000] {
        let bytes = sample(n);
        let encoded = bytestring_to_utf15(&bytes);
        assert!(is_utf15_well_formed(&encoded));
        assert_eq!(utf15_to_bytestring(&encoded), bytes, "length {}", n);
    }
}

#[test]
fn single_full_block_is_encoded() {
    let encoded = bytestring_to_utf15(&[1u8; 120]);
    assert_eq!(encoded.len(), 65);
    assert_eq!(encoded[0], 0x30);
    assert_eq!(encoded[1], 0x1010);
    assert_eq!(utf15_to_bytestring(&encoded), vec![1u8; 120]);
    let bytes = sample(120);
    assert_eq!(utf15_to_bytestring(&bytestring_to_utf15(&bytes)), bytes);
}

#[test]
fn malformed_strings_are_rejected() {
    assert!(!is_utf15_well_formed(&[0x30]));
    assert!(!is_utf15_well_formed(&[0x30, 1, 2]));
    let mut bad_header = bytestring_to_utf15(&sample(10));
    bad_header[0] = 0x32;
    assert!(!is_utf15_well_formed(&bad_header));
    let mut wide_unit = bytestring_to_utf15(&sample(10));
    wide_unit[5] = 0x8000;
    assert!(!is_utf15_well_formed(&wide_unit));
    let mut long_partial = bytestring_to_utf15(&sample(10));
    long_partial[1] = 0x7FFF;
    long_partial[64] = 0;
    assert!(!is_utf15_well_formed(&long_partial));
}
