use circuit_attest::fs::{load, save, CircuitFile, LoadError};
use ethers::utils::hex::FromHexError;

#[test]
fn a_proof_is_stored_as_lower_case_hexadecimal_text() {
    assert_eq!(save(CircuitFile::Proof, &[1, 2, 3, 15, 16]), b"0102030f10".to_vec());
    assert_eq!(save(CircuitFile::Proof, b"Hello world!"), b"48656c6c6f20776f726c6421".to_vec());
    assert_eq!(save(CircuitFile::Proof, &[0xAB, 0xCD, 0xEF, 0x00, 0xFF]), b"abcdef00ff".to_vec());
    assert_eq!(save(CircuitFile::Proof, &[]), Vec::<u8>::new());
}

#[test]
fn public_parameters_are_stored_as_they_are() {
    assert_eq!(save(CircuitFile::PubParams, &[1, 2, 3, 15, 16]), vec![1, 2, 3, 15, 16]);
    assert_eq!(save(CircuitFile::PubParams, &[]), Vec::<u8>::new());
    assert_eq!(load(CircuitFile::PubParams, &[0xFF, 0x00, b'g']), Ok(vec![0xFF, 0x00, b'g']));
    assert_eq!(load(CircuitFile::PubParams, b"0102"), Ok(b"0102".to_vec()));
}

#[test]
fn a_stored_proof_is_read_back_from_its_text() {
    assert_eq!(load(CircuitFile::Proof, b"48656c6c6f20776f726c6421"), Ok(b"Hello world!".to_vec()));
    assert_eq!(load(CircuitFile::Proof, b"0102030f10"), Ok(vec![1, 2, 3, 15, 16]));
    assert_eq!(load(CircuitFile::Proof, b""), Ok(vec![]));
}

#[test]
fn digits_of_either_case_are_read() {
    assert_eq!(load(CircuitFile::Proof, b"ABCDEF"), Ok(vec![0xAB, 0xCD, 0xEF]));
    assert_eq!(load(CircuitFile::Proof, b"aBcDeF09"), Ok(vec![0xAB, 0xCD, 0xEF, 0x09]));
}

#[test]
fn a_leading_prefix_is_passed_over() {
    assert_eq!(load(CircuitFile::Proof, b"0x0a0b"), Ok(vec![0x0A, 0x0B]));
    assert_eq!(load(CircuitFile::Proof, b"0X0a0b"), Ok(vec![0x0A, 0x0B]));
    assert_eq!(load(CircuitFile::Proof, b"0x"), Ok(vec![]));
    assert!(load(CircuitFile::Proof, b"0x0x0a").is_err());
    assert!(load(CircuitFile::Proof, b"000x").is_err());
}

#[test]
fn text_of_odd_length_is_rejected() {
    assert_eq!(load(CircuitFile::Proof, b"123"), Err(LoadError::InvalidHex(FromHexError::OddLength)));
    assert_eq!(load(CircuitFile::Proof, b"0"), Err(LoadError::InvalidHex(FromHexError::OddLength)));
    assert_eq!(load(CircuitFile::Proof, b"0x1"), Err(LoadError::InvalidHex(FromHexError::OddLength)));
}

#[test]
fn text_with_other_characters_is_rejected() {
    assert!(matches!(
        load(CircuitFile::Proof, b"0g"),
        Err(LoadError::InvalidHex(FromHexError::InvalidHexCharacter { .. }))
    ));
    assert!(load(CircuitFile::Proof, b"Hello world!").is_err());
    assert!(load(CircuitFile::Proof, b"01 2").is_err());
    assert!(load(CircuitFile::Proof, b"0102\n\n").is_err());
    assert!(load(CircuitFile::Proof, &[b'0', 0xFF]).is_err());
    assert!(load(CircuitFile::Proof, b"/0").is_err());
    assert!(load(CircuitFile::Proof, b":0").is_err());
    assert!(load(CircuitFile::Proof, b"@0").is_err());
    assert!(load(CircuitFile::Proof, b"G0").is_err());
    assert!(load(CircuitFile::Proof, b"`0").is_err());
}

#[test]
fn what_is_saved_is_loaded_back() {
    let all: Vec<u8> = (0u8..=255).collect();
    for file in [CircuitFile::Proof, CircuitFile::PubParams] {
        assert_eq!(load(file, &save(file, &all)), Ok(all.clone()));
        assert_eq!(load(file, &save(file, &[])), Ok(vec![]));
        assert_eq!(load(file, &save(file, &[0x40, 0x40, 0x40])), Ok(vec![0x40, 0x40, 0x40]));
    }
}

#[test]
fn each_byte_becomes_two_digits() {
    for b in 0u8..=255 {
        let text = save(CircuitFile::Proof, &[b]);
        assert_eq!(text, format!("{:02x}", b).into_bytes());
        assert_eq!(load(CircuitFile::Proof, &text), Ok(vec![b]));
    }
}

#[test]
fn long_texts_are_read_like_short_ones() {
    let data: Vec<u8> = (0..1000usize).map(|i| (i * 7 % 256) as u8).collect();
    let lower = save(CircuitFile::Proof, &data);
    assert_eq!(lower.len(), 2000);
    let upper: Vec<u8> = lower.iter().map(|c| c.to_ascii_uppercase()).collect();
    assert_eq!(load(CircuitFile::Proof, &lower), Ok(data.clone()));
    assert_eq!(load(CircuitFile::Proof, &upper), Ok(data.clone()));
    let mut prefixed = b"0x".to_vec();
    prefixed.extend_from_slice(&lower);
    assert_eq!(load(CircuitFile::Proof, &prefixed), Ok(data));
    let mut spoiled = lower.clone();
    spoiled[1501] = b'x';
    assert!(load(CircuitFile::Proof, &spoiled).is_err());
    spoiled.pop();
    assert!(load(CircuitFile::Proof, &spoiled).is_err());
}
