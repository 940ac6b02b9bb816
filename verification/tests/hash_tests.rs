use circuit_attest::hash::{file_before, hash_circuit, sort_files, ArtifactFile, CHUNK_LEN};
use circuit_attest::fs::{load, CircuitFile};
use circuit_attest::payload::{decode, encode, Decoded};
use sha2::{Digest, Sha256};

fn file(path: &str, content: &[u8]) -> ArtifactFile {
    ArtifactFile { path: path.as_bytes().to_vec(), content: content.to_vec() }
}

fn from_hex(text: &str) -> [u8; 32] {
    let bytes = load(CircuitFile::Proof, text.as_bytes()).unwrap();
    let mut out = [0u8; 32];
    out.copy_from_slice(&bytes);
    out
}

fn digest_of(data: &[u8]) -> [u8; 32] {
    Sha256::digest(data).into()
}

#[test]
fn no_files_give_the_digest_of_the_empty_message() {
    assert_eq!(
        hash_circuit(vec![]),
        from_hex("e3b0c44298fc1c149afbf4c8996fb92427ae41e4649b934ca495991b7852b855")
    );
}

#[test]
fn one_file_gives_the_digest_of_its_content() {
    assert_eq!(
        hash_circuit(vec![file("circuit.json", b"abc")]),
        from_hex("ba7816bf8f01cfea414140de5dae2223b00361a396177a9cb410ff61f20015ad")
    );
    assert_eq!(hash_circuit(vec![file("x", b"x")]), digest_of(b"x"));
}

#[test]
fn the_path_orders_the_files_and_is_not_hashed() {
    let expected = from_hex("b94d27b9934d3e08a52e52d7da7dabfac484efe37a5380ee9088f7ace2efcde9");
    assert_eq!(hash_circuit(vec![file("a", b"hello "), file("b", b"world")]), expected);
    assert_eq!(hash_circuit(vec![file("b", b"world"), file("a", b"hello ")]), expected);
    assert_eq!(hash_circuit(vec![file("1", b"hello "), file("2", b"world")]), expected);
    assert_ne!(hash_circuit(vec![file("b", b"hello "), file("a", b"world")]), expected);
}

#[test]
fn the_digest_runs_over_all_files_and_is_not_taken_per_file() {
    let files = vec![file("a", b"he"), file("b", b""), file("c", b"llo "), file("d", b"world")];
    assert_eq!(hash_circuit(files), digest_of(b"hello world"));
}

#[test]
fn every_enumeration_order_gives_the_same_fingerprint() {
    let files = vec![
        file("target/main.json", b"one"),
        file("target/acir.gz", b"two"),
        file("target", b"three"),
        file("target/sub/witness", b"four"),
    ];
    let expected = digest_of(b"threetwoonefour");
    let orders: [[usize; 4]; 6] =
        [[0, 1, 2, 3], [3, 2, 1, 0], [1, 0, 3, 2], [2, 3, 0, 1], [1, 2, 3, 0], [3, 0, 2, 1]];
    for order in orders.iter() {
        let listed: Vec<ArtifactFile> = order.iter().map(|i| files[*i].clone()).collect();
        assert_eq!(hash_circuit(listed), expected);
    }
}

#[test]
fn repeated_runs_over_the_same_files_agree() {
    let files = vec![file("b", &[1, 2, 3]), file("a", &[4, 5])];
    let first = hash_circuit(files.clone());
    assert_eq!(hash_circuit(files.clone()), first);
    assert_eq!(hash_circuit(files), first);
    assert_eq!(first, digest_of(&[4, 5, 1, 2, 3]));
}

#[test]
fn content_longer_than_a_chunk_is_hashed_whole() {
    assert_eq!(CHUNK_LEN, 1024);
    for len in [1023usize, 1024, 1025, 2048, 3000, 5000] {
        let content: Vec<u8> = (0..len).map(|i| (i % 251) as u8).collect();
        let other: Vec<u8> = (0..777).map(|i| (i % 7) as u8).collect();
        let mut all = content.clone();
        all.extend_from_slice(&other);
        let files = vec![
            ArtifactFile { path: vec![2], content: other },
            ArtifactFile { path: vec![1], content },
        ];
        assert_eq!(hash_circuit(files), digest_of(&all));
    }
}

#[test]
fn files_of_one_path_are_ordered_by_content() {
    let expected = digest_of(b"aazz");
    assert_eq!(hash_circuit(vec![file("p", b"zz"), file("p", b"aa")]), expected);
    assert_eq!(hash_circuit(vec![file("p", b"aa"), file("p", b"zz")]), expected);
}

#[test]
fn a_path_comes_before_its_extensions() {
    assert!(file_before(&file("a", b"9"), &file("a/b", b"0")));
    assert!(!file_before(&file("a/b", b"0"), &file("a", b"9")));
    assert!(file_before(&file("a/b", b"0"), &file("a0", b"0")));
    assert!(file_before(&file("", b"1"), &file("a", b"0")));
    assert!(file_before(&file("a", b"1"), &file("a", b"1")));
    assert!(file_before(&file("a", b"1"), &file("a", b"12")));
    assert!(!file_before(&file("a", b"2"), &file("a", b"12")));
    assert!(file_before(&file("Z", b""), &file("a", b"")));
}

#[test]
fn sort_files_orders_by_path_bytes() {
    let sorted = sort_files(vec![
        file("b", b"1"),
        file("a/c", b"2"),
        file("a", b"3"),
        file("a", b"0"),
        file("B", b"4"),
    ]);
    assert_eq!(
        sorted,
        vec![
            file("B", b"4"),
            file("a", b"0"),
            file("a", b"3"),
            file("a/c", b"2"),
            file("b", b"1"),
        ]
    );
    assert_eq!(sort_files(vec![]), vec![]);
}

#[test]
fn a_fingerprint_travels_through_a_payload() {
    let f = hash_circuit(vec![file("x", b"x")]);
    assert_eq!(f, from_hex("2d711642b726b04401627ca9fbac32f5c8530fb1903cc4db02258717921a4881"));
    let payload = encode(&f, &[0x01, 0x02], &[0xAA, 0xBB, 0xCC]);
    let mut expected = f.to_vec();
    expected.extend_from_slice(&[0x01, 0x02, 0x40, 0x40, 0x40, 0xAA, 0xBB, 0xCC]);
    assert_eq!(payload, expected);
    assert_eq!(
        decode(&payload),
        Ok(Decoded { fingerprint: f, public_params: vec![0x01, 0x02], proof: vec![0xAA, 0xBB, 0xCC] })
    );
}
