use circuit_attest::bytes::{bytes_eq, bytes_le};

#[test]
fn equal_byte_strings_have_the_same_length_and_bytes() {
    assert!(bytes_eq(&[], &[]));
    assert!(bytes_eq(&[1, 2, 3], &[1, 2, 3]));
    assert!(!bytes_eq(&[1, 2, 3], &[1, 2]));
    assert!(!bytes_eq(&[1, 2], &[1, 2, 3]));
    assert!(!bytes_eq(&[1, 2, 3], &[1, 2, 4]));
    assert!(!bytes_eq(&[0, 2, 3], &[1, 2, 3]));
}

#[test]
fn the_first_differing_byte_orders_two_byte_strings() {
    assert!(bytes_le(&[1, 2, 3], &[1, 2, 4]));
    assert!(!bytes_le(&[1, 2, 4], &[1, 2, 3]));
    assert!(bytes_le(&[1, 9, 9], &[2]));
    assert!(!bytes_le(&[2], &[1, 9, 9]));
    assert!(bytes_le(&[0x7F], &[0x80]));
    assert!(!bytes_le(&[0xFF], &[0x00, 0xFF]));
}

#[test]
fn a_prefix_comes_first() {
    assert!(bytes_le(&[], &[]));
    assert!(bytes_le(&[], &[0]));
    assert!(!bytes_le(&[0], &[]));
    assert!(bytes_le(&[1, 2], &[1, 2, 0]));
    assert!(!bytes_le(&[1, 2, 0], &[1, 2]));
    assert!(bytes_le(&[1, 2], &[1, 2]));
}

#[test]
fn the_order_agrees_with_the_order_of_slices() {
    let samples: [&[u8]; 7] = [&[], &[0], &[0, 0], &[0, 1], &[1], &[1, 0], &[255]];
    for a in samples.iter() {
        for b in samples.iter() {
            assert_eq!(bytes_le(a, b), a <= b);
            assert_eq!(bytes_eq(a, b), a == b);
        }
    }
}
