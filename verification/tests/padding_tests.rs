use crypto_pals::cipher::Cipher;
use crypto_pals::error::Error;

fn add(data: &[u8], width: usize) -> Vec<u8> {
    Cipher::pkcs7_add_padding(&data.to_vec(), width).expect("width is positive")
}

#[test]
fn pad_length_is_next_strict_multiple() {
    // Padding invariant: padded length is a multiple of the width and the
    // added pad length is always in [1, width], never 0.
    for width in [1usize, 2, 7, 16, 24, 32, 255] {
        for len in [0usize, 1, 5, 15, 16, 17, 31, 32, 100] {
            let data = vec![0xA7u8; len];
            let padded = add(&data, width);
            assert_eq!(padded.len() % width, 0);
            let added = padded.len() - len;
            assert!(added >= 1);
            assert!(added <= width);
            assert_eq!(&padded[..len], &data[..]);
        }
    }
}

#[test]
fn pad_bytes_hold_the_pad_length() {
    let padded = add(b"YELLOW SUBMARINE", 20);
    assert_eq!(padded.len(), 20);
    assert_eq!(&padded[..16], b"YELLOW SUBMARINE");
    assert_eq!(&padded[16..], &[4, 4, 4, 4]);
}

#[test]
fn pad_exact_multiple_adds_a_full_block() {
    let padded = add(b"YELLOW SUBMARINE", 16);
    assert_eq!(padded.len(), 32);
    assert_eq!(&padded[16..], &[16u8; 16]);
}

#[test]
fn pad_zero_width_is_rejected() {
    let r = Cipher::pkcs7_add_padding(&b"abc".to_vec(), 0);
    assert_eq!(r, Err(Error::InvalidBlockWidth));
}

#[test]
fn validate_accepts_fresh_padding() {
    for width in [1usize, 8, 16, 32] {
        for len in [0usize, 1, 7, 16, 33] {
            let padded = add(&vec![0x2Eu8; len], width);
            assert!(Cipher::pkcs7_valid(&padded, width));
        }
    }
}

#[test]
fn validate_rejects_empty_input() {
    assert!(!Cipher::pkcs7_valid(&Vec::new(), 16));
}

#[test]
fn validate_rejects_zero_pad_byte() {
    assert!(!Cipher::pkcs7_valid(&vec![0x41, 0x00], 16));
}

#[test]
fn validate_rejects_pad_longer_than_data() {
    assert!(!Cipher::pkcs7_valid(&vec![0x05, 0x05], 16));
}

#[test]
fn validate_rejects_pad_longer_than_width() {
    assert!(!Cipher::pkcs7_valid(&vec![0x10; 16], 8));
}

#[test]
fn validate_rejects_broken_trailing_run() {
    assert!(!Cipher::pkcs7_valid(&vec![1, 2, 3, 4, 4, 4], 16));
    assert!(Cipher::pkcs7_valid(&vec![1, 2, 3, 4, 4, 4, 4], 16));
}
