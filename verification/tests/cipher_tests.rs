use crypto_pals::cipher::{Algo, Cipher, CipherMode};
use crypto_pals::error::Error;

fn hex(s: &str) -> Vec<u8> {
    let bytes: Vec<u8> = s.bytes().collect();
    let digit = |b: u8| -> u8 {
        match b {
            b'0'..=b'9' => b - b'0',
            b'a'..=b'f' => b - b'a' + 10,
            b'A'..=b'F' => b - b'A' + 10,
            _ => panic!("not a hex digit"),
        }
    };
    bytes.chunks(2).map(|p| digit(p[0]) * 16 + digit(p[1])).collect()
}

fn cipher(mode: CipherMode, key: &[u8]) -> Cipher {
    let mut c = Cipher::new(Algo::AES(mode, key.len()));
    c.set_key(&key.to_vec());
    c
}

fn strip(mut padded: Vec<u8>) -> Vec<u8> {
    let p = *padded.last().expect("padded data is never empty") as usize;
    assert!(p >= 1 && p <= 16);
    assert!(p <= padded.len());
    padded.truncate(padded.len() - p);
    padded
}

#[test]
fn round_trip_all_key_sizes_both_modes() {
    // Round-trip: decrypt(encrypt(p)) strips back to p, for AES-128/192/256
    // in ECB and in CBC, across plaintext lengths around block boundaries.
    for size in [16usize, 24, 32] {
        let key: Vec<u8> = (0..size as u8).collect();
        let iv: Vec<u8> = (100..116u8).collect();
        for len in [0usize, 1, 15, 16, 17, 32, 37, 100] {
            let pt: Vec<u8> = (0..len as u8).map(|b| b.wrapping_mul(7)).collect();
            for mode_ecb in [true, false] {
                let mode = if mode_ecb { CipherMode::ECB } else { CipherMode::CBC(iv.clone()) };
                let c = cipher(mode, &key);
                let ct = c.encrypt(&pt).expect("encryption is total");
                assert_eq!(ct.len() % 16, 0);
                assert!(ct.len() > pt.len());
                let padded = c.decrypt(&ct).expect("length is a multiple of 16");
                assert!(Cipher::pkcs7_valid(&padded, 16));
                assert_eq!(strip(padded), pt);
            }
        }
    }
}

#[test]
fn aes128_known_answer() {
    let key = hex("000102030405060708090a0b0c0d0e0f");
    let pt = hex("00112233445566778899aabbccddeeff");
    let c = cipher(CipherMode::ECB, &key);
    let ct = c.encrypt(&pt).unwrap();
    assert_eq!(&ct[..16], &hex("69c4e0d86a7b0430d8cdb78070b4c55a")[..]);
    let back = c.decrypt(&ct[..16].to_vec()).unwrap();
    assert_eq!(back, pt);
}

#[test]
fn aes192_known_answer() {
    let key = hex("000102030405060708090a0b0c0d0e0f1011121314151617");
    let pt = hex("00112233445566778899aabbccddeeff");
    let c = cipher(CipherMode::ECB, &key);
    let ct = c.encrypt(&pt).unwrap();
    assert_eq!(&ct[..16], &hex("dda97ca4864cdfe06eaf70a0ec0d7191")[..]);
    let back = c.decrypt(&ct[..16].to_vec()).unwrap();
    assert_eq!(back, pt);
}

#[test]
fn aes256_known_answer() {
    let key = hex("000102030405060708090a0b0c0d0e0f101112131415161718191a1b1c1d1e1f");
    let pt = hex("00112233445566778899aabbccddeeff");
    let c = cipher(CipherMode::ECB, &key);
    let ct = c.encrypt(&pt).unwrap();
    assert_eq!(&ct[..16], &hex("8ea2b7ca516745bfeafc49904b496089")[..]);
    let back = c.decrypt(&ct[..16].to_vec()).unwrap();
    assert_eq!(back, pt);
}

#[test]
fn ecb_identical_blocks_encrypt_identically() {
    // ECB determinism: two identical 16-byte plaintext blocks yield
    // identical ciphertext blocks.
    let key = b"0123456789abcdef".to_vec();
    let pt = [b"YELLOW SUBMARINE".as_slice(), b"YELLOW SUBMARINE".as_slice()].concat();
    let c = cipher(CipherMode::ECB, &key);
    let ct = c.encrypt(&pt).unwrap();
    assert_eq!(&ct[0..16], &ct[16..32]);
}

#[test]
fn cbc_identical_blocks_encrypt_differently() {
    // Under CBC with a non-trivial iv the same two blocks generally differ.
    let key = b"0123456789abcdef".to_vec();
    let iv: Vec<u8> = (1..17u8).collect();
    let pt = [b"YELLOW SUBMARINE".as_slice(), b"YELLOW SUBMARINE".as_slice()].concat();
    let c = cipher(CipherMode::CBC(iv), &key);
    let ct = c.encrypt(&pt).unwrap();
    assert_ne!(&ct[0..16], &ct[16..32]);
}

#[test]
fn cbc_does_not_mutate_callers_iv() {
    let key = b"0123456789abcdef".to_vec();
    let iv: Vec<u8> = vec![9u8; 16];
    let c = cipher(CipherMode::CBC(iv), &key);
    let ct1 = c.encrypt(&b"same call twice".to_vec()).unwrap();
    let ct2 = c.encrypt(&b"same call twice".to_vec()).unwrap();
    // The running chain value is local to the call: two calls agree.
    assert_eq!(ct1, ct2);
}

#[test]
fn decrypt_rejects_ragged_ciphertext() {
    let key = b"0123456789abcdef".to_vec();
    let c = cipher(CipherMode::ECB, &key);
    assert_eq!(c.decrypt(&vec![0u8; 15]), Err(Error::MalformedCiphertext));
    assert_eq!(c.decrypt(&vec![0u8; 17]), Err(Error::MalformedCiphertext));
    assert!(c.decrypt(&vec![0u8; 16]).is_ok());
    assert!(c.decrypt(&Vec::new()).is_ok());
}

#[test]
fn cbc_differs_from_ecb() {
    let key = b"0123456789abcdef".to_vec();
    let pt = b"exactly 16 bytes".to_vec();
    let ecb = cipher(CipherMode::ECB, &key).encrypt(&pt).unwrap();
    let cbc = cipher(CipherMode::CBC(vec![1u8; 16]), &key).encrypt(&pt).unwrap();
    assert_ne!(ecb, cbc);
}
