use crypto_pals::attacker::{Attacker, OracleProfile};
use crypto_pals::bytes::random;
use crypto_pals::cipher::{Algo, CipherMode};
use crypto_pals::error::Error;
use crypto_pals::oracle::Oracle;

fn ecb_oracle(prefix: Vec<u8>, secret: Vec<u8>) -> Oracle {
    let key = random(16);
    Oracle::new(Algo::AES(CipherMode::ECB, 16), key, prefix, secret).expect("configuration is valid")
}

fn cbc_oracle(prefix: Vec<u8>, secret: Vec<u8>) -> Oracle {
    let key = random(16);
    let iv = random(16);
    Oracle::new(Algo::AES(CipherMode::CBC(iv), 16), key, prefix, secret)
        .expect("configuration is valid")
}

#[test]
fn detect_block_size_finds_the_width() {
    // Block-width detection returns the oracle's width for ECB and CBC alike.
    let mut at = Attacker::new(ecb_oracle(vec![0x99; 7], b"secret tail".to_vec()));
    assert_eq!(at.detect_block_size(), Ok(16));
    let mut at = Attacker::new(cbc_oracle(Vec::new(), b"secret tail".to_vec()));
    assert_eq!(at.detect_block_size(), Ok(16));
}

#[test]
fn is_ecb_classifies_both_modes() {
    let mut at = Attacker::new(ecb_oracle(vec![0x99; 21], b"YELLOW SUBMARINE".to_vec()));
    assert!(at.is_ecb());
    let mut at = Attacker::new(cbc_oracle(vec![0x99; 21], b"YELLOW SUBMARINE".to_vec()));
    assert!(!at.is_ecb());
}

#[test]
fn prefix_length_detection_is_exact() {
    // Prefix-length detection for prefixes of length 0, 1, 15, 16, 17 and 31
    // against a width-16 oracle returns the exact value in every case.
    for p in [0usize, 1, 15, 16, 17, 31] {
        let mut at = Attacker::new(ecb_oracle(vec![0x99; p], b"YELLOW SUBMARINE".to_vec()));
        assert_eq!(at.ecb_find_prepend_size(), Ok(p));
    }
}

#[test]
fn prefix_probe_misfires_on_filler_tail() {
    // Documented heuristic limit: a prefix that ends in a run of filler
    // bytes is indistinguishable from attacker filler, so the probe sees the
    // boundary where the run starts, not where the prefix ends.
    let mut prefix = vec![0x99u8; 4];
    prefix.extend(vec![0x41u8; 16]);
    let mut at = Attacker::new(ecb_oracle(prefix, b"YELLOW SUBMARINE".to_vec()));
    assert_eq!(at.ecb_find_prepend_size(), Ok(16));
}

#[test]
fn prefix_probe_rejects_cbc() {
    let mut at = Attacker::new(cbc_oracle(vec![0x99; 5], b"YELLOW SUBMARINE".to_vec()));
    assert_eq!(at.ecb_find_prepend_size(), Err(Error::UnsupportedMode));
}

#[test]
fn profile_reports_the_analysis() {
    let mut at = Attacker::new(ecb_oracle(vec![0x99; 9], b"YELLOW SUBMARINE".to_vec()));
    let p = at.profile().expect("analysis succeeds");
    assert_eq!(p, OracleProfile { block_width: 16, is_ecb: true, prefix_len: 9 });
    let mut at = Attacker::new(cbc_oracle(vec![0x99; 9], b"YELLOW SUBMARINE".to_vec()));
    let p = at.profile().expect("analysis succeeds");
    assert_eq!(p.block_width, 16);
    assert!(!p.is_ecb);
}

#[test]
fn end_to_end_recovery_with_random_prefixes() {
    // End-to-end: an ECB oracle with a fixed 9-byte random prefix and the
    // secret "YELLOW SUBMARINE" leaks exactly that secret, whatever the
    // prefix bytes were.
    for _ in 0..3 {
        let prefix = random(9);
        let mut at = Attacker::new(ecb_oracle(prefix, b"YELLOW SUBMARINE".to_vec()));
        let profile = at.profile().expect("analysis succeeds");
        assert_eq!(profile, OracleProfile { block_width: 16, is_ecb: true, prefix_len: 9 });
        let leak = at.universal_leak(&profile).expect("recovery succeeds");
        assert_eq!(leak, b"YELLOW SUBMARINE".to_vec());
    }
}

#[test]
fn recovery_of_longer_secret_across_blocks() {
    let secret = b"Operation: meet at dawn with 48 spare bicycles".to_vec();
    let mut at = Attacker::new(ecb_oracle(random(21), secret.clone()));
    let profile = at.profile().expect("analysis succeeds");
    assert_eq!(profile.prefix_len, 21);
    let leak = at.universal_leak(&profile).expect("recovery succeeds");
    assert_eq!(leak, secret);
}

#[test]
fn recovery_of_empty_secret() {
    let mut at = Attacker::new(ecb_oracle(random(9), Vec::new()));
    let profile = at.profile().expect("analysis succeeds");
    let leak = at.universal_leak(&profile).expect("recovery succeeds");
    assert_eq!(leak, Vec::<u8>::new());
}

#[test]
fn non_ecb_rejection_makes_no_oracle_call() {
    // Non-ECB rejection: against an oracle profiled as CBC the recoverer
    // fails with UnsupportedMode and performs zero additional oracle calls.
    let mut at = Attacker::new(cbc_oracle(random(9), b"YELLOW SUBMARINE".to_vec()));
    let profile = at.profile().expect("analysis succeeds");
    assert!(!profile.is_ecb);
    let calls_before = at.oracle_calls();
    assert_eq!(at.universal_leak(&profile), Err(Error::UnsupportedMode));
    assert_eq!(at.oracle_calls(), calls_before);
}

#[test]
fn recovery_stalls_on_a_wrong_profile() {
    // A profile whose prefix length does not match the oracle misaligns the
    // dictionary: the first lookup misses and recovery reports a stall.
    let mut at = Attacker::new(ecb_oracle(Vec::new(), b"YELLOW SUBMARINE".to_vec()));
    let wrong = OracleProfile { block_width: 16, is_ecb: true, prefix_len: 15 };
    assert_eq!(at.universal_leak(&wrong), Err(Error::RecoveryStalled));
}

#[test]
fn last_byte_map_has_one_entry_per_candidate() {
    let mut at = Attacker::new(ecb_oracle(Vec::new(), Vec::new()));
    let context = vec![0x41u8; 15];
    let dict = at.last_byte_map(&context, 16);
    assert_eq!(dict.len(), 256);
    for (c, entry) in dict.iter().enumerate() {
        assert_eq!(entry.1 as usize, c);
        assert_eq!(entry.0.len(), 16);
    }
    // The block recorded for a candidate equals the ciphertext block the
    // oracle returns when that candidate follows the context.
    let mut probe = context.clone();
    probe.push(0x5A);
    let ct = at.blackbox(&probe);
    assert_eq!(&dict[0x5A].0[..], &ct[..16]);
}

#[test]
fn oracle_rejects_inconsistent_configuration() {
    let r = Oracle::new(Algo::AES(CipherMode::ECB, 16), random(15), Vec::new(), Vec::new());
    assert!(r.is_err());
    let r = Oracle::new(Algo::AES(CipherMode::ECB, 20), random(20), Vec::new(), Vec::new());
    assert!(r.is_err());
    let r = Oracle::new(
        Algo::AES(CipherMode::CBC(random(8)), 16),
        random(16),
        Vec::new(),
        Vec::new(),
    );
    assert!(r.is_err());
    let r = Oracle::new(Algo::AES(CipherMode::ECB, 24), random(24), Vec::new(), Vec::new());
    assert!(r.is_ok());
}

#[test]
fn oracle_counts_its_calls() {
    let mut o = ecb_oracle(Vec::new(), Vec::new());
    assert_eq!(o.calls(), 0);
    o.encrypt(&vec![1, 2, 3]);
    o.encrypt(&Vec::new());
    assert_eq!(o.calls(), 2);
}

#[test]
fn set_blackbox_replaces_the_oracle() {
    let mut at = Attacker::new(cbc_oracle(Vec::new(), b"tail".to_vec()));
    assert!(!at.is_ecb());
    at.set_blackbox(ecb_oracle(Vec::new(), b"tail".to_vec()));
    assert!(at.is_ecb());
}
