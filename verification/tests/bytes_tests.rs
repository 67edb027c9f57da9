use crypto_pals::bytes::{common_start_size, filler, random};

#[test]
fn common_start_size_reports_first_difference() {
    assert_eq!(common_start_size(&vec![1, 2, 3], &vec![9, 2, 3]), Some(0));
    assert_eq!(common_start_size(&vec![1, 2, 3, 4], &vec![1, 2, 3, 9]), Some(3));
    assert_eq!(common_start_size(&vec![1, 2, 3], &vec![1, 2, 3]), None);
}

#[test]
fn common_start_size_ignores_the_longer_tail() {
    // One sequence a prefix of the other: no difference on the common length.
    assert_eq!(common_start_size(&vec![1, 2], &vec![1, 2, 3, 4]), None);
    assert_eq!(common_start_size(&Vec::new(), &vec![5]), None);
    assert_eq!(common_start_size(&vec![1, 9, 5], &vec![1, 2]), Some(1));
}

#[test]
fn filler_is_all_filler_bytes() {
    let f = filler(20);
    assert_eq!(f.len(), 20);
    assert!(f.iter().all(|b| *b == 0x41));
}

#[test]
fn random_returns_the_requested_length() {
    assert_eq!(random(0).len(), 0);
    assert_eq!(random(17).len(), 17);
    // Two 32-byte draws coinciding would take a one-in-2^256 accident.
    assert_ne!(random(32), random(32));
}
