use fortnite_downloader::hashing::check_hash;
use fortnite_downloader::model::ShaHash;

fn digest(hex: &str) -> ShaHash {
    let mut data = [0u8; 20];
    for i in 0..20 {
        data[i] = u8::from_str_radix(&hex[2 * i..2 * i + 2], 16).unwrap();
    }
    ShaHash::new(data)
}

#[test]
fn hash_of_abc_matches_its_digest() {
    let h = digest("a9993e364706816aba3e25717850c26c9cd0d89d");
    assert!(check_hash(&b"abc".to_vec(), &h));
}

#[test]
fn hash_of_empty_input() {
    let h = digest("da39a3ee5e6b4b0d3255bfef95601890afd80709");
    assert!(check_hash(&Vec::new(), &h));
}

#[test]
fn hash_mismatch_is_detected() {
    let h = digest("a9993e364706816aba3e25717850c26c9cd0d89d");
    assert!(!check_hash(&b"abd".to_vec(), &h));
}

#[test]
fn digests_compare_bytewise() {
    let a = digest("a9993e364706816aba3e25717850c26c9cd0d89d");
    let b = digest("a9993e364706816aba3e25717850c26c9cd0d89e");
    assert!(a.same_as(&a));
    assert!(!a.same_as(&b));
}
