use levi::merkle::{bucket_hashes, to_lower_hex};
use levi::strmap::StrMap;

fn entries(m: &StrMap<String>) -> Vec<(String, String)> {
    (0..m.len()).map(|i| (m.key_at(i).clone(), m.value_at(i).clone())).collect()
}

#[test]
fn deterministic_and_order_independent() {
    let a = bucket_hashes(&["abcd", "abff", "cd00"]);
    let b = bucket_hashes(&["cd00", "abff", "abcd"]);
    assert_eq!(entries(&a), entries(&b));
    assert_eq!(a.len(), 2);
    let c = bucket_hashes(&["abcd", "cd00"]);
    assert_ne!(a.get("ab"), c.get("ab"));
    assert_eq!(a.get("cd"), c.get("cd"));
}

#[test]
fn bucket_hash_is_sha256_of_sorted_newline_terminated_ids() {
    let a = bucket_hashes(&["abff", "abcd"]);
    assert_eq!(
        a.get("ab").unwrap(),
        "4703da7ed83f051896e927777bd833e51a5a3d11e733cb913f44c1a07b16aeb6"
    );
    let one = bucket_hashes(&["abcd"]);
    assert_eq!(
        one.get("ab").unwrap(),
        "fc4b5fd6816f75a7c81fc8eaa9499d6a299bd803397166e8c4cf9280b801d62c"
    );
}

#[test]
fn ids_shorter_than_a_bucket_are_skipped() {
    let a = bucket_hashes(&["x", "", "abcd"]);
    assert_eq!(a.len(), 1);
    assert!(a.contains_key("ab"));
    assert!(bucket_hashes(&[]).is_empty());
}

#[test]
fn lower_hex_of_bytes() {
    assert_eq!(to_lower_hex(&[0x00, 0x0f, 0xab, 0xff]), "000fabff");
    assert_eq!(to_lower_hex(&[]), "");
}
