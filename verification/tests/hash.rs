use llm_wiki::hash::{push_decimal, sha256_hex};

#[test]
fn sha256_hex_known_digests() {
    assert_eq!(
        sha256_hex(b""),
        "e3b0c44298fc1c149afbf4c8996fb92427ae41e4649b934ca495991b7852b855"
    );
    assert_eq!(
        sha256_hex("abc".as_bytes()),
        "ba7816bf8f01cfea414140de5dae2223b00361a396177a9cb410ff61f20015ad"
    );
}

#[test]
fn decimal_numerals() {
    for n in [0u64, 7, 10, 42, 1234567890, u64::MAX] {
        let mut v = Vec::new();
        push_decimal(&mut v, n);
        assert_eq!(v.iter().collect::<String>(), n.to_string());
    }
}
