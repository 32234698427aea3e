use olivaw::checksum::sha256_hex;

#[test]
fn format_is_stable() {
    // Known SHA-256 of the empty string.
    assert_eq!(
        sha256_hex(b""),
        "sha256:e3b0c44298fc1c149afbf4c8996fb92427ae41e4649b934ca495991b7852b855"
    );
    assert_eq!(sha256_hex(b"olivaw"), sha256_hex(b"olivaw"),);
    assert_ne!(sha256_hex(b"a"), sha256_hex(b"b"));
}

#[test]
fn digest_of_abc_is_the_published_vector() {
    assert_eq!(
        sha256_hex(b"abc"),
        "sha256:ba7816bf8f01cfea414140de5dae2223b00361a396177a9cb410ff61f20015ad"
    );
    assert_eq!(sha256_hex(b"abc").len(), 71);
}
