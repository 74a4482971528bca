use laplacianos::volume::{derive_key, digest_matches, sha256};

#[test]
fn sha256_matches_fips_known_answer() {
    assert_eq!(
        sha256(b"abc"),
        [
            0xba, 0x78, 0x16, 0xbf, 0x8f, 0x01, 0xcf, 0xea, 0x41, 0x41, 0x40, 0xde, 0x5d, 0xae, 0x22, 0x23, 0xb0,
            0x03, 0x61, 0xa3, 0x96, 0x17, 0x7a, 0x9c, 0xb4, 0x10, 0xff, 0x61, 0xf2, 0x00, 0x15, 0xad,
        ]
    );
}

#[test]
fn key_derivation_is_deterministic_and_salt_separated() {
    let first = derive_key(b"correct horse battery staple", &[0x11; 16]);
    let repeated = derive_key(b"correct horse battery staple", &[0x11; 16]);
    let other_salt = derive_key(b"correct horse battery staple", &[0x12; 16]);
    assert_eq!(first, repeated);
    assert_ne!(first, other_salt);
    assert!(digest_matches(&sha256(&first), &sha256(&first)));
}
