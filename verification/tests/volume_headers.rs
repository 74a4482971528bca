use laplacianos::volume::{
    derive_key, digest_matches, encode_header, format_header, open_header, sha256, OpenError, HEADER_SIZE,
};

#[test]
fn a_formatted_header_opens_with_its_passphrase_only() {
    let salt = [0x42u8; 16];
    let header = encode_header(b"swordfish", &salt);
    assert_eq!(header.len(), HEADER_SIZE);
    assert_eq!(&header[0..6], &[0x53, 0x4b, 0x55, 0x4c, 0x02, 0x00]);
    assert_eq!(&header[38..54], &salt);
    assert!(header[54..].iter().all(|b| *b == 0));
    let key = derive_key(b"swordfish", &salt);
    assert_eq!(&header[6..38], &sha256(&key));
    assert_eq!(open_header(&header, b"swordfish"), Ok(key));
    assert_eq!(open_header(&header, b"swordfist"), Err(OpenError::IncorrectPassphrase));
    let mut foreign = header;
    foreign[0] = 0;
    assert_eq!(open_header(&foreign, b"swordfish"), Err(OpenError::NotAVolume));
}

#[test]
fn derived_keys_are_not_the_passphrase_and_digests_compare_exactly() {
    let key = derive_key(b"abc", &[0u8; 16]);
    assert_ne!(&key[..3], b"abc");
    assert_ne!(key, [0u8; 32]);
    let digest = sha256(&key);
    let mut other = digest;
    other[31] ^= 1;
    assert!(!digest_matches(&other, &digest));
    assert!(!digest_matches(&digest[..31], &digest));
    assert!(digest_matches(&digest, &digest));
}

#[test]
fn format_draws_a_salt_and_writes_a_header_that_opens() {
    let (header, salt) = format_header(b"pw").expect("generator available");
    assert_eq!(&header[38..54], &salt);
    assert!(open_header(&header, b"pw").is_ok());
}
