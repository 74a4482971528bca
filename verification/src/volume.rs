//! Encrypted-volume headers: a passphrase is stretched with PBKDF2-HMAC-
//! SHA-256 over a random salt, and the header keeps only the SHA-256 digest
//! of the derived key, so that opening checks a passphrase without storing
//! the key.

use vstd::prelude::*;
use sha2::Digest;
use subtle::ConstantTimeEq;

verus! {

/// "LUKS" read as a little-endian word.
pub const HEADER_MAGIC: u32 = 0x4c55_4b53;
pub const HEADER_VERSION: u16 = 2;
pub const KEY_BYTES: usize = 32;
pub const SALT_BYTES: usize = 16;
pub const HEADER_SIZE: usize = 512;
pub const PBKDF2_ITERATIONS: u32 = 600_000;
/// Where the fields sit in the header.
pub const DIGEST_OFFSET: usize = 6;
pub const SALT_OFFSET: usize = 38;
pub const SALT_END: usize = 54;

/// The SHA-256 digest of `data`.
pub uninterp spec fn sha256_of(data: Seq<u8>) -> Seq<u8>;

/// The 32-byte PBKDF2-HMAC-SHA-256 key of `password` and `salt` after `rounds` rounds.
pub uninterp spec fn pbkdf2_sha256_of(password: Seq<u8>, salt: Seq<u8>, rounds: u32) -> Seq<u8>;

/// `sha2::Sha256::digest`: the SHA-256 digest of `data`, a function of
/// `data` alone.
#[verifier::external_body]
fn sha256_digest(data: &[u8]) -> (r: [u8; 32])
    ensures
        r@ == sha256_of(data@),
{
    let digest = sha2::Sha256::digest(data);
    let mut out = [0u8; 32];
    out.copy_from_slice(&digest);
    out
}

/// `pbkdf2::pbkdf2_hmac::<sha2::Sha256>` into a 32-byte buffer: the derived
/// key, a function of the password, the salt and the round count alone. It
/// does not panic: HMAC accepts keys of any length.
#[verifier::external_body]
fn pbkdf2_hmac_sha256(password: &[u8], salt: &[u8], rounds: u32) -> (r: [u8; 32])
    ensures
        r@ == pbkdf2_sha256_of(password@, salt@, rounds),
{
    let mut key = [0u8; 32];
    pbkdf2::pbkdf2_hmac::<sha2::Sha256>(password, salt, rounds, &mut key);
    key
}

/// `subtle::ConstantTimeEq::ct_eq` on byte slices, turned into a `bool`:
/// true exactly when the slices have the same length and the same bytes.
#[verifier::external_body]
fn constant_time_eq(a: &[u8], b: &[u8]) -> (r: bool)
    ensures
        r == (a@ == b@),
{
    a.ct_eq(b).into()
}

/// `getrandom::getrandom`: fills the salt from the operating system's
/// generator. Nothing is stated of the bytes, which are random; the result
/// says whether the generator answered.
#[verifier::external_body]
fn fill_random(buf: &mut [u8; 16]) -> (ok: bool) {
    getrandom::getrandom(buf).is_ok()
}

/// The SHA-256 digest of `data`.
pub fn sha256(data: &[u8]) -> (r: [u8; 32])
    ensures
        r@ == sha256_of(data@),
{
    sha256_digest(data)
}

/// The volume key a passphrase and salt give.
pub fn derive_key(passphrase: &[u8], salt: &[u8; 16]) -> (r: [u8; 32])
    ensures
        r@ == pbkdf2_sha256_of(passphrase@, salt@, PBKDF2_ITERATIONS),
{
    pbkdf2_hmac_sha256(passphrase, salt, PBKDF2_ITERATIONS)
}

/// Whether a stored digest equals a computed one, compared in constant time.
pub fn digest_matches(expected: &[u8], actual: &[u8; 32]) -> (r: bool)
    ensures
        r == (expected@ == actual@),
{
    expected.len() == actual.len() && constant_time_eq(expected, actual)
}

/// The digest a header stores for a passphrase and salt.
pub open spec fn key_digest(passphrase: Seq<u8>, salt: Seq<u8>) -> Seq<u8> {
    sha256_of(pbkdf2_sha256_of(passphrase, salt, PBKDF2_ITERATIONS))
}

/// A header laid out as the volume format has it: magic and version
/// little-endian, the key digest, the salt, and zeros to the end.
pub open spec fn header_layout(digest: Seq<u8>, salt: Seq<u8>) -> Seq<u8> {
    seq![0x53u8, 0x4b, 0x55, 0x4c, 0x02, 0x00] + digest + salt + Seq::new(
        (HEADER_SIZE - SALT_END) as nat,
        |i: int| 0u8,
    )
}

/// Whether a header starts with the volume magic.
pub open spec fn has_magic(header: Seq<u8>) -> bool {
    header[0] == 0x53 && header[1] == 0x4b && header[2] == 0x55 && header[3] == 0x4c
}

/// The header for a new volume with the given passphrase and salt.
pub fn encode_header(passphrase: &[u8], salt: &[u8; 16]) -> (r: [u8; 512])
    ensures
        r@ == header_layout(key_digest(passphrase@, salt@), salt@),
{
    let key = derive_key(passphrase, salt);
    let digest = sha256(&key);
    let mut header = [0u8; 512];
    let magic: [u8; 4] = [0x53, 0x4b, 0x55, 0x4c];
    let version: [u8; 2] = [0x02, 0x00];
    let mut i: usize = 0;
    while i < HEADER_SIZE
        invariant
            i <= HEADER_SIZE,
            digest@ == key_digest(passphrase@, salt@),
            magic@ == seq![0x53u8, 0x4b, 0x55, 0x4c],
            version@ == seq![0x02u8, 0x00],
            forall|k: int| 0 <= k < i ==> header@[k] == header_layout(digest@, salt@)[k],
        decreases HEADER_SIZE - i,
    {
        let byte = if i < 4 {
            magic[i]
        } else if i < DIGEST_OFFSET {
            version[i - 4]
        } else if i < SALT_OFFSET {
            digest[i - DIGEST_OFFSET]
        } else if i < SALT_END {
            salt[i - SALT_OFFSET]
        } else {
            0
        };
        header[i] = byte;
        i += 1;
    }
    assert(header@ =~= header_layout(digest@, salt@));
    header
}

/// Why a volume would not open.
#[derive(Clone, Copy, Debug, PartialEq, Eq, Structural)]
pub enum OpenError {
    /// The header does not carry the volume magic.
    NotAVolume,
    /// The passphrase does not give the key whose digest the header holds.
    IncorrectPassphrase,
}

/// What opening a header with a passphrase gives: the derived key, or why not.
pub open spec fn open_spec(header: Seq<u8>, passphrase: Seq<u8>) -> Result<Seq<u8>, OpenError> {
    let salt = header.subrange(SALT_OFFSET as int, SALT_END as int);
    if !has_magic(header) {
        Err(OpenError::NotAVolume)
    } else if header.subrange(DIGEST_OFFSET as int, SALT_OFFSET as int) != key_digest(passphrase, salt) {
        Err(OpenError::IncorrectPassphrase)
    } else {
        Ok(pbkdf2_sha256_of(passphrase, salt, PBKDF2_ITERATIONS))
    }
}

/// Open a volume header with a passphrase: the key derived from it over the
/// header's salt must hash to the header's digest.
pub fn open_header(header: &[u8; 512], passphrase: &[u8]) -> (r: Result<[u8; 32], OpenError>)
    ensures
        (match open_spec(header@, passphrase@) {
            Err(e) => r == Err::<[u8; 32], OpenError>(e),
            Ok(key) => r is Ok && r->Ok_0@ == key,
        }),
{
    if !(header[0] == 0x53 && header[1] == 0x4b && header[2] == 0x55 && header[3] == 0x4c) {
        return Err(OpenError::NotAVolume);
    }
    let mut salt = [0u8; 16];
    let mut i: usize = 0;
    while i < SALT_BYTES
        invariant
            i <= SALT_BYTES,
            forall|k: int| 0 <= k < i ==> salt@[k] == header@[SALT_OFFSET + k],
        decreases SALT_BYTES - i,
    {
        salt[i] = header[SALT_OFFSET + i];
        i += 1;
    }
    assert(salt@ =~= header@.subrange(38, 54));
    let key = derive_key(passphrase, &salt);
    let digest = sha256(&key);
    let stored = &header.as_slice()[DIGEST_OFFSET..SALT_OFFSET];
    assert(stored@ =~= header@.subrange(6, 38));
    if !digest_matches(stored, &digest) {
        return Err(OpenError::IncorrectPassphrase);
    }
    Ok(key)
}

/// A fresh volume header for a passphrase, over a salt drawn from the
/// operating system; `None` when the generator does not answer.
pub fn format_header(passphrase: &[u8]) -> (r: Option<([u8; 512], [u8; 16])>)
    ensures
        r matches Some((header, salt)) ==> header@ == header_layout(key_digest(passphrase@, salt@), salt@),
{
    let mut salt = [0u8; 16];
    if !fill_random(&mut salt) {
        return None;
    }
    Some((encode_header(passphrase, &salt), salt))
}

/// A header written for a passphrase opens with that passphrase and gives
/// back the key derived over its salt (a SHA-256 digest is 32 bytes long).
pub proof fn lemma_format_then_open(passphrase: Seq<u8>, salt: Seq<u8>)
    requires
        salt.len() == SALT_BYTES,
        key_digest(passphrase, salt).len() == 32,
    ensures
        open_spec(header_layout(key_digest(passphrase, salt), salt), passphrase) == Ok::<Seq<u8>, OpenError>(
            pbkdf2_sha256_of(passphrase, salt, PBKDF2_ITERATIONS),
        ),
{
    let header = header_layout(key_digest(passphrase, salt), salt);
    assert(header.subrange(6, 38) =~= key_digest(passphrase, salt));
    assert(header.subrange(38, 54) =~= salt);
}

/// A header opens only with a passphrase whose key hashes to its digest:
/// any other passphrase is refused.
pub proof fn lemma_wrong_passphrase_refused(header: Seq<u8>, passphrase: Seq<u8>)
    requires
        header.len() == HEADER_SIZE,
        has_magic(header),
        header.subrange(6, 38) != key_digest(passphrase, header.subrange(38, 54)),
    ensures
        open_spec(header, passphrase) == Err::<Seq<u8>, OpenError>(OpenError::IncorrectPassphrase),
{
}

} // verus!
