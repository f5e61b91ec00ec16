//! The cryptographic and platform operations that the engine takes from
//! outside crates, each behind one small function whose contract states
//! what the engine relies on.
use vstd::prelude::*;
use vstd::utf8::{decode_utf8, encode_utf8};

use aes_gcm::aead::{Aead, KeyInit};
use ed25519_dalek::{Signer, Verifier};
use hmac::Mac;
use base64::Engine;
use rand::RngCore;
use sha2::Digest;

verus! {

/// Largest plaintext that AES-256-GCM accepts, in bytes.
pub const AEAD_MAX_PLAINTEXT: u64 = 0x10_0000_0000;

/// Largest output that HKDF-SHA256 can expand to, in bytes.
pub const HKDF_MAX_OUTPUT: usize = 8160;

/// X25519 public key of a 32-byte secret.
pub uninterp spec fn x25519_base(secret: Seq<u8>) -> Seq<u8>;

/// X25519 shared value of a secret and a peer's public key.
pub uninterp spec fn x25519(secret: Seq<u8>, public: Seq<u8>) -> Seq<u8>;

/// Ed25519 public key of a 32-byte signing key.
pub uninterp spec fn ed25519_public(secret: Seq<u8>) -> Seq<u8>;

/// Ed25519 signature of a message under a signing key.
pub uninterp spec fn ed25519_signature(secret: Seq<u8>, message: Seq<u8>) -> Seq<u8>;

/// Whether the bytes decode to an Ed25519 verifying key.
pub uninterp spec fn ed25519_key_ok(public: Seq<u8>) -> bool;

/// Whether a signature over a message verifies under a public key.
pub uninterp spec fn ed25519_accepts(public: Seq<u8>, message: Seq<u8>, signature: Seq<u8>) -> bool;

/// The Montgomery form of a compressed Edwards point, when it decompresses.
pub uninterp spec fn montgomery_of(edwards: Seq<u8>) -> Option<Seq<u8>>;

/// SHA-256 digest.
pub uninterp spec fn sha256_of(data: Seq<u8>) -> Seq<u8>;

/// SHA-512 digest.
pub uninterp spec fn sha512_of(data: Seq<u8>) -> Seq<u8>;

/// HMAC-SHA256 of `data` under `key`.
pub uninterp spec fn hmac_sha256(key: Seq<u8>, data: Seq<u8>) -> Seq<u8>;

/// HKDF-SHA256 (extract with `salt`, expand with `info`) to `len` bytes.
pub uninterp spec fn hkdf_sha256(ikm: Seq<u8>, salt: Seq<u8>, info: Seq<u8>, len: nat) -> Seq<u8>;

/// AES-256-GCM ciphertext (with its tag) of a plaintext, no associated data.
pub uninterp spec fn aes_gcm_seal(key: Seq<u8>, nonce: Seq<u8>, plaintext: Seq<u8>) -> Seq<u8>;

/// The character of a 6-bit value in the standard base64 alphabet.
pub open spec fn base64_digit(v: u8) -> u8 {
    if v < 26 {
        (65 + v) as u8
    } else if v < 52 {
        (97 + v - 26) as u8
    } else if v < 62 {
        (48 + v - 52) as u8
    } else if v == 62 {
        43u8
    } else {
        47u8
    }
}

/// Standard base64 with `=` padding, as bytes: each group of three bytes
/// becomes four digits; a last group of one or two bytes is padded.
pub open spec fn base64_bytes(d: Seq<u8>) -> Seq<u8>
    decreases d.len(),
{
    if d.len() == 0 {
        Seq::empty()
    } else if d.len() == 1 {
        seq![base64_digit(d[0] >> 2u8), base64_digit((d[0] & 3u8) << 4u8), 61u8, 61u8]
    } else if d.len() == 2 {
        seq![
            base64_digit(d[0] >> 2u8),
            base64_digit(((d[0] & 3u8) << 4u8) | (d[1] >> 4u8)),
            base64_digit((d[1] & 15u8) << 2u8),
            61u8,
        ]
    } else {
        seq![
            base64_digit(d[0] >> 2u8),
            base64_digit(((d[0] & 3u8) << 4u8) | (d[1] >> 4u8)),
            base64_digit(((d[1] & 15u8) << 2u8) | (d[2] >> 6u8)),
            base64_digit(d[2] & 63u8),
        ] + base64_bytes(d.subrange(3, d.len() as int))
    }
}

/// Standard base64 (with padding) of a byte string.
pub open spec fn base64_of(data: Seq<u8>) -> Seq<char> {
    decode_utf8(base64_bytes(data))
}

/// Bytes that a URL carries as they are: ASCII letters and digits, `-`,
/// `.`, `_` and `~`.
pub open spec fn url_unreserved(b: u8) -> bool {
    (48 <= b <= 57) || (65 <= b <= 90) || (97 <= b <= 122) || b == 45 || b == 46 || b == 95 || b
        == 126
}

/// An upper-case hexadecimal digit.
pub open spec fn hex_digit_upper(d: u8) -> u8 {
    if d < 10 {
        (48 + d) as u8
    } else {
        (55 + d) as u8
    }
}

/// Percent-encoding of bytes: every byte but the unreserved ones becomes
/// `%` and two upper-case hexadecimal digits.
pub open spec fn percent_encoded(b: Seq<u8>) -> Seq<u8>
    decreases b.len(),
{
    if b.len() == 0 {
        Seq::empty()
    } else {
        percent_encoded(b.drop_last()) + if url_unreserved(b.last()) {
            seq![b.last()]
        } else {
            seq![37u8, hex_digit_upper(b.last() >> 4u8), hex_digit_upper(b.last() & 15u8)]
        }
    }
}

/// Percent-encoding of a string for use in a URL query.
pub open spec fn url_encoded(s: Seq<char>) -> Seq<char> {
    decode_utf8(percent_encoded(encode_utf8(s)))
}

/// Relies on rand's `OsRng::fill_bytes`: 32 bytes from the operating
/// system's generator. Nothing is known of them.
#[verifier::external_body]
pub fn random_bytes_32() -> (r: [u8; 32]) {
    let mut out = [0u8; 32];
    rand::rngs::OsRng.fill_bytes(&mut out);
    out
}

/// Relies on `rand::random::<u32>`: a random integer. Nothing is known of it.
#[verifier::external_body]
pub fn random_u32() -> (r: u32) {
    rand::random::<u32>()
}

/// Relies on chrono's `Utc::now().timestamp()`: the current time in
/// seconds. Nothing is known of it.
#[verifier::external_body]
pub fn now_timestamp() -> (r: i64) {
    chrono::Utc::now().timestamp()
}

/// Relies on x25519-dalek: `PublicKey::from(&StaticSecret::from(secret))`,
/// and on X25519 agreement: any 32-byte secret agrees with `secret` through
/// this public key.
#[verifier::external_body]
pub fn x25519_public_key(secret: &[u8; 32]) -> (r: [u8; 32])
    ensures
        r@ == x25519_base(secret@),
        forall|a: Seq<u8>| a.len() == 32 ==> #[trigger] x25519(a, r@) == x25519(secret@, x25519_base(a)),
{
    let s = x25519_dalek::StaticSecret::from(*secret);
    x25519_dalek::PublicKey::from(&s).to_bytes()
}

/// Relies on x25519-dalek: `StaticSecret::diffie_hellman`.
#[verifier::external_body]
pub fn x25519_agree(secret: &[u8; 32], public: &[u8; 32]) -> (r: [u8; 32])
    ensures
        r@ == x25519(secret@, public@),
{
    let s = x25519_dalek::StaticSecret::from(*secret);
    let p = x25519_dalek::PublicKey::from(*public);
    *s.diffie_hellman(&p).as_bytes()
}

/// Relies on ed25519-dalek: `SigningKey::from_bytes(..).verifying_key()`,
/// whose encoding `VerifyingKey::from_bytes` accepts.
#[verifier::external_body]
pub fn ed25519_public_key(secret: &[u8; 32]) -> (r: [u8; 32])
    ensures
        r@ == ed25519_public(secret@),
        ed25519_key_ok(r@),
{
    ed25519_dalek::SigningKey::from_bytes(secret).verifying_key().to_bytes()
}

/// Relies on ed25519-dalek: `SigningKey::sign`, which is deterministic, and
/// whose signatures `VerifyingKey::verify` accepts under the signer's key.
#[verifier::external_body]
pub fn ed25519_sign(secret: &[u8; 32], message: &[u8]) -> (r: [u8; 64])
    ensures
        r@ == ed25519_signature(secret@, message@),
        ed25519_accepts(ed25519_public(secret@), message@, r@),
{
    ed25519_dalek::SigningKey::from_bytes(secret).sign(message).to_bytes()
}

/// Relies on ed25519-dalek: whether `VerifyingKey::from_bytes` accepts the key.
#[verifier::external_body]
pub fn ed25519_key_valid(public: &[u8; 32]) -> (r: bool)
    ensures
        r == ed25519_key_ok(public@),
{
    ed25519_dalek::VerifyingKey::from_bytes(public).is_ok()
}

/// Relies on ed25519-dalek: `VerifyingKey::from_bytes` followed by
/// `VerifyingKey::verify`; false when either fails.
#[verifier::external_body]
pub fn ed25519_verify(public: &[u8; 32], message: &[u8], signature: &[u8; 64]) -> (r: bool)
    ensures
        r == ed25519_accepts(public@, message@, signature@),
{
    match ed25519_dalek::VerifyingKey::from_bytes(public) {
        Ok(key) => key.verify(message, &ed25519_dalek::Signature::from_bytes(signature)).is_ok(),
        Err(_) => false,
    }
}

/// Relies on curve25519-dalek: `CompressedEdwardsY::decompress` and
/// `EdwardsPoint::to_montgomery`.
#[verifier::external_body]
pub fn edwards_to_montgomery(edwards: &[u8; 32]) -> (r: Option<[u8; 32]>)
    ensures
        r matches Some(m) ==> montgomery_of(edwards@) == Some(m@),
        r is None ==> montgomery_of(edwards@) is None,
{
    match curve25519_dalek::edwards::CompressedEdwardsY(*edwards).decompress() {
        Some(point) => Some(point.to_montgomery().to_bytes()),
        None => None,
    }
}

/// Relies on sha2: `Sha256::digest`.
#[verifier::external_body]
pub fn sha256(data: &[u8]) -> (r: [u8; 32])
    ensures
        r@ == sha256_of(data@),
{
    <sha2::Sha256 as Digest>::digest(data).into()
}

/// Relies on sha2: `Sha512::digest`.
#[verifier::external_body]
pub fn sha512(data: &[u8]) -> (r: [u8; 64])
    ensures
        r@ == sha512_of(data@),
{
    <sha2::Sha512 as Digest>::digest(data).into()
}

/// Relies on hmac: `Hmac::<Sha256>::new_from_slice`, which takes keys of
/// any length, then `update` and `finalize`.
#[verifier::external_body]
pub fn hmac(key: &[u8; 32], data: &[u8]) -> (r: [u8; 32])
    ensures
        r@ == hmac_sha256(key@, data@),
{
    let mut mac = <hmac::Hmac<sha2::Sha256> as Mac>::new_from_slice(key).unwrap();
    mac.update(data);
    mac.finalize().into_bytes().into()
}

/// Relies on hkdf: `Hkdf::<Sha256>::new(Some(salt), ikm)` and `expand`,
/// which fails exactly when more than 255 hash lengths are asked for.
#[verifier::external_body]
pub fn hkdf(ikm: &[u8], salt: &[u8], info: &[u8], len: usize) -> (r: Option<Vec<u8>>)
    ensures
        r is Some <==> len <= HKDF_MAX_OUTPUT,
        r matches Some(out) ==> out@ == hkdf_sha256(ikm@, salt@, info@, len as nat),
        r matches Some(out) ==> out@.len() == len,
{
    let h = hkdf::Hkdf::<sha2::Sha256>::new(Some(salt), ikm);
    let mut out = vec![0u8; len];
    match h.expand(info, &mut out) {
        Ok(()) => Some(out),
        Err(_) => None,
    }
}

/// Relies on aes-gcm: `Aes256Gcm::encrypt`, which appends a 16-byte tag and
/// fails only on a plaintext longer than its maximum.
#[verifier::external_body]
pub fn aead_seal(key: &[u8; 32], nonce: &[u8; 12], plaintext: &[u8]) -> (r: Option<Vec<u8>>)
    ensures
        r is Some <==> plaintext@.len() <= AEAD_MAX_PLAINTEXT,
        r matches Some(c) ==> c@ == aes_gcm_seal(key@, nonce@, plaintext@),
        r matches Some(c) ==> c@.len() == plaintext@.len() + 16,
{
    let cipher = aes_gcm::Aes256Gcm::new(key.into());
    cipher.encrypt(nonce.into(), plaintext).ok()
}

/// Relies on aes-gcm: `Aes256Gcm::decrypt`. It returns the plaintext of a
/// ciphertext that was sealed under the same key and nonce, and it accepts
/// nothing else: what it returns seals back to the input.
#[verifier::external_body]
pub fn aead_open(key: &[u8; 32], nonce: &[u8; 12], ciphertext: &[u8]) -> (r: Option<Vec<u8>>)
    ensures
        r matches Some(p) ==> ciphertext@ == aes_gcm_seal(key@, nonce@, p@),
        r is None ==> forall|m: Seq<u8>|
            m.len() <= AEAD_MAX_PLAINTEXT ==> #[trigger] aes_gcm_seal(key@, nonce@, m) != ciphertext@,
        r matches Some(p) ==> forall|m: Seq<u8>|
            m.len() <= AEAD_MAX_PLAINTEXT && #[trigger] aes_gcm_seal(key@, nonce@, m) == ciphertext@
                ==> p@ == m,
{
    let cipher = aes_gcm::Aes256Gcm::new(key.into());
    cipher.decrypt(nonce.into(), ciphertext).ok()
}

/// Relies on base64: the standard engine's `encode`, which uses the standard
/// alphabet and pads with `=`.
#[verifier::external_body]
pub fn base64_encode(data: &[u8]) -> (r: String)
    ensures
        r@ == base64_of(data@),
{
    base64::engine::general_purpose::STANDARD.encode(data)
}

/// Relies on urlencoding: `encode`, which percent-encodes the UTF-8 bytes of
/// the string except alphanumerics and `-`, `.`, `_`, `~`, with upper-case
/// hexadecimal digits.
#[verifier::external_body]
pub fn url_encode(s: &str) -> (r: String)
    ensures
        r@ == url_encoded(s@),
{
    urlencoding::encode(s).into_owned()
}

/// Relies on std's `FromIterator<char>` for `String`: the characters in order.
#[verifier::external_body]
pub fn string_from_chars(chars: &[char]) -> (r: String)
    ensures
        r@ == chars@,
{
    chars.iter().collect()
}

/// Decimal digits of a number, without leading zeros.
pub open spec fn decimal(n: nat) -> Seq<char>
    decreases n,
{
    if n < 10 {
        seq![decimal_digit(n)]
    } else {
        decimal((n / 10) as nat) + seq![decimal_digit(n % 10)]
    }
}

pub open spec fn decimal_digit(d: nat) -> char {
    seq!['0', '1', '2', '3', '4', '5', '6', '7', '8', '9'][d as int]
}

/// Relies on std's `Display` for `u32` through `to_string`: the decimal
/// digits, without leading zeros.
#[verifier::external_body]
pub fn u32_to_decimal(n: u32) -> (r: String)
    ensures
        r@ == decimal(n as nat),
{
    n.to_string()
}

/// Relies on std's `String::from_utf8`: it accepts exactly the valid UTF-8
/// byte strings and decodes them.
#[verifier::external_body]
pub fn utf8_string(bytes: Vec<u8>) -> (r: Option<String>)
    ensures
        r is Some <==> vstd::utf8::valid_utf8(bytes@),
        r matches Some(s) ==> s@ == vstd::utf8::decode_utf8(bytes@),
{
    String::from_utf8(bytes).ok()
}

/// Relies on zeroize: `Zeroize::zeroize` on a byte array overwrites every
/// byte with zero, in a way the compiler does not remove.
#[verifier::external_body]
pub fn wipe<const N: usize>(bytes: &mut [u8; N])
    ensures
        final(bytes)@ == Seq::new(N as nat, |i: int| 0u8),
    opens_invariants none
    no_unwind
{
    zeroize::Zeroize::zeroize(bytes)
}

} // verus!
