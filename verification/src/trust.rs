//! The trusted boundary: each function here wraps one call into an outside
//! crate (or a part of std that has no specification), and its contract is
//! what the rest of the library relies on.

use vstd::prelude::*;

verus! {

/// The SHA-256 digest of a byte sequence.
pub uninterp spec fn sha256_of(data: Seq<u8>) -> Seq<u8>;

/// Relies on sha2's `Sha256::digest`: a 32-byte digest determined by the
/// input bytes alone.
#[verifier::external_body]
pub(crate) fn sha256(data: &Vec<u8>) -> (r: Vec<u8>)
    ensures
        r@ == sha256_of(data@),
        r@.len() == 32,
{
    let digest = <sha2::Sha256 as sha2::Digest>::digest(data.as_slice());
    digest.to_vec()
}

/// The standard base64 encoding of a byte sequence.
pub uninterp spec fn b64_of(data: Seq<u8>) -> Seq<char>;

/// The standard base64 decoding of a character sequence, when it decodes.
pub uninterp spec fn b64_decode_of(s: Seq<char>) -> Option<Seq<u8>>;

/// Relies on base64's standard engine `encode`: output over the standard
/// alphabet (and `=` padding), so never a `:`; decoding it gives back the
/// input bytes.
#[verifier::external_body]
pub(crate) fn b64_encode(data: &Vec<u8>) -> (r: String)
    ensures
        r@ == b64_of(data@),
        b64_decode_of(r@) == Some(data@),
        forall|i: int| 0 <= i < r@.len() ==> r@[i] != ':',
{
    base64::Engine::encode(&base64::engine::general_purpose::STANDARD, data.as_slice())
}

/// Relies on base64's standard engine `decode`: deterministic in its input,
/// `Ok` exactly when the input is well-formed base64.
#[verifier::external_body]
pub(crate) fn b64_decode(s: &str) -> (r: Option<Vec<u8>>)
    ensures
        match r {
            Some(v) => b64_decode_of(s@) == Some(v@),
            None => b64_decode_of(s@) is None,
        },
{
    match base64::Engine::decode(&base64::engine::general_purpose::STANDARD, s) {
        Ok(v) => Some(v),
        Err(_) => None,
    }
}

/// AES-256-GCM encryption of `plain` under `key` and `nonce`.
pub uninterp spec fn aes_seal(key: Seq<u8>, nonce: Seq<u8>, plain: Seq<u8>) -> Seq<u8>;

/// AES-256-GCM decryption, when the ciphertext authenticates.
pub uninterp spec fn aes_open(key: Seq<u8>, nonce: Seq<u8>, cipher: Seq<u8>) -> Option<Seq<u8>>;

/// The longest plaintext AES-256-GCM seals: two to the thirty-sixth
/// bytes, less one block.
pub const AES_GCM_MAX_PLAINTEXT: u64 = 68719476704;

/// Relies on aes_gcm's `Aes256Gcm` `encrypt`: deterministic in key, nonce
/// and plaintext; decrypting the result under the same key and nonce gives
/// back the plaintext (the correctness property of authenticated
/// encryption).  With no associated data the one failure is a plaintext
/// beyond the algorithm's length bound.
#[verifier::external_body]
pub(crate) fn aes256_gcm_encrypt(key: &Vec<u8>, nonce: &Vec<u8>, plain: &Vec<u8>) -> (r: Option<
    Vec<u8>,
>)
    requires
        key@.len() == 32,
        nonce@.len() == 12,
    ensures
        match r {
            Some(c) => c@ == aes_seal(key@, nonce@, plain@) && aes_open(key@, nonce@, c@)
                == Some(plain@),
            None => plain@.len() > AES_GCM_MAX_PLAINTEXT,
        },
{
    let key_arr = aes_gcm::Key::<aes_gcm::Aes256Gcm>::try_from(key.as_slice()).ok()?;
    let nonce_arr = aes_gcm::Nonce::<aes_gcm::aead::consts::U12>::try_from(nonce.as_slice()).ok()?;
    let cipher = <aes_gcm::Aes256Gcm as aes_gcm::KeyInit>::new(&key_arr);
    aes_gcm::aead::Aead::encrypt(&cipher, &nonce_arr, plain.as_slice()).ok()
}

/// Relies on aes_gcm's `Aes256Gcm` `decrypt`: deterministic in key, nonce
/// and ciphertext; fails on an inauthentic ciphertext.
#[verifier::external_body]
pub(crate) fn aes256_gcm_decrypt(key: &Vec<u8>, nonce: &Vec<u8>, cipher: &Vec<u8>) -> (r: Option<
    Vec<u8>,
>)
    requires
        key@.len() == 32,
        nonce@.len() == 12,
    ensures
        match r {
            Some(p) => aes_open(key@, nonce@, cipher@) == Some(p@),
            None => aes_open(key@, nonce@, cipher@) is None,
        },
{
    let key_arr = aes_gcm::Key::<aes_gcm::Aes256Gcm>::try_from(key.as_slice()).ok()?;
    let nonce_arr = aes_gcm::Nonce::<aes_gcm::aead::consts::U12>::try_from(nonce.as_slice()).ok()?;
    let cipher_ctx = <aes_gcm::Aes256Gcm as aes_gcm::KeyInit>::new(&key_arr);
    aes_gcm::aead::Aead::decrypt(&cipher_ctx, &nonce_arr, cipher.as_slice()).ok()
}

/// Relies on rand's `fill`: fills the buffer with random bytes; nothing is
/// promised of the values.
#[verifier::external_body]
pub(crate) fn random_nonce12() -> (r: Vec<u8>)
    ensures
        r@.len() == 12,
{
    let mut buf = [0u8; 12];
    rand::fill(&mut buf[..]);
    buf.to_vec()
}

/// True when `c` is an ASCII letter or digit.
pub open spec fn is_alnum_char(c: char) -> bool {
    ('a' <= c && c <= 'z') || ('A' <= c && c <= 'Z') || ('0' <= c && c <= '9')
}

/// Relies on rand's `Alphanumeric` distribution and `sample_string`: `n`
/// characters drawn from a-z, A-Z and 0-9; nothing more is promised of the
/// values.
#[verifier::external_body]
pub(crate) fn random_alphanumeric(n: usize) -> (r: String)
    ensures
        r@.len() == n,
        forall|i: int| 0 <= i < r@.len() ==> is_alnum_char(r@[i]),
{
    rand::distr::SampleString::sample_string(&rand::distr::Alphanumeric, &mut rand::rng(), n)
}

/// Relies on std's `String: FromIterator<char>`: collects exactly the given
/// characters into a string.
#[verifier::external_body]
pub(crate) fn chars_to_string(v: &Vec<char>) -> (r: String)
    ensures
        r@ == v@,
{
    v.iter().collect()
}

/// Relies on std's `String::from_utf8`: succeeds exactly on valid UTF-8 and
/// returns the string whose encoding is the input.
#[verifier::external_body]
pub(crate) fn bytes_to_string(v: &Vec<u8>) -> (r: Option<String>)
    ensures
        match r {
            Some(s) => vstd::utf8::encode_utf8(s@) == v@,
            None => !vstd::utf8::valid_utf8(v@),
        },
{
    match String::from_utf8(v.clone()) {
        Ok(s) => Some(s),
        Err(_) => None,
    }
}

} // verus!
