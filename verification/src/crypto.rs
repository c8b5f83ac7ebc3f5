//! Password sealing for the locally persisted connection settings.
//!
//! A password is encrypted under a key derived from a machine identifier,
//! with a fresh random nonce each time, and stored as
//! `base64(nonce):base64(ciphertext)`.  Decryption reverses the format
//! exactly, so a value sealed on this machine opens to the original
//! password.

use vstd::prelude::*;
use crate::strutil::{find_char, first_char_from, substring};
use crate::trust::{
    aes256_gcm_decrypt, aes256_gcm_encrypt, aes_open, aes_seal, b64_decode, b64_decode_of,
    b64_encode, b64_of, bytes_to_string, random_nonce12, sha256, sha256_of,
};

verus! {

/// Failures of sealing or opening a stored secret.
#[derive(Clone, Copy, Debug, PartialEq, Eq, Structural)]
pub enum CryptoError {
    /// The cipher refused to seal the value.
    Encrypt,
    /// The stored value is not of the `nonce:ciphertext` shape.
    Format,
    /// A base64 part of the stored value does not decode.
    Decode,
    /// The ciphertext does not authenticate under this machine's key.
    Decrypt,
    /// The opened bytes are not text.
    Utf8,
}

/// The key this machine seals secrets under: the digest of its identifier.
pub open spec fn device_key(device_id: Seq<char>) -> Seq<u8> {
    sha256_of(vstd::utf8::encode_utf8(device_id))
}

/// The stored shape of a sealed secret.
pub open spec fn sealed_form(key: Seq<u8>, nonce: Seq<u8>, plain: Seq<u8>) -> Seq<char> {
    b64_of(nonce) + ":"@ + b64_of(aes_seal(key, nonce, plain))
}

/// What opening a stored value under `key` yields: split at the first
/// colon, decode both parts, and open the ciphertext.
pub open spec fn open_spec(key: Seq<u8>, s: Seq<char>) -> Option<Seq<u8>> {
    let j = first_char_from(s, ':', 0);
    if j == s.len() {
        None
    } else {
        match b64_decode_of(s.take(j)) {
            Option::None => None,
            Option::Some(nonce) => {
                if nonce.len() != 12 {
                    None
                } else {
                    match b64_decode_of(s.skip(j + 1)) {
                        Option::None => None,
                        Option::Some(cipher) => aes_open(key, nonce, cipher),
                    }
                }
            },
        }
    }
}

/// Seal `plain_data` under this machine's key with a fresh random nonce.
/// The result opens back to exactly the sealed text; any text within the
/// cipher's length bound seals.
pub fn encrypt_string(plain_data: &str, device_id: &str) -> (r: Result<String, CryptoError>)
    ensures
        match r {
            Ok(s) => open_spec(device_key(device_id@), s@) == Some(
                vstd::utf8::encode_utf8(plain_data@),
            ),
            Err(e) => e == CryptoError::Encrypt && vstd::utf8::encode_utf8(plain_data@).len()
                > crate::trust::AES_GCM_MAX_PLAINTEXT,
        },
{
    let dev_bytes = device_id.as_bytes_vec();
    let key = sha256(&dev_bytes);
    let nonce = random_nonce12();
    let plain = plain_data.as_bytes_vec();
    let cipher = match aes256_gcm_encrypt(&key, &nonce, &plain) {
        Some(c) => c,
        None => {
            return Err(CryptoError::Encrypt);
        },
    };
    let nonce_b64 = b64_encode(&nonce);
    let cipher_b64 = b64_encode(&cipher);
    let out = crate::strutil::concat3(nonce_b64.as_str(), ":", cipher_b64.as_str());
    proof {
        reveal_strlit(":");
        let s = out@;
        let j = nonce_b64@.len() as int;
        assert(s[j] == ':');
        assert(forall|l: int| 0 <= l < j ==> s[l] != ':');
        crate::strutil::lemma_first_char_concat(s, ':', j);
        assert(s.take(j) =~= nonce_b64@);
        assert(s.skip(j + 1) =~= cipher_b64@);
    }
    Ok(out)
}

/// Open a stored `nonce:ciphertext` value under this machine's key and
/// decode the result as text.
pub fn decrypt_string(encoded_data: &str, device_id: &str) -> (r: Result<String, CryptoError>)
    ensures
        match r {
            Ok(t) => open_spec(device_key(device_id@), encoded_data@) == Some(
                vstd::utf8::encode_utf8(t@),
            ),
            Err(_) => {
                ||| open_spec(device_key(device_id@), encoded_data@) is None
                ||| !vstd::utf8::valid_utf8(
                    open_spec(device_key(device_id@), encoded_data@)->Some_0,
                )
            },
        },
{
    let dev_bytes = device_id.as_bytes_vec();
    let key = sha256(&dev_bytes);
    let n = encoded_data.unicode_len();
    let j = find_char(encoded_data, ':', 0);
    if j == n {
        return Err(CryptoError::Format);
    }
    let nonce_part = substring(encoded_data, 0, j);
    let cipher_part = substring(encoded_data, j + 1, n);
    proof {
        assert(encoded_data@.subrange(0, j as int) =~= encoded_data@.take(j as int));
        assert(encoded_data@.subrange(j + 1, n as int) =~= encoded_data@.skip(j + 1));
    }
    let nonce = match b64_decode(nonce_part.as_str()) {
        Some(v) => v,
        None => {
            return Err(CryptoError::Decode);
        },
    };
    if nonce.len() != 12 {
        return Err(CryptoError::Format);
    }
    let cipher = match b64_decode(cipher_part.as_str()) {
        Some(v) => v,
        None => {
            return Err(CryptoError::Decode);
        },
    };
    let plain = match aes256_gcm_decrypt(&key, &nonce, &cipher) {
        Some(p) => p,
        None => {
            return Err(CryptoError::Decrypt);
        },
    };
    match bytes_to_string(&plain) {
        Some(t) => Ok(t),
        None => Err(CryptoError::Utf8),
    }
}

/// A freshly sealed value opens back to the original text: sealing and
/// opening on one machine round-trip, and are owed to succeed for any
/// text within the cipher's length bound.
pub fn seal_round_trip(plain_data: &str, device_id: &str) -> (r: Result<String, CryptoError>)
    ensures
        r matches Ok(t) ==> t@ == plain_data@,
        vstd::utf8::encode_utf8(plain_data@).len() <= crate::trust::AES_GCM_MAX_PLAINTEXT ==> r
            is Ok,
{
    let sealed = match encrypt_string(plain_data, device_id) {
        Ok(s) => s,
        Err(e) => {
            return Err(e);
        },
    };
    let opened = decrypt_string(sealed.as_str(), device_id);
    match opened {
        Ok(t) => {
            proof {
                vstd::utf8::encode_utf8_decode_utf8(t@);
                vstd::utf8::encode_utf8_decode_utf8(plain_data@);
            }
            Ok(t)
        },
        Err(e) => {
            proof {
                // a freshly sealed value always opens and decodes
                vstd::utf8::encode_utf8_valid_utf8(plain_data@);
            }
            Err(e)
        },
    }
}

} // verus!
