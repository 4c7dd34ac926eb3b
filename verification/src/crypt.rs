//! Secret protection: AES-256-CBC under a repeated-to-length key, a random
//! initialisation vector prepended, the whole base64-encoded without
//! padding.
//!
//! The cipher, the encoding and the random bytes come from outside crates;
//! each call stands behind a trusted item whose contract names its result.
//! Everything around the calls — key stretching, payload layout, error
//! mapping — is verified, and decryption is pinned to [`spec_decrypt`].

use vstd::prelude::*;

use base64::Engine;
use vstd::arithmetic::div_mod::{
    lemma_add_mod_noop, lemma_mod_self_0, lemma_mod_twice, lemma_small_mod,
};

use crate::error::CryptError;

verus! {

/// Byte length of an AES-256 key.
pub const KEY_LEN: usize = 32;

/// Byte length of an AES-CBC initialisation vector.
pub const IV_LEN: usize = 16;

/// Largest accepted stretch length: keeps the doubling buffer far from
/// address-space limits.
pub const MAX_KEY_STRETCH: usize = 0x1000_0000;

/// Most characters a text handed to the cipher may have: UTF-8 spends at
/// most four bytes per character, so this keeps every buffer far below the
/// 32-bit signed limit the cipher bindings enforce.
pub const MAX_CIPHER_TEXT_LEN: usize = 0x0400_0000;

/// Most bytes a binary input handed to the cipher may have, for the same
/// 32-bit limit.
pub const CIPHER_INPUT_LIMIT: usize = 0x4000_0000;

/// What base64 (standard alphabet, no padding) encodes `data` to.
pub uninterp spec fn b64_encoding(data: Seq<u8>) -> Seq<char>;

/// What base64 (standard alphabet, no padding) decodes `text` to, if it is
/// valid.
pub uninterp spec fn b64_decoding(text: Seq<char>) -> Option<Seq<u8>>;

/// The AES-256-CBC ciphertext for a key (given as text, hashed to bytes by
/// UTF-8), an initialisation vector and a plaintext.
pub uninterp spec fn aes_encryption(key: Seq<char>, iv: Seq<u8>, plain: Seq<char>) -> Seq<u8>;

/// The AES-256-CBC decryption of `data`, if the padding checks out.
pub uninterp spec fn aes_decryption(key: Seq<char>, iv: Seq<u8>, data: Seq<u8>) -> Option<Seq<u8>>;

/// The text `data` holds, if it is valid UTF-8.
pub uninterp spec fn utf8_decoding(data: Seq<u8>) -> Option<Seq<char>>;

/// Relies on base64's `Engine::encode` with `STANDARD_NO_PAD`: the encoding
/// is a function of the bytes alone, and `Engine::decode` inverts it.
#[verifier::external_body]
fn b64_encode(data: &Vec<u8>) -> (r: String)
    ensures
        r@ == b64_encoding(data@),
        b64_decoding(r@) == Some(data@),
{
    base64::engine::general_purpose::STANDARD_NO_PAD.encode(data)
}

/// The declared shape of base64's decode error.
#[verifier::external_type_specification]
#[verifier::external_body]
pub struct ExDecodeError(base64::DecodeError);

/// Relies on base64's `Engine::decode` with `STANDARD_NO_PAD`: it returns
/// the decoded bytes exactly when the input is valid base64.
#[verifier::external_body]
fn b64_decode(text: &str) -> (r: Result<Vec<u8>, base64::DecodeError>)
    ensures
        match r {
            Ok(d) => b64_decoding(text@) == Some(d@),
            Err(_) => b64_decoding(text@) is None,
        },
{
    base64::engine::general_purpose::STANDARD_NO_PAD.decode(text)
}

/// The declared shape of openssl's error stack.
#[verifier::external_type_specification]
#[verifier::external_body]
pub struct ExErrorStack(openssl::error::ErrorStack);

/// Relies on openssl's `symm::encrypt` with AES-256-CBC: the ciphertext is a
/// function of key, IV and plaintext at most one padding block longer than
/// the plaintext's UTF-8 bytes, and `symm::decrypt` with the same key
/// and IV gives those bytes back.  The length bounds keep
/// every buffer below the 32-bit signed limit on which the bindings panic
/// (UTF-8 spends at most four bytes per character); within them, bad key or
/// IV sizes come back as errors, never aborts.
#[verifier::external_body]
fn aes_encrypt(key: &str, iv: &Vec<u8>, text: &str) -> (r: Result<
    Vec<u8>,
    openssl::error::ErrorStack,
>)
    requires
        key@.len() <= MAX_CIPHER_TEXT_LEN,
        iv@.len() <= CIPHER_INPUT_LIMIT,
        text@.len() <= MAX_CIPHER_TEXT_LEN,
    ensures
        r matches Ok(ct) ==> {
            &&& ct@ == aes_encryption(key@, iv@, text@)
            &&& ct@.len() <= 4 * text@.len() + 16
            &&& aes_decryption(key@, iv@, ct@) is Some
            &&& utf8_decoding(aes_decryption(key@, iv@, ct@)->Some_0) == Some(text@)
        },
{
    openssl::symm::encrypt(
        openssl::symm::Cipher::aes_256_cbc(),
        key.as_bytes(),
        Some(iv.as_slice()),
        text.as_bytes(),
    )
}

/// Relies on openssl's `symm::decrypt` with AES-256-CBC: it returns the
/// plaintext bytes exactly when key, IV and padding check out.  The length
/// bounds keep every buffer below the 32-bit signed limit on which the
/// bindings panic (UTF-8 spends at most four bytes per character).
#[verifier::external_body]
fn aes_decrypt(key: &str, iv: &Vec<u8>, data: &Vec<u8>) -> (r: Result<
    Vec<u8>,
    openssl::error::ErrorStack,
>)
    requires
        key@.len() <= MAX_CIPHER_TEXT_LEN,
        iv@.len() <= CIPHER_INPUT_LIMIT,
        data@.len() <= CIPHER_INPUT_LIMIT,
    ensures
        r matches Ok(p) ==> aes_decryption(key@, iv@, data@) == Some(p@),
        r is Err ==> aes_decryption(key@, iv@, data@) is None,
{
    openssl::symm::decrypt(
        openssl::symm::Cipher::aes_256_cbc(),
        key.as_bytes(),
        Some(iv.as_slice()),
        data.as_slice(),
    )
}

/// The declared shape of the standard library's UTF-8 conversion error.
#[verifier::external_type_specification]
#[verifier::external_body]
pub struct ExFromUtf8Error(std::string::FromUtf8Error);

/// Relies on `String::from_utf8`: it returns the string exactly when the
/// bytes are valid UTF-8.
#[verifier::external_body]
fn bytes_to_string(data: Vec<u8>) -> (r: Result<String, std::string::FromUtf8Error>)
    ensures
        match r {
            Ok(s) => utf8_decoding(data@) == Some(s@),
            Err(_) => utf8_decoding(data@) is None,
        },
{
    String::from_utf8(data)
}

/// Relies on `rand::random`: one byte, nothing promised of its value.
#[verifier::external_body]
fn random_byte() -> u8 {
    rand::random::<u8>()
}

/// A vector of `size` bytes drawn from the thread's random generator.
pub fn generate_iv(size: usize) -> (r: Vec<u8>)
    ensures
        r@.len() == size,
{
    let mut iv: Vec<u8> = Vec::new();
    let mut i: usize = 0;
    while i < size
        invariant
            iv@.len() == i <= size,
        decreases size - i,
    {
        iv.push(random_byte());
        i = i + 1;
    }
    iv
}

/// The key text stretched to `length` characters by repetition.
pub open spec fn spec_stretched(key: Seq<char>, length: int) -> Seq<char> {
    Seq::new(length as nat, |i: int| key[i % key.len() as int])
}

/// Repeat the key until it reaches the desired length.
pub fn match_key_length(key: &str, length: usize) -> (r: String)
    requires
        key@.len() >= 1,
        length <= MAX_KEY_STRETCH,
    ensures
        r@ == spec_stretched(key@, length as int),
{
    let ghost k = key@.len() as int;
    let mut s: String = key.to_owned();
    let mut s_len: usize = key.unicode_len();
    proof {
        lemma_mod_self_0(k);
        assert forall|i: int| 0 <= i < k implies s@[i] == key@[i % k] by {
            lemma_small_mod(i as nat, k as nat);
        }
    }
    while s_len < length
        invariant
            1 <= k == key@.len(),
            s_len == s@.len(),
            s_len >= 1,
            length <= MAX_KEY_STRETCH,
            s@.len() as int % k == 0,
            forall|i: int| 0 <= i < s@.len() ==> s@[i] == key@[i % k],
        decreases 2 * length - s_len,
    {
        let t: String = s.as_str().to_owned();
        let s2: String = t.concat(s.as_str());
        proof {
            let m = s@.len() as int;
            lemma_add_mod_noop(m, m, k);
            lemma_small_mod(0nat, k as nat);
            assert((m + m) % k == ((m % k) + (m % k)) % k);
            assert((m + m) % k == 0);
            assert forall|i: int| 0 <= i < s2@.len() implies s2@[i] == key@[i % k] by {
                if i >= m {
                    assert(s2@[i] == s@[i - m]);
                    lemma_add_mod_noop(m, i - m, k);
                    lemma_mod_twice(i - m, k);
                    assert((i - m) % k == i % k);
                }
            }
        }
        s = s2;
        s_len = s_len + s_len;
    }
    let cut: &str = s.as_str().substring_char(0, length);
    let r = cut.to_owned();
    proof {
        assert(r@ =~= spec_stretched(key@, length as int));
    }
    r
}

/// The result of decrypting `text` with `key`: base64 decoding, splitting
/// off the initialisation vector, the cipher, then UTF-8 — each stage's
/// failure mapped to its error.
pub open spec fn spec_decrypt(text: Seq<char>, key: Seq<char>) -> Result<Seq<char>, CryptError> {
    match b64_decoding(text) {
        Option::None => Result::Err(CryptError::Base64Error),
        Option::Some(d) => {
            if d.len() < IV_LEN {
                Result::Err(CryptError::TruncatedInput)
            } else if d.len() > CIPHER_INPUT_LIMIT + IV_LEN {
                Result::Err(CryptError::CipherError)
            } else {
                match aes_decryption(
                    spec_stretched(key, KEY_LEN as int),
                    d.take(IV_LEN as int),
                    d.skip(IV_LEN as int),
                ) {
                    Option::None => Result::Err(CryptError::CipherError),
                    Option::Some(p) => {
                        match utf8_decoding(p) {
                            Option::None => Result::Err(CryptError::Utf8Error),
                            Option::Some(t) => Result::Ok(t),
                        }
                    },
                }
            }
        },
    }
}

/// Encrypt `text` under `key` with the given initialisation vector: the
/// payload is the base64 encoding of the vector followed by the
/// ciphertext, and it decrypts back to `text` under the same key.
pub fn encrypt_with_iv(text: &str, key: &str, iv: Vec<u8>) -> (r: Result<String, CryptError>)
    requires
        key@.len() >= 1,
        iv@.len() == IV_LEN,
        text@.len() <= MAX_CIPHER_TEXT_LEN,
    ensures
        r matches Ok(s) ==> spec_decrypt(s@, key@) == Result::<Seq<char>, CryptError>::Ok(text@),
        r matches Ok(s) ==> s@ == b64_encoding(
            iv@ + aes_encryption(spec_stretched(key@, KEY_LEN as int), iv@, text@),
        ),
{
    let stretched = match_key_length(key, KEY_LEN);
    let ct = match aes_encrypt(stretched.as_str(), &iv, text) {
        Ok(ct) => ct,
        Err(_) => {
            return Err(CryptError::CipherError);
        },
    };
    let mut payload: Vec<u8> = iv;
    let n = ct.len();
    let mut i: usize = 0;
    while i < n
        invariant
            n == ct@.len(),
            0 <= i <= n,
            payload@ == iv@ + ct@.take(i as int),
        decreases n - i,
    {
        proof {
            assert(ct@.take(i as int + 1) =~= ct@.take(i as int).push(ct@[i as int]));
        }
        payload.push(ct[i]);
        i = i + 1;
    }
    proof {
        assert(payload@ =~= iv@ + ct@);
    }
    let encoded = b64_encode(&payload);
    proof {
        assert((iv@ + ct@).take(IV_LEN as int) =~= iv@);
        assert((iv@ + ct@).skip(IV_LEN as int) =~= ct@);
    }
    Ok(encoded)
}

/// Encrypt `text` under `key` with a fresh random initialisation vector:
/// the payload is the base64 encoding of some vector of [`IV_LEN`] bytes
/// followed by the ciphertext it determines, and it decrypts back to
/// `text` under the same key.
pub fn encrypt_text(text: &str, key: &str) -> (r: Result<String, CryptError>)
    requires
        key@.len() >= 1,
        text@.len() <= MAX_CIPHER_TEXT_LEN,
    ensures
        r matches Ok(s) ==> spec_decrypt(s@, key@) == Result::<Seq<char>, CryptError>::Ok(text@),
        r matches Ok(s) ==> exists|ivs: Seq<u8>|
            ivs.len() == IV_LEN && s@ == b64_encoding(
                #[trigger] (ivs + aes_encryption(spec_stretched(key@, KEY_LEN as int), ivs, text@)),
            ),
{
    let iv = generate_iv(IV_LEN);
    let ghost ivs = iv@;
    let r = encrypt_with_iv(text, key, iv);
    proof {
        if r is Ok {
            assert(ivs.len() == IV_LEN && r->Ok_0@ == b64_encoding(
                ivs + aes_encryption(spec_stretched(key@, KEY_LEN as int), ivs, text@),
            ));
        }
    }
    r
}

/// Decrypt a payload produced by [`encrypt_text`]: exactly
/// [`spec_decrypt`].
pub fn decrypt_text(text: &str, key: &str) -> (r: Result<String, CryptError>)
    requires
        key@.len() >= 1,
    ensures
        r matches Ok(s) ==> spec_decrypt(text@, key@) == Result::<Seq<char>, CryptError>::Ok(s@),
        r matches Err(e) ==> spec_decrypt(text@, key@) == Result::<Seq<char>, CryptError>::Err(e),
{
    let decoded = match b64_decode(text) {
        Ok(d) => d,
        Err(_) => {
            return Err(CryptError::Base64Error);
        },
    };
    if decoded.len() < IV_LEN {
        return Err(CryptError::TruncatedInput);
    }
    let mut iv: Vec<u8> = Vec::new();
    let mut i: usize = 0;
    while i < IV_LEN
        invariant
            decoded@.len() >= IV_LEN,
            0 <= i <= IV_LEN,
            iv@ == decoded@.take(i as int),
        decreases IV_LEN - i,
    {
        proof {
            assert(decoded@.take(i as int + 1) =~= decoded@.take(i as int).push(
                decoded@[i as int],
            ));
        }
        iv.push(decoded[i]);
        i = i + 1;
    }
    let mut data: Vec<u8> = Vec::new();
    let n = decoded.len();
    let mut j: usize = IV_LEN;
    while j < n
        invariant
            n == decoded@.len() >= IV_LEN,
            IV_LEN <= j <= n,
            data@ == decoded@.subrange(IV_LEN as int, j as int),
        decreases n - j,
    {
        proof {
            assert(decoded@.subrange(IV_LEN as int, j as int + 1) =~= decoded@.subrange(
                IV_LEN as int,
                j as int,
            ).push(decoded@[j as int]));
        }
        data.push(decoded[j]);
        j = j + 1;
    }
    proof {
        assert(iv@ =~= decoded@.take(IV_LEN as int));
        assert(data@ =~= decoded@.skip(IV_LEN as int));
    }
    if data.len() > CIPHER_INPUT_LIMIT {
        return Err(CryptError::CipherError);
    }
    let stretched = match_key_length(key, KEY_LEN);
    let plain = match aes_decrypt(stretched.as_str(), &iv, &data) {
        Ok(p) => p,
        Err(_) => {
            return Err(CryptError::CipherError);
        },
    };
    match bytes_to_string(plain) {
        Ok(s) => Ok(s),
        Err(_) => Err(CryptError::Utf8Error),
    }
}

} // verus!
