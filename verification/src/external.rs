//! Calls into outside crates and into the environment (clock, randomness).
//! Each item here is trusted: Verus takes its contract without proof.

use vstd::prelude::*;
use base64::Engine;

verus! {

/// What `bech32::primitives::decode::CheckedHrpstring::new::<bech32::Bech32m>`
/// makes of a string: on success the human-readable part (as `Hrp::as_str`
/// gives it) and the data bytes (as `byte_iter` yields them), on failure the
/// text of the error.
pub uninterp spec fn spec_bech32m_decode(s: Seq<char>) -> Result<(Seq<char>, Seq<u8>), Seq<char>>;

/// Decodes a bech32m string.
///
/// Trusted: calls `CheckedHrpstring::new::<Bech32m>` (bech32 0.11), which
/// checks the characters, the separator and the bech32m checksum; the result
/// is claimed to be the named value `spec_bech32m_decode` of the input.
#[verifier::external_body]
pub(crate) fn bech32m_decode(s: &str) -> (res: Result<(String, Vec<u8>), String>)
    ensures
        match res {
            Ok((hrp, bytes)) => spec_bech32m_decode(s@) == Ok::<(Seq<char>, Seq<u8>), Seq<char>>((hrp@, bytes@)),
            Err(msg) => spec_bech32m_decode(s@) == Err::<(Seq<char>, Seq<u8>), Seq<char>>(msg@),
        },
{
    match bech32::primitives::decode::CheckedHrpstring::new::<bech32::Bech32m>(s) {
        Ok(checked) => Ok((checked.hrp().as_str().to_string(), checked.byte_iter().collect())),
        Err(e) => Err(e.to_string()),
    }
}

/// What the base64 engine `URL_SAFE_NO_PAD` decodes a string to, if anything.
pub uninterp spec fn spec_base64_url_safe_no_pad(s: Seq<char>) -> Option<Seq<u8>>;

/// What the base64 engine `URL_SAFE` decodes a string to, if anything.
pub uninterp spec fn spec_base64_url_safe(s: Seq<char>) -> Option<Seq<u8>>;

/// What the base64 engine `STANDARD` decodes a string to, if anything.
pub uninterp spec fn spec_base64_standard(s: Seq<char>) -> Option<Seq<u8>>;

/// What a base64 engine with the standard alphabet and the `NO_PAD`
/// configuration decodes a string to, if anything.
pub uninterp spec fn spec_base64_standard_no_pad(s: Seq<char>) -> Option<Seq<u8>>;

/// Base64 decoding with the URL-safe alphabet, padding not allowed.
///
/// Trusted: calls `base64::engine::general_purpose::URL_SAFE_NO_PAD.decode`;
/// `None` stands for its error.
#[verifier::external_body]
pub(crate) fn base64_url_safe_no_pad(s: &str) -> (res: Option<Vec<u8>>)
    ensures
        match res {
            Some(b) => spec_base64_url_safe_no_pad(s@) == Some(b@),
            None => spec_base64_url_safe_no_pad(s@) is None,
        },
{
    base64::engine::general_purpose::URL_SAFE_NO_PAD.decode(s).ok()
}

/// Base64 decoding with the URL-safe alphabet and the `PAD` configuration.
///
/// Trusted: calls `base64::engine::general_purpose::URL_SAFE.decode`;
/// `None` stands for its error.
#[verifier::external_body]
pub(crate) fn base64_url_safe(s: &str) -> (res: Option<Vec<u8>>)
    ensures
        match res {
            Some(b) => spec_base64_url_safe(s@) == Some(b@),
            None => spec_base64_url_safe(s@) is None,
        },
{
    base64::engine::general_purpose::URL_SAFE.decode(s).ok()
}

/// Base64 decoding with the standard alphabet and the `PAD` configuration.
///
/// Trusted: calls `base64::engine::general_purpose::STANDARD.decode`;
/// `None` stands for its error.
#[verifier::external_body]
pub(crate) fn base64_standard(s: &str) -> (res: Option<Vec<u8>>)
    ensures
        match res {
            Some(b) => spec_base64_standard(s@) == Some(b@),
            None => spec_base64_standard(s@) is None,
        },
{
    base64::engine::general_purpose::STANDARD.decode(s).ok()
}

/// Base64 decoding with the standard alphabet, padding not allowed.
///
/// Trusted: builds `GeneralPurpose::new(&alphabet::STANDARD, NO_PAD)` and calls
/// its `decode`; `None` stands for its error.
#[verifier::external_body]
pub(crate) fn base64_standard_no_pad(s: &str) -> (res: Option<Vec<u8>>)
    ensures
        match res {
            Some(b) => spec_base64_standard_no_pad(s@) == Some(b@),
            None => spec_base64_standard_no_pad(s@) is None,
        },
{
    base64::engine::GeneralPurpose::new(
        &base64::alphabet::STANDARD,
        base64::engine::general_purpose::NO_PAD,
    ).decode(s).ok()
}

/// What k256 derives from a secret key given as bytes: on success the SEC1
/// encoding of the matching public key, on failure the text of the error.
pub uninterp spec fn spec_secp256k1_public_key(secret: Seq<u8>) -> Result<Seq<u8>, Seq<char>>;

/// Derives the secp256k1 public key of a secret key.
///
/// Trusted: calls `k256::ecdsa::SigningKey::from_slice`, then
/// `verifying_key().to_sec1_bytes()`; the result is claimed to be the named
/// value `spec_secp256k1_public_key` of the bytes.
#[verifier::external_body]
pub(crate) fn secp256k1_public_key(secret: &[u8]) -> (res: Result<Vec<u8>, String>)
    ensures
        match res {
            Ok(pk) => spec_secp256k1_public_key(secret@) == Ok::<Seq<u8>, Seq<char>>(pk@),
            Err(msg) => spec_secp256k1_public_key(secret@) == Err::<Seq<u8>, Seq<char>>(msg@),
        },
{
    match k256::ecdsa::SigningKey::from_slice(secret) {
        Ok(key) => Ok(key.verifying_key().to_sec1_bytes().to_vec()),
        Err(e) => Err(e.to_string()),
    }
}

/// The lowercase hexadecimal digit for a value in `0..16`.
pub open spec fn hex_digit(v: u8) -> char {
    if v < 10 {
        ((48 + v) as u8) as char
    } else {
        ((87 + v) as u8) as char
    }
}

/// Lowercase hexadecimal encoding: two digits per byte, high nibble first.
pub open spec fn spec_hex_lower(bytes: Seq<u8>) -> Seq<char>
    decreases bytes.len(),
{
    if bytes.len() == 0 {
        Seq::empty()
    } else {
        spec_hex_lower(bytes.drop_last()) + seq![hex_digit(bytes.last() / 16), hex_digit(bytes.last() % 16)]
    }
}

/// Hex-encodes bytes.
///
/// Trusted: calls `hex::encode`, which writes each byte as two lowercase
/// hexadecimal digits, high nibble first.
#[verifier::external_body]
pub(crate) fn hex_encode(bytes: &[u8]) -> (res: String)
    ensures
        res@ == spec_hex_lower(bytes@),
{
    hex::encode(bytes)
}

/// The current time in whole seconds since the Unix epoch.
///
/// Trusted: calls `chrono::Utc::now().timestamp()`; nothing is claimed of
/// the value, which depends on the clock.
#[verifier::external_body]
pub(crate) fn current_unix_time() -> i64 {
    chrono::Utc::now().timestamp()
}

/// A fresh random identifier.
///
/// Trusted: calls `uuid::Uuid::new_v4().as_u128()`; nothing is claimed of
/// the value, which is random.
#[verifier::external_body]
pub(crate) fn random_id() -> u128 {
    uuid::Uuid::new_v4().as_u128()
}

} // verus!
