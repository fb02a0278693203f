//! The authenticated token codec.
//!
//! A token is `base64( nonce[12] || AES-256-GCM(key, nonce, json payload) )`.
//! `encode` builds one under a fresh random nonce; `decode` authenticates a
//! token string and recovers the payload, reporting each way the input can
//! be malformed separately.

use crate::expiry::TokenPayload;
use crate::json::json_of;
use crate::json::lemma_dec_u_len;
use crate::json::lemma_esc_len;
use crate::json::parse_payload;
use crate::json::pow10;
use crate::json::serialize_payload;
use aes_gcm::aead::Aead;
use aes_gcm::aead::KeyInit;
use aes_gcm::Aes256Gcm;
use aes_gcm::Key;
use aes_gcm::Nonce;
use base64::Engine;
use rand::RngCore;
use vstd::prelude::*;
use vstd::slice::slice_subrange;
use vstd::string::StringExecFns;
use vstd::utf8::encode_utf8;
use vstd::utf8::is_ascii_chars;
use vstd::utf8::is_ascii_chars_encode_utf8;

verus! {

/// What AES-256-GCM produces for a key, nonce and plaintext: the ciphertext
/// with the 16-byte tag appended. Only sealings of plaintexts up to
/// 0x1000000 bytes are ever stated, well inside the mode's own limit.
pub uninterp spec fn seal_bytes(key: Seq<u8>, nonce: Seq<u8>, plain: Seq<u8>) -> Seq<u8>;

/// What the standard base64 alphabet with padding makes of a byte sequence.
pub uninterp spec fn b64_of(bytes: Seq<u8>) -> Seq<char>;

/// A payload small enough to seal: its serialized form stays within the
/// plaintext bound the sealing wrapper is stated for.
pub open spec fn payload_fits(e: int, s: Seq<char>) -> bool {
    json_of(e, s).len() <= 0x1000000
}

/// The token string built from a particular nonce.
pub open spec fn token_with_nonce(key: Seq<u8>, nonce: Seq<u8>, e: int, s: Seq<char>) -> Seq<
    char,
> {
    b64_of(nonce + seal_bytes(key, nonce, json_of(e, s)))
}

/// Whether `tok` is an authentic token for expiry `e` and subject `s` under
/// `key`: some 12-byte nonce yields exactly this string.
pub open spec fn is_token_for(tok: Seq<char>, key: Seq<u8>, e: int, s: Seq<char>) -> bool {
    exists|nonce: Seq<u8>| nonce.len() == 12 && tok == token_with_nonce(key, nonce, e, s)
}

/// Relies on rand::thread_rng and RngCore::fill_bytes: a thread-safe CSPRNG
/// fills the buffer. Nothing is promised of the values drawn.
#[verifier::external_body]
fn random_nonce() -> (r: Vec<u8>)
    ensures
        r@.len() == 12,
{
    let mut nonce = [0u8; 12];
    rand::thread_rng().fill_bytes(&mut nonce);
    nonce.to_vec()
}

/// Relies on aes_gcm::Aes256Gcm via aead::Aead::encrypt: sealing is a
/// function of key, nonce and plaintext alone, and succeeds whenever the
/// plaintext is within the mode's bound (2^36 bytes), far above the bound
/// required here.
#[verifier::external_body]
fn aes_seal(key: &[u8], nonce: &[u8], plain: &[u8]) -> (r: Vec<u8>)
    requires
        key@.len() == 32,
        nonce@.len() == 12,
        plain@.len() <= 0x1000000,
    ensures
        r@ == seal_bytes(key@, nonce@, plain@),
        r@.len() == plain@.len() + 16,
{
    let cipher = Aes256Gcm::new(Key::<Aes256Gcm>::from_slice(key));
    cipher.encrypt(Nonce::from_slice(nonce), plain).expect("plaintext within AES-GCM bounds")
}

/// Relies on aead::Aead::decrypt for Aes256Gcm: decryption returns the
/// unique plaintext whose sealing under (key, nonce) is exactly the input,
/// and fails when no such plaintext exists (truncation or tag mismatch).
#[verifier::external_body]
fn aes_open(key: &[u8], nonce: &[u8], ct: &[u8]) -> (r: Option<Vec<u8>>)
    requires
        key@.len() == 32,
        nonce@.len() == 12,
    ensures
        match r {
            Some(p) => ct@ == seal_bytes(key@, nonce@, p@) && (forall|p2: Seq<u8>|
                p2.len() <= 0x1000000 && #[trigger] seal_bytes(key@, nonce@, p2) == ct@ ==> p2
                    == p@),
            None => forall|p: Seq<u8>|
                p.len() <= 0x1000000 ==> ct@ != #[trigger] seal_bytes(key@, nonce@, p),
        },
{
    let cipher = Aes256Gcm::new(Key::<Aes256Gcm>::from_slice(key));
    cipher.decrypt(Nonce::from_slice(nonce), ct).ok()
}

/// Relies on base64::engine::general_purpose::STANDARD.encode: RFC 4648
/// standard alphabet with padding, a function of the input bytes alone.
#[verifier::external_body]
fn b64_encode(data: &[u8]) -> (r: String)
    requires
        data@.len() <= 0x2000000,
    ensures
        r@ == b64_of(data@),
{
    base64::engine::general_purpose::STANDARD.encode(data)
}

/// Relies on base64::engine::general_purpose::STANDARD.decode: the default
/// engine requires canonical padding and trailing bits, so it succeeds on
/// exactly the strings STANDARD.encode produces and inverts it.
#[verifier::external_body]
fn b64_decode(s: &str) -> (r: Option<Vec<u8>>)
    ensures
        match r {
            Some(d) => s@ == b64_of(d@) && (forall|d2: Seq<u8>|
                s@ == #[trigger] b64_of(d2) ==> d2 == d@),
            None => forall|d: Seq<u8>| s@ != #[trigger] b64_of(d),
        },
{
    base64::engine::general_purpose::STANDARD.decode(s).ok()
}

/// Why a payload cannot be encoded.
#[derive(Debug, PartialEq, Eq, Structural)]
pub enum EncodeError {
    KeyLength,
    Serialization,
}

/// Why a token string cannot be decoded, each cause distinguishable.
#[derive(Debug, PartialEq, Eq, Structural)]
pub enum DecodeError {
    KeyLength,
    Base64,
    Truncated,
    AuthenticationFailed,
    Deserialization,
}

/// Encode a payload under a 32-byte key: serialize, seal under a fresh
/// random nonce, and base64 the nonce-plus-ciphertext.
pub fn encode(payload: &TokenPayload, key: &[u8]) -> (r: Result<String, EncodeError>)
    ensures
        r matches Err(EncodeError::KeyLength) <==> key@.len() != 32,
        r matches Err(EncodeError::Serialization) <==> (key@.len() == 32 && !payload_fits(
            payload.exp as int,
            payload.sub@,
        )),
        r is Ok <==> (key@.len() == 32 && payload_fits(payload.exp as int, payload.sub@)),
        r matches Ok(tok) ==> is_token_for(tok@, key@, payload.exp as int, payload.sub@),
{
    if key.len() != 32 {
        return Err(EncodeError::KeyLength);
    }
    let plain: Vec<u8> = serialize_payload(payload.exp, payload.sub.as_str());
    if plain.len() > 0x1000000 {
        return Err(EncodeError::Serialization);
    }
    let mut data: Vec<u8> = random_nonce();
    let ghost nonce: Seq<u8> = data@;
    let mut ct: Vec<u8> = aes_seal(key, data.as_slice(), plain.as_slice());
    data.append(&mut ct);
    let tok: String = b64_encode(data.as_slice());
    proof {
        assert(tok@ == token_with_nonce(key@, nonce, payload.exp as int, payload.sub@));
    }
    Ok(tok)
}

/// Decode and authenticate a token string under a 32-byte key. Succeeds on
/// exactly the authentic tokens of payloads that fit, returning the payload
/// that was sealed; each kind of malformed input gets its own error.
pub fn decode(token: &str, key: &[u8]) -> (r: Result<TokenPayload, DecodeError>)
    ensures
        r matches Err(DecodeError::KeyLength) <==> key@.len() != 32,
        r matches Ok(p) ==> key@.len() == 32 && is_token_for(token@, key@, p.exp as int, p.sub@),
        forall|e: int, s: Seq<char>|
            (key@.len() == 32 && i64::MIN <= e <= i64::MAX && payload_fits(e, s)
                && #[trigger] is_token_for(token@, key@, e, s)) ==> (r matches Ok(p) && p.exp == e
                && p.sub@ == s),
        r matches Err(DecodeError::Base64) <==> (key@.len() == 32 && !(exists|d: Seq<u8>|
            token@ == #[trigger] b64_of(d))),
        r matches Err(DecodeError::Truncated) <==> (key@.len() == 32 && exists|d: Seq<u8>|
            token@ == #[trigger] b64_of(d) && d.len() < 12),
        r matches Err(DecodeError::AuthenticationFailed) ==> (key@.len() == 32 && exists|d: Seq<
            u8,
        >|
            token@ == #[trigger] b64_of(d) && d.len() >= 12 && (forall|p: Seq<u8>|
                p.len() <= 0x1000000 ==> d.skip(12) != #[trigger] seal_bytes(
                    key@,
                    d.take(12),
                    p,
                ))),
        r matches Err(DecodeError::Deserialization) ==> (key@.len() == 32 && exists|d: Seq<u8>, pl: Seq<u8>|
            token@ == b64_of(d) && d.len() >= 12 && d.skip(12) == #[trigger] seal_bytes(
                key@,
                d.take(12),
                pl,
            ) && (forall|e: int, s: Seq<char>|
                i64::MIN <= e <= i64::MAX ==> pl != #[trigger] json_of(e, s))),
{
    if key.len() != 32 {
        return Err(DecodeError::KeyLength);
    }
    let data: Vec<u8> = match b64_decode(token) {
        Some(d) => d,
        None => {
            proof {
                assert forall|e: int, s: Seq<char>|
                    (key@.len() == 32 && i64::MIN <= e <= i64::MAX && payload_fits(e, s)
                        && #[trigger] is_token_for(token@, key@, e, s)) implies false by {
                    let n = choose|n: Seq<u8>|
                        n.len() == 12 && token@ == token_with_nonce(key@, n, e, s);
                    assert(token@ == b64_of(n + seal_bytes(key@, n, json_of(e, s))));
                }
            }
            return Err(DecodeError::Base64);
        },
    };
    if data.len() < 12 {
        proof {
            assert forall|e: int, s: Seq<char>|
                (key@.len() == 32 && i64::MIN <= e <= i64::MAX && payload_fits(e, s)
                    && #[trigger] is_token_for(token@, key@, e, s)) implies false by {
                let n = choose|n: Seq<u8>|
                    n.len() == 12 && token@ == token_with_nonce(key@, n, e, s);
                assert(token@ == b64_of(n + seal_bytes(key@, n, json_of(e, s))));
                assert(data@ == n + seal_bytes(key@, n, json_of(e, s)));
            }
        }
        return Err(DecodeError::Truncated);
    }
    let nonce: &[u8] = slice_subrange(data.as_slice(), 0, 12);
    let ct: &[u8] = slice_subrange(data.as_slice(), 12, data.len());
    proof {
        assert(data@ =~= data@.take(12) + data@.skip(12));
    }
    let pl: Vec<u8> = match aes_open(key, nonce, ct) {
        Some(p) => p,
        None => {
            proof {
                assert forall|e: int, s: Seq<char>|
                    (key@.len() == 32 && i64::MIN <= e <= i64::MAX && payload_fits(e, s)
                        && #[trigger] is_token_for(token@, key@, e, s)) implies false by {
                    let n = choose|n: Seq<u8>|
                        n.len() == 12 && token@ == token_with_nonce(key@, n, e, s);
                    assert(token@ == b64_of(n + seal_bytes(key@, n, json_of(e, s))));
                    assert(data@ == n + seal_bytes(key@, n, json_of(e, s)));
                    assert(data@.take(12) =~= n);
                    assert(n == nonce@);
                    assert(data@.skip(12) =~= seal_bytes(key@, n, json_of(e, s)));
                    assert(ct@ =~= data@.skip(12));
                    assert(seal_bytes(key@, nonce@, json_of(e, s)) == ct@);
                }
                assert(token@ == b64_of(data@));
                assert forall|p: Seq<u8>| p.len() <= 0x1000000 implies data@.skip(12)
                    != #[trigger] seal_bytes(key@, data@.take(12), p) by {
                    assert(data@.take(12) =~= nonce@);
                    assert(data@.skip(12) =~= ct@);
                    assert(seal_bytes(key@, data@.take(12), p) == seal_bytes(key@, nonce@, p));
                }
            }
            return Err(DecodeError::AuthenticationFailed);
        },
    };
    match parse_payload(pl.as_slice()) {
        Some(p) => {
            proof {
                assert(token@ == b64_of(data@));
                assert(data@.take(12).len() == 12);
                assert(data@.take(12) =~= nonce@);
                assert(data@.skip(12) =~= ct@);
                assert(data@.skip(12) == seal_bytes(key@, data@.take(12), pl@));
                assert(pl@ == json_of(p.exp as int, p.sub@));
                assert(token@ == token_with_nonce(key@, data@.take(12), p.exp as int, p.sub@));
                assert forall|e: int, s: Seq<char>|
                    (key@.len() == 32 && i64::MIN <= e <= i64::MAX && payload_fits(e, s)
                        && #[trigger] is_token_for(token@, key@, e, s)) implies p.exp == e
                    && p.sub@ == s by {
                    let n = choose|n: Seq<u8>|
                        n.len() == 12 && token@ == token_with_nonce(key@, n, e, s);
                    assert(token@ == b64_of(n + seal_bytes(key@, n, json_of(e, s))));
                    assert(data@ == n + seal_bytes(key@, n, json_of(e, s)));
                    assert(data@.take(12) =~= n);
                    assert(n == nonce@);
                    assert(data@.skip(12) =~= seal_bytes(key@, n, json_of(e, s)));
                    assert(ct@ =~= data@.skip(12));
                    assert(seal_bytes(key@, nonce@, json_of(e, s)) == ct@);
                    assert(pl@ == json_of(e, s));
                }
            }
            Ok(p)
        },
        None => {
            proof {
                assert forall|e: int, s: Seq<char>|
                    (key@.len() == 32 && i64::MIN <= e <= i64::MAX && payload_fits(e, s)
                        && #[trigger] is_token_for(token@, key@, e, s)) implies false by {
                    let n = choose|n: Seq<u8>|
                        n.len() == 12 && token@ == token_with_nonce(key@, n, e, s);
                    assert(token@ == b64_of(n + seal_bytes(key@, n, json_of(e, s))));
                    assert(data@ == n + seal_bytes(key@, n, json_of(e, s)));
                    assert(data@.take(12) =~= n);
                    assert(n == nonce@);
                    assert(data@.skip(12) =~= seal_bytes(key@, n, json_of(e, s)));
                    assert(ct@ =~= data@.skip(12));
                    assert(seal_bytes(key@, nonce@, json_of(e, s)) == ct@);
                    assert(pl@ == json_of(e, s));
                }
            }
            Err(DecodeError::Deserialization)
        },
    }
}

/// Decode a token, collapsing every failure into `None`.
pub fn decrypt_token(encrypted_token: &str, secret_key: &[u8; 32]) -> (r: Option<TokenPayload>)
    ensures
        r matches Some(p) ==> is_token_for(encrypted_token@, secret_key@, p.exp as int, p.sub@),
        forall|e: int, s: Seq<char>|
            (i64::MIN <= e <= i64::MAX && payload_fits(e, s) && #[trigger] is_token_for(
                encrypted_token@,
                secret_key@,
                e,
                s,
            )) ==> (r matches Some(p) && p.exp == e && p.sub@ == s),
{
    match decode(encrypted_token, secret_key.as_slice()) {
        Ok(p) => Some(p),
        Err(_) => None,
    }
}

/// Relies on chrono::Utc::now and DateTime::timestamp: the current time in
/// seconds since the epoch. Every chrono DateTime lies within years
/// -262143..=262142, so any timestamp it yields lies well within 8.4e12 of
/// the epoch; nothing else is promised of the clock.
#[verifier::external_body]
pub(crate) fn now_timestamp() -> (r: i64)
    ensures
        -8_400_000_000_000 < r < 8_400_000_000_000,
{
    chrono::Utc::now().timestamp()
}

/// Issue a token for the fixed issuer subject, expiring `days_valid` days
/// from now, sealed under the 32-byte secret key.
pub fn generate_token(secret_key: &[u8; 32], days_valid: i64) -> (r: String)
    requires
        -100_000_000 <= days_valid <= 100_000_000,
    ensures
        exists|now: int|
            -8_400_000_000_000 < now < 8_400_000_000_000 && #[trigger] is_token_for(
                r@,
                secret_key@,
                now + days_valid * 86400,
                "collector-v1"@,
            ),
{
    let now: i64 = now_timestamp();
    let exp: i64 = now + days_valid * 86400;
    let sub: String = String::from_str("collector-v1");
    proof {
        reveal_strlit("collector-v1");
        assert(sub@.len() == 12);
        assert(is_ascii_chars(sub@));
        is_ascii_chars_encode_utf8(sub@);
        assert(encode_utf8(sub@).len() == 12);
        lemma_esc_len(encode_utf8(sub@));
        let mag: nat = (if exp < 0 { -(exp as int) } else { exp as int }) as nat;
        assert(pow10(19) == 10_000_000_000_000_000_000) by {
            reveal_with_fuel(pow10, 21);
        }
        assert(mag < pow10(19));
        lemma_dec_u_len(mag, 19);
        assert(crate::json::dec_of(exp as int).len() <= 20);
        assert(payload_fits(exp as int, sub@));
    }
    let payload = TokenPayload { exp, sub };
    match encode(&payload, secret_key.as_slice()) {
        Ok(t) => {
            proof {
                assert(is_token_for(
                    t@,
                    secret_key@,
                    now as int + days_valid as int * 86400,
                    "collector-v1"@,
                ));
            }
            t
        },
        Err(_) => {
            proof {
                assert(false);
            }
            String::new()
        },
    }
}

/// Round trip: any payload that fits, encoded under a 32-byte key, decodes
/// back to exactly the same payload.
pub fn encode_then_decode(payload: &TokenPayload, key: &[u8]) -> (r: Option<TokenPayload>)
    requires
        key@.len() == 32,
        payload_fits(payload.exp as int, payload.sub@),
    ensures
        r matches Some(p) && p.exp == payload.exp && p.sub@ == payload.sub@,
{
    match encode(payload, key) {
        Ok(tok) => match decode(tok.as_str(), key) {
            Ok(p) => Some(p),
            Err(_) => {
                proof {
                    assert(false);
                }
                None
            },
        },
        Err(_) => {
            proof {
                assert(false);
            }
            None
        },
    }
}

} // verus!
