use license_token::codec::{decode, decrypt_token, encode, encode_then_decode, DecodeError, EncodeError};
use license_token::expiry::ExpiryStatus;
use license_token::json::{parse_payload, serialize_payload};
use license_token::state::{find_token_in_config, validate_key, AppState};
use license_token::TokenPayload;

use aes_gcm::aead::{Aead, KeyInit};
use aes_gcm::{Aes256Gcm, Key, Nonce};
use base64::engine::general_purpose::STANDARD;
use base64::Engine;

const KEY: &[u8] = b"01234567890123456789012345678901";

fn key32() -> [u8; 32] {
    let mut k = [0u8; 32];
    k.copy_from_slice(KEY);
    k
}

fn payload(exp: i64, sub: &str) -> TokenPayload {
    TokenPayload {
        exp,
        sub: sub.to_string(),
    }
}

#[test]
fn round_trip_recovers_payload() {
    let p = payload(1234567890, "collector-v1");
    let tok = encode(&p, KEY).unwrap();
    let back = decode(&tok, KEY).unwrap();
    assert_eq!(back.exp, 1234567890);
    assert_eq!(back.sub, "collector-v1");
}

#[test]
fn round_trip_checked_in_library() {
    let p = payload(-42, "x");
    let back = encode_then_decode(&p, KEY).unwrap();
    assert_eq!(back.exp, -42);
    assert_eq!(back.sub, "x");
}

#[test]
fn round_trip_extreme_expiries() {
    for exp in [i64::MIN, i64::MAX, 0, -1, 1] {
        let p = payload(exp, "s");
        let tok = encode(&p, KEY).unwrap();
        let back = decode(&tok, KEY).unwrap();
        assert_eq!(back.exp, exp);
        assert_eq!(back.sub, "s");
    }
}

#[test]
fn round_trip_awkward_subjects() {
    for sub in ["", "with \"quotes\"", "back\\slash", "new\nline\ttab", "uni\u{00e9}\u{4e16}"] {
        let p = payload(7, sub);
        let tok = encode(&p, KEY).unwrap();
        let back = decode(&tok, KEY).unwrap();
        assert_eq!(back.sub, sub);
    }
}

#[test]
fn tampering_any_byte_is_detected() {
    let p = payload(1700000000, "collector-v1");
    let tok = encode(&p, KEY).unwrap();
    let raw = STANDARD.decode(&tok).unwrap();
    for i in 0..raw.len() {
        for bit in [0x01u8, 0x80u8] {
            let mut bad = raw.clone();
            bad[i] ^= bit;
            let bad_tok = STANDARD.encode(&bad);
            let r = decode(&bad_tok, KEY);
            assert!(
                matches!(r, Err(DecodeError::AuthenticationFailed)),
                "flip at byte {i} was not caught"
            );
        }
    }
}

#[test]
fn two_encodings_differ_but_agree() {
    let p = payload(1700000000, "collector-v1");
    let a = encode(&p, KEY).unwrap();
    let b = encode(&p, KEY).unwrap();
    assert_ne!(a, b, "nonce must be fresh per call");
    let pa = decode(&a, KEY).unwrap();
    let pb = decode(&b, KEY).unwrap();
    assert_eq!(pa.exp, pb.exp);
    assert_eq!(pa.sub, pb.sub);
}

#[test]
fn key_length_is_enforced() {
    let p = payload(1, "s");
    assert_eq!(encode(&p, b"short"), Err(EncodeError::KeyLength));
    assert_eq!(
        encode(&p, b"012345678901234567890123456789012"),
        Err(EncodeError::KeyLength)
    );
    let tok = encode(&p, KEY).unwrap();
    assert!(matches!(decode(&tok, b"short"), Err(DecodeError::KeyLength)));
    assert!(matches!(decode(&tok, &[]), Err(DecodeError::KeyLength)));
}

#[test]
fn expiry_boundary_is_strict() {
    let t = 1700000000;
    let p = payload(t, "s");
    assert_eq!(p.evaluate(t), ExpiryStatus::Expired);
    assert_eq!(p.evaluate(t - 1), ExpiryStatus::Valid);
    assert_eq!(p.evaluate(t + 1), ExpiryStatus::Expired);
}

#[test]
fn end_to_end_scenario() {
    let now = 1700000000i64;
    let p = payload(now + 86400 * 30, "collector-v1");
    let tok = encode(&p, KEY).unwrap();
    let back = decode(&tok, KEY).unwrap();
    assert_eq!(back.exp, now + 86400 * 30);
    assert_eq!(back.sub, "collector-v1");
    assert_eq!(back.evaluate(now), ExpiryStatus::Valid);
    assert_eq!(back.evaluate(now + 86400 * 31), ExpiryStatus::Expired);
}

#[test]
fn short_decoded_bytes_are_truncated_error() {
    let tok = STANDARD.encode(b"hello");
    assert!(matches!(decode(&tok, KEY), Err(DecodeError::Truncated)));
    let empty = STANDARD.encode(b"");
    assert!(matches!(decode(&empty, KEY), Err(DecodeError::Truncated)));
}

#[test]
fn malformed_base64_is_its_own_error() {
    assert!(matches!(decode("!!!not base64!!!", KEY), Err(DecodeError::Base64)));
    // non-canonical padding is rejected too
    assert!(matches!(decode("QQ", KEY), Err(DecodeError::Base64)));
}

#[test]
fn garbage_of_token_length_fails_authentication() {
    let tok = STANDARD.encode([7u8; 48]);
    assert!(matches!(decode(&tok, KEY), Err(DecodeError::AuthenticationFailed)));
}

#[test]
fn authentic_but_not_a_payload_is_deserialization_error() {
    let cipher = Aes256Gcm::new(Key::<Aes256Gcm>::from_slice(KEY));
    let nonce = [9u8; 12];
    let ct = cipher
        .encrypt(Nonce::from_slice(&nonce), b"not a payload".as_ref())
        .unwrap();
    let mut data = nonce.to_vec();
    data.extend_from_slice(&ct);
    let tok = STANDARD.encode(&data);
    assert!(matches!(decode(&tok, KEY), Err(DecodeError::Deserialization)));
}

#[test]
fn serializer_matches_the_documented_format() {
    let bytes = serialize_payload(123, "abc");
    assert_eq!(bytes, b"{\"exp\":123,\"sub\":\"abc\"}");
    let bytes = serialize_payload(-5, "");
    assert_eq!(bytes, b"{\"exp\":-5,\"sub\":\"\"}");
    let bytes = serialize_payload(0, "a\"b\\c\nd");
    assert_eq!(bytes, b"{\"exp\":0,\"sub\":\"a\\\"b\\\\c\\u000ad\"}");
}

#[test]
fn serializer_agrees_with_serde_json() {
    let mut m = serde_json::Map::new();
    m.insert("exp".to_string(), serde_json::Value::from(1234567890i64));
    m.insert("sub".to_string(), serde_json::Value::from("collector-v1"));
    let expected = serde_json::to_string(&serde_json::Value::Object(m)).unwrap();
    assert_eq!(serialize_payload(1234567890, "collector-v1"), expected.as_bytes());
}

#[test]
fn parser_accepts_exactly_the_canonical_form() {
    let p = parse_payload(b"{\"exp\":42,\"sub\":\"ok\"}").unwrap();
    assert_eq!(p.exp, 42);
    assert_eq!(p.sub, "ok");
    assert!(parse_payload(b"{\"exp\":042,\"sub\":\"ok\"}").is_none());
    assert!(parse_payload(b"{\"exp\":-0,\"sub\":\"ok\"}").is_none());
    assert!(parse_payload(b"{\"exp\": 42,\"sub\":\"ok\"}").is_none());
    assert!(parse_payload(b"{\"exp\":42,\"sub\":\"ok\"} ").is_none());
    assert!(parse_payload(b"{\"sub\":\"ok\",\"exp\":42}").is_none());
    assert!(parse_payload(b"{\"exp\":9223372036854775808,\"sub\":\"x\"}").is_none());
    assert!(parse_payload(b"{\"exp\":-9223372036854775808,\"sub\":\"x\"}").is_some());
    assert!(parse_payload(b"").is_none());
}

#[test]
fn generated_tokens_validate() {
    let key = key32();
    let tok = license_token::codec::generate_token(&key, 30);
    let p = decrypt_token(&tok, &key).unwrap();
    assert_eq!(p.sub, "collector-v1");
    let mut expired = true;
    assert_eq!(validate_key(&tok, &key, &mut expired), Ok(()));
    assert!(!expired, "a token valid for 30 days must not be expired now");
}

#[test]
fn expired_token_sets_the_flag() {
    let key = key32();
    let tok = license_token::codec::generate_token(&key, -1);
    let mut expired = false;
    assert_eq!(validate_key(&tok, &key, &mut expired), Ok(()));
    assert!(expired);
}

#[test]
fn invalid_token_reports_error_and_keeps_flag() {
    let key = key32();
    let mut expired = false;
    let r = validate_key("definitely-not-a-token", &key, &mut expired);
    assert_eq!(r, Err("Failed to decrypt token or invalid token.".to_string()));
    assert!(!expired);
}

#[test]
fn config_token_extraction() {
    assert_eq!(
        find_token_in_config(b"foo=1\nkey= abc \nkey=zzz\n"),
        Some(b"abc".to_vec())
    );
    assert_eq!(find_token_in_config(b"key=tok"), Some(b"tok".to_vec()));
    assert_eq!(find_token_in_config(b"key=tok\r\nrest"), Some(b"tok".to_vec()));
    assert_eq!(find_token_in_config(b"key="), Some(b"".to_vec()));
    assert_eq!(find_token_in_config(b"nothing\nhere"), None);
    assert_eq!(find_token_in_config(b""), None);
    assert_eq!(find_token_in_config(b" key=indented"), None);
}

#[test]
fn app_state_holds_the_flag() {
    let s = AppState::new(true);
    assert!(s.is_expired);
    let s = AppState::new(false);
    assert!(!s.is_expired);
}

#[test]
fn decoding_with_the_wrong_key_fails_authentication() {
    let p = payload(1700000000, "collector-v1");
    let tok = encode(&p, KEY).unwrap();
    let other = b"abcdefghabcdefghabcdefghabcdefgh";
    assert!(matches!(decode(&tok, other), Err(DecodeError::AuthenticationFailed)));
}
