use base64::Engine;
use hmac::{Hmac, Mac};
use jwt::SignWithKey;
use sha2::Sha256;
use soulfire::token::{decrypt_key, generate_encrypted_key, seal_with_nonce, InvalidToken, KeyError, TokenKeys};

const SIGNING_HEX: &str = "000102030405060708090a0b0c0d0e0f101112131415161718191a1b1c1d1e1f";
const CIPHER_HEX: &str = "A0A1A2A3A4A5A6A7A8A9AAABACADAEAFB0B1B2B3B4B5B6B7B8B9BABBBCBDBEBF";

fn keys() -> TokenKeys {
    TokenKeys::from_hex(SIGNING_HEX, CIPHER_HEX).unwrap()
}

fn sign_claim(claim: String) -> String {
    let signing = hex::decode(SIGNING_HEX).unwrap();
    let mac = <Hmac<Sha256> as Mac>::new_from_slice(&signing).unwrap();
    claim.sign_with_key(&mac).unwrap()
}

#[test]
fn test_encryption() {
    let keys = keys();
    let token = hex::encode("hello world this is a test token lmao oo it's long even longer than a real token oh boy");
    let encoded = generate_encrypted_key(&keys, &token).unwrap();
    let decoded = decrypt_key(&keys, &encoded).unwrap();

    assert_eq!(token, decoded)
}

#[test]
fn round_trip_empty_and_unicode() {
    let keys = keys();
    for s in ["", "a", "tökén ✓ 🎮", "role_connections.write"] {
        let sealed = generate_encrypted_key(&keys, s).unwrap();
        assert_ne!(sealed, s);
        assert_eq!(decrypt_key(&keys, &sealed).unwrap(), s);
    }
}

#[test]
fn sealing_twice_uses_fresh_nonces() {
    let keys = keys();
    let a = generate_encrypted_key(&keys, "same").unwrap();
    let b = generate_encrypted_key(&keys, "same").unwrap();
    assert_ne!(a, b);
    assert_eq!(decrypt_key(&keys, &a).unwrap(), "same");
    assert_eq!(decrypt_key(&keys, &b).unwrap(), "same");
}

#[test]
fn flipped_character_is_rejected() {
    let keys = keys();
    let sealed = generate_encrypted_key(&keys, "secret-token").unwrap();
    let bytes = sealed.as_bytes();
    for i in 0..bytes.len() {
        if bytes[i] == b'.' {
            continue;
        }
        let mut changed = bytes.to_vec();
        changed[i] = if bytes[i] == b'A' { b'B' } else { b'A' };
        let text = String::from_utf8(changed).unwrap();
        assert_eq!(decrypt_key(&keys, &text), Err(InvalidToken), "position {}", i);
    }
}

#[test]
fn tampered_ciphertext_resigned_is_rejected() {
    let keys = keys();
    let sealed = generate_encrypted_key(&keys, "secret-token").unwrap();
    let claim_b64 = sealed.split('.').nth(1).unwrap();
    let claim_json = base64::engine::general_purpose::URL_SAFE_NO_PAD.decode(claim_b64).unwrap();
    let claim: String = String::from_utf8(claim_json).unwrap().trim_matches('"').to_string();
    let mut payload = base64::engine::general_purpose::STANDARD_NO_PAD.decode(&claim).unwrap();
    let last = payload.len() - 1;
    payload[last] ^= 1;
    let forged = sign_claim(base64::engine::general_purpose::STANDARD_NO_PAD.encode(&payload));
    assert_eq!(decrypt_key(&keys, &forged), Err(InvalidToken));
}

#[test]
fn other_signing_key_is_rejected() {
    let keys = keys();
    let other = TokenKeys::from_hex("ff", CIPHER_HEX).unwrap();
    let sealed = generate_encrypted_key(&other, "secret-token").unwrap();
    assert_eq!(decrypt_key(&keys, &sealed), Err(InvalidToken));
    assert_eq!(decrypt_key(&other, &sealed).unwrap(), "secret-token");
}

#[test]
fn short_payload_is_rejected() {
    let keys = keys();
    for n in [0usize, 1, 11, 12, 20, 27] {
        let claim = base64::engine::general_purpose::STANDARD_NO_PAD.encode(vec![7u8; n]);
        assert_eq!(decrypt_key(&keys, &sign_claim(claim)), Err(InvalidToken));
    }
}

#[test]
fn malformed_tokens_are_rejected() {
    let keys = keys();
    assert_eq!(decrypt_key(&keys, ""), Err(InvalidToken));
    assert_eq!(decrypt_key(&keys, "not a token"), Err(InvalidToken));
    assert_eq!(decrypt_key(&keys, &sign_claim("***".to_string())), Err(InvalidToken));
}

#[test]
fn key_material_errors() {
    assert!(matches!(TokenKeys::from_hex("xyz", CIPHER_HEX), Err(KeyError::SigningKeyNotHex)));
    assert!(matches!(TokenKeys::from_hex("abc", CIPHER_HEX), Err(KeyError::SigningKeyNotHex)));
    assert!(matches!(TokenKeys::from_hex(SIGNING_HEX, "0g"), Err(KeyError::CipherKeyNotHex)));
    assert!(matches!(TokenKeys::from_hex(SIGNING_HEX, "00ff"), Err(KeyError::CipherKeyLength)));
    assert!(TokenKeys::from_hex("", CIPHER_HEX).is_ok());
    assert!(TokenKeys::new(vec![1, 2], vec![0u8; 31]).is_none());
    assert!(TokenKeys::new(vec![1, 2], vec![0u8; 32]).is_some());
}

#[test]
fn invalid_token_message() {
    assert_eq!(InvalidToken.message(), "invalid token");
}

fn payload_of(sealed: &str) -> Vec<u8> {
    let claim_b64 = sealed.split('.').nth(1).unwrap();
    let claim_json = base64::engine::general_purpose::URL_SAFE_NO_PAD.decode(claim_b64).unwrap();
    let claim: String = serde_json::from_slice(&claim_json).unwrap();
    base64::engine::general_purpose::STANDARD_NO_PAD.decode(&claim).unwrap()
}

#[test]
fn sealing_with_a_given_nonce() {
    let keys = keys();
    let nonce: Vec<u8> = (1u8..=12).collect();
    let a = seal_with_nonce(&keys, &nonce, "tok\u{e9}n").unwrap();
    let b = seal_with_nonce(&keys, &nonce, "tok\u{e9}n").unwrap();
    assert_eq!(a, b);
    assert_eq!(decrypt_key(&keys, &a).unwrap(), "tok\u{e9}n");
    let payload = payload_of(&a);
    assert_eq!(payload.len(), 12 + "tok\u{e9}n".len() + 16);
    assert_eq!(&payload[..12], &nonce[..]);
    let other = seal_with_nonce(&keys, &vec![0u8; 12], "tok\u{e9}n").unwrap();
    assert_ne!(a, other);
}

#[test]
fn sealed_payload_structure() {
    let keys = keys();
    let sealed = generate_encrypted_key(&keys, "abc").unwrap();
    assert_eq!(payload_of(&sealed).len(), 12 + 3 + 16);
}
