//! The sealed transport form of an OAuth bearer token: AES-256-GCM under a
//! fresh nonce, base64 without padding, inside an HMAC-SHA-256 signed JWT.
use aes_gcm::aead::{Aead, AeadCore, KeyInit, OsRng};
use aes_gcm::{Aes256Gcm, Nonce};
use base64::Engine;
use hmac::{Hmac, Mac};
use jwt::{SignWithKey, VerifyWithKey};
use sha2::Sha256;
use vstd::prelude::*;
use vstd::utf8::*;

verus! {

broadcast use {encode_utf8_valid_utf8, encode_utf8_decode_utf8};

/// AES-256-GCM ciphertext and tag of `plaintext` under `key` and `nonce`.
pub uninterp spec fn gcm_sealed(key: Seq<u8>, nonce: Seq<u8>, plaintext: Seq<u8>) -> Seq<u8>;

/// AES-256-GCM decryption of `ciphertext` under `key` and `nonce`, if the tag checks.
pub uninterp spec fn gcm_opened(key: Seq<u8>, nonce: Seq<u8>, ciphertext: Seq<u8>) -> Option<Seq<u8>>;

/// Standard base64 text of `bytes`, without padding.
pub uninterp spec fn base64_of(bytes: Seq<u8>) -> Seq<char>;

/// Bytes of standard unpadded base64 `text`, if it is well formed.
pub uninterp spec fn base64_decoded(text: Seq<char>) -> Option<Seq<u8>>;

/// Compact JWT with the string claim `claim`, signed by HMAC-SHA-256 under `key`.
pub uninterp spec fn jwt_signed(key: Seq<u8>, claim: Seq<char>) -> Seq<char>;

/// The string claim of `token`, if its HMAC-SHA-256 signature under `key` checks.
pub uninterp spec fn jwt_claim(key: Seq<u8>, token: Seq<char>) -> Option<Seq<char>>;

pub open spec fn opt_bytes(o: Option<Vec<u8>>) -> Option<Seq<u8>> {
    match o {
        Some(v) => Some(v@),
        None => None,
    }
}

pub open spec fn opt_text(o: Option<String>) -> Option<Seq<char>> {
    match o {
        Some(s) => Some(s@),
        None => None,
    }
}

/// Relies on aes_gcm's `AeadCore::generate_nonce` over the OS random source:
/// a 96-bit nonce.
#[verifier::external_body]
fn fresh_nonce() -> (r: Vec<u8>)
    ensures
        r@.len() == 12,
{
    Aes256Gcm::generate_nonce(&mut OsRng).to_vec()
}

/// Relies on aes_gcm's `Aead::encrypt` for `Aes256Gcm` with no associated
/// data: ciphertext followed by the 16-byte tag, refused exactly above 2^36
/// bytes of plaintext.
#[verifier::external_body]
fn gcm_encrypt(key: &[u8], nonce: &[u8], plaintext: &[u8]) -> (r: Option<Vec<u8>>)
    requires
        key@.len() == 32,
        nonce@.len() == 12,
    ensures
        r matches Some(c) ==> c@ == gcm_sealed(key@, nonce@, plaintext@) && c@.len() == plaintext@.len() + 16,
        r is Some <==> plaintext@.len() <= 0x10_0000_0000,
{
    let cipher = Aes256Gcm::new(aes_gcm::Key::<Aes256Gcm>::from_slice(key));
    cipher.encrypt(Nonce::from_slice(nonce), plaintext).ok()
}

/// Relies on aes_gcm's `Aead::decrypt` for `Aes256Gcm` with no associated
/// data: a ciphertext made under the same key and nonce from a plaintext
/// within the 2^36-byte limit opens to that plaintext; one shorter than the
/// 16-byte tag is refused.
#[verifier::external_body]
fn gcm_decrypt(key: &[u8], nonce: &[u8], ciphertext: &[u8]) -> (r: Option<Vec<u8>>)
    requires
        key@.len() == 32,
        nonce@.len() == 12,
    ensures
        opt_bytes(r) == gcm_opened(key@, nonce@, ciphertext@),
        ciphertext@.len() < 16 ==> r is None,
        forall|p: Seq<u8>|
            p.len() <= 0x10_0000_0000 && ciphertext@ == #[trigger] gcm_sealed(key@, nonce@, p) ==> opt_bytes(r)
                == Some(p),
{
    let cipher = Aes256Gcm::new(aes_gcm::Key::<Aes256Gcm>::from_slice(key));
    cipher.decrypt(Nonce::from_slice(nonce), ciphertext).ok()
}

/// Relies on base64's `STANDARD_NO_PAD` engine `encode`.
#[verifier::external_body]
fn base64_encode(bytes: &[u8]) -> (r: String)
    ensures
        r@ == base64_of(bytes@),
{
    base64::engine::general_purpose::STANDARD_NO_PAD.encode(bytes)
}

/// Relies on base64's `STANDARD_NO_PAD` engine `decode`: what `encode` wrote
/// decodes to the bytes it was written from.
#[verifier::external_body]
fn base64_decode(text: &str) -> (r: Option<Vec<u8>>)
    ensures
        opt_bytes(r) == base64_decoded(text@),
        forall|b: Seq<u8>| text@ == #[trigger] base64_of(b) ==> opt_bytes(r) == Some(b),
{
    base64::engine::general_purpose::STANDARD_NO_PAD.decode(text).ok()
}

/// Relies on jwt's `SignWithKey` for a `String` claim under an
/// `Hmac<Sha256>` key. Neither call fails: hmac's `new_from_slice` takes a
/// key of any length, and jwt fails only where serde_json cannot serialize
/// the header or the claim, which a `String` claim never causes.
#[verifier::external_body]
fn jwt_sign(key: &[u8], claim: String) -> (r: String)
    ensures
        r@ == jwt_signed(key@, claim@),
{
    let mac = <Hmac<Sha256> as Mac>::new_from_slice(key).unwrap();
    claim.sign_with_key(&mac).unwrap()
}

/// Relies on jwt's `VerifyWithKey` for a `String` claim under an
/// `Hmac<Sha256>` key: a token that `SignWithKey` made under the same key
/// gives back its claim.
#[verifier::external_body]
fn jwt_verify(key: &[u8], token: &str) -> (r: Option<String>)
    ensures
        opt_text(r) == jwt_claim(key@, token@),
        forall|c: Seq<char>| token@ == #[trigger] jwt_signed(key@, c) ==> opt_text(r) == Some(c),
{
    let mac = <Hmac<Sha256> as Mac>::new_from_slice(key).ok()?;
    token.verify_with_key(&mac).ok()
}

/// Relies on `String::from_utf8`: accepts exactly the valid UTF-8 byte
/// sequences, and decodes them.
#[verifier::external_body]
fn utf8_to_string(bytes: Vec<u8>) -> (r: Option<String>)
    ensures
        r is Some <==> valid_utf8(bytes@),
        r matches Some(s) ==> s@ == decode_utf8(bytes@),
{
    String::from_utf8(bytes).ok()
}

/// The value of a hexadecimal digit, either case.
pub open spec fn hex_digit(c: char) -> Option<u8> {
    if '0' <= c && c <= '9' {
        Some((c as u32 - '0' as u32) as u8)
    } else if 'a' <= c && c <= 'f' {
        Some((c as u32 - 'a' as u32 + 10) as u8)
    } else if 'A' <= c && c <= 'F' {
        Some((c as u32 - 'A' as u32 + 10) as u8)
    } else {
        None
    }
}

/// The bytes that hexadecimal text spells, two digits each, high digit first.
pub open spec fn hex_bytes(s: Seq<char>) -> Option<Seq<u8>>
    decreases s.len(),
{
    if s.len() == 0 {
        Some(seq![])
    } else if s.len() == 1 {
        None
    } else {
        match (hex_digit(s[0]), hex_digit(s[1]), hex_bytes(s.skip(2))) {
            (Some(hi), Some(lo), Some(rest)) => Some(seq![(hi * 16 + lo) as u8] + rest),
            _ => None,
        }
    }
}

/// Relies on `hex::decode`: pairs of hexadecimal digits of either case, or
/// an error for odd length or any other character.
#[verifier::external_body]
fn hex_decode(text: &str) -> (r: Option<Vec<u8>>)
    ensures
        opt_bytes(r) == hex_bytes(text@),
{
    hex::decode(text).ok()
}

/// Why secret key material was refused.
#[derive(Clone, Copy, PartialEq, Eq, Structural, Debug)]
pub enum KeyError {
    SigningKeyNotHex,
    CipherKeyNotHex,
    CipherKeyLength,
}

/// The signing key and the cipher key that seal and unseal tokens.
pub struct TokenKeys {
    signing_key: Vec<u8>,
    cipher_key: Vec<u8>,
}

/// The sealed token was malformed, forged or tampered with.
#[derive(Clone, Copy, PartialEq, Eq, Structural, Debug)]
pub struct InvalidToken;

impl InvalidToken {
    /// The message of this error.
    pub fn message(&self) -> (r: String)
        ensures
            r@ == "invalid token"@,
    {
        String::from_str("invalid token")
    }
}

impl TokenKeys {
    pub closed spec fn spec_signing_key(&self) -> Seq<u8> {
        self.signing_key@
    }

    pub closed spec fn spec_cipher_key(&self) -> Seq<u8> {
        self.cipher_key@
    }

    /// The cipher key is 256 bits.
    pub open spec fn well_formed(&self) -> bool {
        self.spec_cipher_key().len() == 32
    }

    /// Keys from raw bytes; the cipher key must be 32 bytes long.
    pub fn new(signing_key: Vec<u8>, cipher_key: Vec<u8>) -> (r: Option<TokenKeys>)
        ensures
            r is Some <==> cipher_key@.len() == 32,
            r matches Some(k) ==> k.well_formed() && k.spec_signing_key() == signing_key@
                && k.spec_cipher_key() == cipher_key@,
    {
        if cipher_key.len() != 32 {
            return None;
        }
        Some(TokenKeys { signing_key, cipher_key })
    }

    /// Keys from hexadecimal text; the cipher key must spell 32 bytes.
    pub fn from_hex(signing_hex: &str, cipher_hex: &str) -> (r: Result<TokenKeys, KeyError>)
        ensures
            hex_bytes(signing_hex@) is None ==> r == Err::<TokenKeys, KeyError>(KeyError::SigningKeyNotHex),
            hex_bytes(signing_hex@) is Some && hex_bytes(cipher_hex@) is None ==> r == Err::<TokenKeys, KeyError>(KeyError::CipherKeyNotHex),
            (hex_bytes(signing_hex@) is Some && (hex_bytes(cipher_hex@) matches Some(c) && c.len() != 32)) ==> r == Err::<TokenKeys, KeyError>(KeyError::CipherKeyLength),
            r matches Ok(k) ==> k.well_formed() && hex_bytes(signing_hex@) == Some(k.spec_signing_key())
                && hex_bytes(cipher_hex@) == Some(k.spec_cipher_key()),
            (hex_bytes(signing_hex@) is Some && (hex_bytes(cipher_hex@) matches Some(c) && c.len() == 32)) ==> r is Ok,
    {
        let signing_key = match hex_decode(signing_hex) {
            Some(k) => k,
            None => return Err(KeyError::SigningKeyNotHex),
        };
        let cipher_key = match hex_decode(cipher_hex) {
            Some(k) => k,
            None => return Err(KeyError::CipherKeyNotHex),
        };
        match TokenKeys::new(signing_key, cipher_key) {
            Some(k) => Ok(k),
            None => Err(KeyError::CipherKeyLength),
        }
    }
}

/// The payload signed into a sealed token: nonce and ciphertext, in base64.
pub open spec fn sealed_payload(cipher_key: Seq<u8>, nonce: Seq<u8>, token: Seq<char>) -> Seq<char> {
    base64_of(sealed_bytes(cipher_key, nonce, token))
}

/// The sealed form of `token` under the given keys and nonce.
pub open spec fn sealed_form(signing_key: Seq<u8>, cipher_key: Seq<u8>, nonce: Seq<u8>, token: Seq<char>) -> Seq<char> {
    jwt_signed(signing_key, sealed_payload(cipher_key, nonce, token))
}

/// The token that `sealed` carries, if it is genuine.
pub open spec fn unsealed(signing_key: Seq<u8>, cipher_key: Seq<u8>, sealed: Seq<char>) -> Option<Seq<char>> {
    match jwt_claim(signing_key, sealed) {
        None => None,
        Some(claim) => match base64_decoded(claim) {
            None => None,
            Some(bytes) => if bytes.len() < 12 {
                None
            } else {
                match gcm_opened(cipher_key, bytes.take(12), bytes.skip(12)) {
                    None => None,
                    Some(plain) => if valid_utf8(plain) {
                        Some(decode_utf8(plain))
                    } else {
                        None
                    },
                }
            },
        },
    }
}

/// The bytes of `b` from index `from` up to `to`.
fn copy_range(b: &Vec<u8>, from: usize, to: usize) -> (r: Vec<u8>)
    requires
        from <= to <= b@.len(),
    ensures
        r@ == b@.subrange(from as int, to as int),
{
    let mut out: Vec<u8> = Vec::new();
    let mut i: usize = from;
    while i < to
        invariant
            from <= i <= to,
            to <= b@.len(),
            out@ =~= b@.subrange(from as int, i as int),
        decreases to - i,
    {
        out.push(b[i]);
        i = i + 1;
    }
    out
}

/// The bytes under the base64 of a sealed token: the nonce, then the
/// ciphertext with its tag.
pub open spec fn sealed_bytes(cipher_key: Seq<u8>, nonce: Seq<u8>, token: Seq<char>) -> Seq<u8> {
    nonce + gcm_sealed(cipher_key, nonce, encode_utf8(token))
}

/// Whether the token is short enough for the cipher: at most 2^36 bytes of UTF-8.
pub open spec fn sealable(token: Seq<char>) -> bool {
    encode_utf8(token).len() <= 0x10_0000_0000
}

/// Seals `token` under the given 12-byte nonce: encrypts it under the
/// cipher key, and signs nonce and ciphertext, in base64, under the signing
/// key. `None` exactly when the token is too long for the cipher.
pub fn seal_with_nonce(keys: &TokenKeys, nonce: &Vec<u8>, token: &str) -> (r: Option<String>)
    requires
        keys.well_formed(),
        nonce@.len() == 12,
    ensures
        r is Some <==> sealable(token@),
        r matches Some(s) ==> s@ == sealed_form(keys.spec_signing_key(), keys.spec_cipher_key(), nonce@, token@),
        r is Some ==> sealed_bytes(keys.spec_cipher_key(), nonce@, token@).len() == 12
            + encode_utf8(token@).len() + 16,
{
    let plain = token.as_bytes();
    let ciphertext = match gcm_encrypt(keys.cipher_key.as_slice(), nonce.as_slice(), plain) {
        Some(c) => c,
        None => return None,
    };
    let mut payload = nonce.clone();
    let mut tail = ciphertext;
    payload.append(&mut tail);
    assert(payload@ == sealed_bytes(keys.spec_cipher_key(), nonce@, token@));
    let claim = base64_encode(payload.as_slice());
    Some(jwt_sign(keys.signing_key.as_slice(), claim))
}

/// Seals `token` under a fresh random nonce (see `seal_with_nonce`).
/// `None` exactly when the token is too long for the cipher.
pub fn generate_encrypted_key(keys: &TokenKeys, token: &str) -> (r: Option<String>)
    requires
        keys.well_formed(),
    ensures
        r is Some <==> sealable(token@),
        r matches Some(s) ==> exists|nonce: Seq<u8>|
            nonce.len() == 12 && s@ == #[trigger] sealed_form(
                keys.spec_signing_key(),
                keys.spec_cipher_key(),
                nonce,
                token@,
            ),
{
    let nonce = fresh_nonce();
    let r = seal_with_nonce(keys, &nonce, token);
    match r {
        Some(s) => {
            assert(s@ == sealed_form(keys.spec_signing_key(), keys.spec_cipher_key(), nonce@, token@));
            Some(s)
        },
        None => None,
    }
}

/// Unseals `key`: checks its signature, decodes its payload, and decrypts
/// the ciphertext after the 12-byte nonce. Every failure, text that is not
/// UTF-8 included, is `InvalidToken`; a payload too short to hold the nonce
/// and the 16-byte tag (under 28 bytes) always fails.
pub fn decrypt_key(keys: &TokenKeys, key: &str) -> (r: Result<String, InvalidToken>)
    requires
        keys.well_formed(),
    ensures
        match r {
            Ok(t) => unsealed(keys.spec_signing_key(), keys.spec_cipher_key(), key@) == Some(t@),
            Err(_) => unsealed(keys.spec_signing_key(), keys.spec_cipher_key(), key@) is None,
        },
        forall|nonce: Seq<u8>, t: Seq<char>|
            nonce.len() == 12 && sealable(t) && key@ == #[trigger] sealed_form(
                keys.spec_signing_key(),
                keys.spec_cipher_key(),
                nonce,
                t,
            ) ==> (r matches Ok(s) && s@ == t),
        (jwt_claim(keys.spec_signing_key(), key@) matches Some(c) && base64_decoded(c) matches Some(b)
            && b.len() < 28) ==> r is Err,
{
    let claim = match jwt_verify(keys.signing_key.as_slice(), key) {
        Some(c) => c,
        None => return Err(InvalidToken),
    };
    let bytes = match base64_decode(claim.as_str()) {
        Some(b) => b,
        None => return Err(InvalidToken),
    };
    if bytes.len() < 12 {
        return Err(InvalidToken);
    }
    let nonce = copy_range(&bytes, 0, 12);
    let ciphertext = copy_range(&bytes, 12, bytes.len());
    proof {
        assert forall|n: Seq<u8>, t: Seq<char>|
            n.len() == 12 && sealable(t) && key@ == #[trigger] sealed_form(
                keys.spec_signing_key(),
                keys.spec_cipher_key(),
                n,
                t,
            ) implies nonce@ == n && ciphertext@ == gcm_sealed(
                keys.spec_cipher_key(),
                n,
                encode_utf8(t),
            ) by {
            let c = gcm_sealed(keys.spec_cipher_key(), n, encode_utf8(t));
            assert(claim@ == sealed_payload(keys.spec_cipher_key(), n, t));
            assert(bytes@ == n + c);
            assert(nonce@ =~= n);
            assert(ciphertext@ =~= c);
        }
    }
    let plain = match gcm_decrypt(keys.cipher_key.as_slice(), nonce.as_slice(), ciphertext.as_slice()) {
        Some(p) => p,
        None => return Err(InvalidToken),
    };
    assert(nonce@ =~= bytes@.take(12));
    assert(ciphertext@ =~= bytes@.skip(12));
    match utf8_to_string(plain) {
        Some(s) => Ok(s),
        None => Err(InvalidToken),
    }
}

} // verus!
