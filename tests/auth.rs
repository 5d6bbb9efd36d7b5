use backend::codec::{decode, decode_bytes, encode, Claims, SigningKeys, TokenError};
use backend::cookie::cookie_value;
use backend::error::AuthError;
use backend::hex::{parse_hex, push_hex};
use backend::session::{
    check_credentials, complete_login, extract_identity, greeting, mint_claims, Credentials,
    VerifierOutcome, ACCESS_TOKEN_COOKIE, SESSION_LIFETIME_SECS, TOKEN_TYPE,
};
use hmac::{Hmac, Mac};
use sha2::Sha256;

const NOW: u64 = 1_700_000_000;

fn keys() -> SigningKeys {
    SigningKeys::from_secret("test-secret")
}

fn claims(name: &str, issued_at: u64, expires_at: u64) -> Claims {
    Claims { issuer: name.to_string(), issued_at, expires_at }
}

fn creds(username: &str, password: &str) -> Credentials {
    Credentials { username: username.to_string(), password: password.to_string() }
}

fn login_alice(keys: &SigningKeys) -> String {
    let c = creds("alice", "correct");
    assert_eq!(check_credentials(&c), Ok(()));
    let resp = complete_login(&c, VerifierOutcome::Accepted, keys, NOW).ok().unwrap();
    resp.access_token
}

#[test]
fn round_trip_returns_the_claims() {
    let k = keys();
    let c = claims("alice", NOW, NOW + 3600);
    let t = encode(&c, &k);
    let d = decode(&t, &k, NOW).ok().unwrap();
    assert_eq!(d.issuer, "alice");
    assert_eq!(d.issued_at, NOW);
    assert_eq!(d.expires_at, NOW + 3600);
}

#[test]
fn round_trip_keeps_non_ascii_issuer() {
    let k = keys();
    let c = claims("élodie ✓", 1, 2);
    let t = encode(&c, &k);
    assert!(t.is_ascii());
    let d = decode(&t, &k, 2).ok().unwrap();
    assert_eq!(d.issuer, "élodie ✓");
}

#[test]
fn encoding_is_deterministic() {
    let k = keys();
    let c = claims("bob", 10, 20);
    assert_eq!(encode(&c, &k), encode(&c, &k));
}

#[test]
fn token_layout_is_payload_dot_tag() {
    let k = keys();
    let t = encode(&claims("ab", 1, 2), &k);
    let (payload, tag) = t.split_once('.').unwrap();
    assert_eq!(payload, "000000000000000100000000000000026162");
    assert_eq!(tag.len(), 64);
}

#[test]
fn tag_is_hmac_sha256_of_payload() {
    let k = keys();
    let t = encode(&claims("alice", NOW, NOW + 60), &k);
    let (payload, tag) = t.split_once('.').unwrap();
    let bytes = parse_hex(payload.as_bytes()).unwrap();
    let mut mac = <Hmac<Sha256> as Mac>::new_from_slice(b"test-secret").unwrap();
    mac.update(&bytes);
    let mut want = Vec::new();
    push_hex(&mac.finalize().into_bytes(), &mut want);
    assert_eq!(tag.as_bytes(), &want[..]);
}

#[test]
fn expired_token_is_rejected() {
    let k = keys();
    let t = encode(&claims("alice", NOW - 100, NOW - 1), &k);
    assert_eq!(decode(&t, &k, NOW).err(), Some(TokenError::Expired));
}

#[test]
fn token_valid_up_to_its_expiry_second() {
    let k = keys();
    let t = encode(&claims("alice", NOW - 100, NOW), &k);
    assert!(decode(&t, &k, NOW).is_ok());
    assert_eq!(decode(&t, &k, NOW + 1).err(), Some(TokenError::Expired));
}

#[test]
fn every_tag_byte_flip_is_detected() {
    let k = keys();
    let t = encode(&claims("alice", NOW, NOW + 60), &k);
    let bytes = t.as_bytes().to_vec();
    let dot = t.find('.').unwrap();
    for i in dot + 1..bytes.len() {
        for flip in [0x01u8, 0x20, 0x80, 0xff] {
            let mut b = bytes.clone();
            b[i] ^= flip;
            assert_eq!(decode_bytes(&b, &k, NOW).err(), Some(TokenError::BadSignature));
        }
    }
}

#[test]
fn payload_tampering_is_detected() {
    let k = keys();
    let t = encode(&claims("alice", NOW, NOW + 60), &k);
    let forged = t.replacen("616c696365", "6d616c6c6f7279", 1);
    assert_eq!(decode(&forged, &k, NOW).err(), Some(TokenError::BadSignature));
}

#[test]
fn other_key_rejects_token() {
    let a = SigningKeys::from_secret("secret-a");
    let b = SigningKeys::from_secret("secret-b");
    let t = encode(&claims("alice", NOW, NOW + 60), &a);
    assert_eq!(decode(&t, &b, NOW).err(), Some(TokenError::BadSignature));
    assert!(decode(&t, &a, NOW).is_ok());
}

#[test]
fn byte_keys_match_text_keys() {
    let a = SigningKeys::new(b"test-secret".to_vec());
    let t = encode(&claims("alice", NOW, NOW + 60), &a);
    assert!(decode(&t, &keys(), NOW).is_ok());
}

#[test]
fn malformed_tokens_are_rejected() {
    let k = keys();
    for t in ["", "abc", "no-dot-here", "zz.00", "0.00", "AB.00"] {
        assert_eq!(decode(t, &k, NOW).err(), Some(TokenError::Malformed), "{}", t);
    }
    assert_eq!(decode("00.11", &k, NOW).err(), Some(TokenError::BadSignature));
}

#[test]
fn short_payload_with_right_tag_is_malformed() {
    let k = keys();
    let mut mac = <Hmac<Sha256> as Mac>::new_from_slice(b"test-secret").unwrap();
    mac.update(&[1, 2, 3]);
    let mut t = b"010203.".to_vec();
    push_hex(&mac.finalize().into_bytes(), &mut t);
    assert_eq!(decode_bytes(&t, &k, 0).err(), Some(TokenError::Malformed));
}

#[test]
fn login_scenario_issues_token() {
    let k = keys();
    let c = creds("alice", "correct");
    let resp = complete_login(&c, VerifierOutcome::Accepted, &k, NOW).ok().unwrap();
    assert!(!resp.access_token.is_empty());
    assert_eq!(resp.username, "alice");
    assert_eq!(TOKEN_TYPE, "Bearer");
    let d = decode(&resp.access_token, &k, NOW).ok().unwrap();
    assert_eq!(d.issuer, "alice");
    assert_eq!(d.issued_at, NOW);
    assert_eq!(d.expires_at, NOW + SESSION_LIFETIME_SECS);
}

#[test]
fn bad_credentials_scenario() {
    let c = creds("alice", "wrong");
    assert_eq!(check_credentials(&c), Ok(()));
    let e = complete_login(&c, VerifierOutcome::Rejected, &keys(), NOW).err().unwrap();
    assert_eq!(e, AuthError::WrongCredentials);
    assert_eq!(e.status(), 401);
    assert_eq!(e.message(), "Wrong credentials");
}

#[test]
fn unreachable_authority_reads_as_wrong_credentials() {
    let c = creds("alice", "correct");
    let e = complete_login(&c, VerifierOutcome::Unavailable, &keys(), NOW).err().unwrap();
    assert_eq!(e, AuthError::WrongCredentials);
    assert_eq!(AuthError::VerifierUnavailable.status(), 401);
    assert_eq!(AuthError::VerifierUnavailable.message(), "Wrong credentials");
}

#[test]
fn missing_field_scenario() {
    let c = creds("", "x");
    let e = check_credentials(&c).err().unwrap();
    assert_eq!(e, AuthError::MissingCredentials);
    assert_eq!(e.status(), 400);
    assert_eq!(e.message(), "Missing credentials");
    let e2 = complete_login(&c, VerifierOutcome::Accepted, &keys(), NOW).err().unwrap();
    assert_eq!(e2, AuthError::MissingCredentials);
    assert_eq!(check_credentials(&creds("alice", "")).err(), Some(AuthError::MissingCredentials));
}

#[test]
fn token_creation_fails_when_expiry_overflows() {
    let c = creds("alice", "correct");
    let e = complete_login(&c, VerifierOutcome::Accepted, &keys(), u64::MAX - 10).err().unwrap();
    assert_eq!(e, AuthError::TokenCreation);
    assert_eq!(e.status(), 500);
    assert_eq!(e.message(), "Token creation error");
    assert!(mint_claims("alice", u64::MAX - SESSION_LIFETIME_SECS).is_some());
    assert!(mint_claims("alice", u64::MAX - SESSION_LIFETIME_SECS + 1).is_none());
}

#[test]
fn protected_route_without_cookie() {
    let k = keys();
    let e = extract_identity(None, &k, NOW).err().unwrap();
    assert_eq!(e, AuthError::InvalidToken);
    assert_eq!(e.status(), 400);
    assert_eq!(e.message(), "Invalid token");
    let e2 = extract_identity(Some("theme=dark; lang=en"), &k, NOW).err().unwrap();
    assert_eq!(e2, AuthError::InvalidToken);
}

#[test]
fn protected_route_with_valid_cookie() {
    let k = keys();
    let token = login_alice(&k);
    let header = format!("theme=dark; {}={}", ACCESS_TOKEN_COOKIE, token);
    let id = extract_identity(Some(&header), &k, NOW + 10).ok().unwrap();
    assert_eq!(id.username, "alice");
}

#[test]
fn protected_route_with_expired_cookie() {
    let k = keys();
    let token = encode(&claims("alice", NOW - 86400, NOW - 1), &k);
    let header = format!("access_token={}", token);
    let e = extract_identity(Some(&header), &k, NOW).err().unwrap();
    assert_eq!(e, AuthError::InvalidToken);
    assert_eq!(e.status(), 400);
    assert_eq!(e.message(), "Invalid token");
}

#[test]
fn protected_route_with_garbage_cookie() {
    let k = keys();
    let e = extract_identity(Some("access_token=abc.def"), &k, NOW).err().unwrap();
    assert_eq!(e, AuthError::InvalidToken);
}

#[test]
fn cookie_first_match_wins() {
    let h = b"a=1; access_token=first; access_token=second";
    assert_eq!(cookie_value(h, b"access_token"), Some(b"first".to_vec()));
}

#[test]
fn cookie_names_and_values_are_trimmed() {
    let h = b"  a = 1 ;\taccess_token\t=  tok  ;b=2";
    assert_eq!(cookie_value(h, b"access_token"), Some(b"tok".to_vec()));
    assert_eq!(cookie_value(h, b"a"), Some(b"1".to_vec()));
    assert_eq!(cookie_value(h, b"b"), Some(b"2".to_vec()));
}

#[test]
fn cookie_empty_value() {
    assert_eq!(cookie_value(b"access_token=", b"access_token"), Some(Vec::new()));
    assert_eq!(cookie_value(b"access_token=  ; x=1", b"access_token"), Some(Vec::new()));
}

#[test]
fn cookie_absent_or_without_equals() {
    assert_eq!(cookie_value(b"", b"access_token"), None);
    assert_eq!(cookie_value(b"access_token", b"access_token"), None);
    assert_eq!(cookie_value(b"access_token; access_token=v", b"access_token"), Some(b"v".to_vec()));
    assert_eq!(cookie_value(b"xaccess_token=v", b"access_token"), None);
}

#[test]
fn cookie_value_keeps_later_equals() {
    assert_eq!(cookie_value(b"k=a=b", b"k"), Some(b"a=b".to_vec()));
}

#[test]
fn hex_round_trip_and_rejects() {
    let mut out = Vec::new();
    push_hex(&[0x00, 0x7f, 0xab, 0xff], &mut out);
    assert_eq!(out, b"007fabff".to_vec());
    assert_eq!(parse_hex(&out), Some(vec![0x00, 0x7f, 0xab, 0xff]));
    assert_eq!(parse_hex(b"abc"), None);
    assert_eq!(parse_hex(b"AB"), None);
    assert_eq!(parse_hex(b"g0"), None);
    assert_eq!(parse_hex(b""), Some(Vec::new()));
}

#[test]
fn hello_greeting() {
    assert_eq!(greeting("World"), "Hello, World!");
    assert_eq!(greeting(""), "Hello, !");
}
