//! Signed claim tokens.
//!
//! A token is the ASCII text `P.S`, where `P` is the hex text of the payload
//! bytes and `S` the 64-digit hex text of the HMAC-SHA-256 tag of those bytes.
//! The payload holds the issue time and the expiry time as eight big-endian
//! bytes each, followed by the UTF-8 bytes of the issuer.
use crate::bytes::{push_bytes, same_bytes};
use crate::hex::{bytes_of_hex, hex_of, is_hex_text, lemma_hex_round_trip, parse_hex, push_hex};
use hmac::{Hmac, Mac};
use sha2::Sha256;
use vstd::prelude::*;
use vstd::utf8::{decode_utf8, encode_utf8, valid_utf8};

verus! {

broadcast use vstd::utf8::group_utf8_lib;

/// The HMAC-SHA-256 tag of `msg` under `key`.
pub uninterp spec fn hmac_sha256_of(key: Seq<u8>, msg: Seq<u8>) -> Seq<u8>;

/// Relies on `hmac::Hmac<sha2::Sha256>`: `new_from_slice` accepts a key of any
/// length, and `finalize` yields the 32-byte tag of the bytes given to `update`.
#[verifier::external_body]
fn hmac_sha256(key: &[u8], msg: &[u8]) -> (r: Vec<u8>)
    ensures
        r@ == hmac_sha256_of(key@, msg@),
        r@.len() == 32,
{
    let mut mac = <Hmac<Sha256> as Mac>::new_from_slice(key).expect("HMAC takes keys of any length");
    mac.update(msg);
    mac.finalize().into_bytes().to_vec()
}

/// Relies on `String::from_utf8`: it succeeds exactly on valid UTF-8, and the
/// text it returns is made of the characters those bytes encode.
#[verifier::external_body]
fn string_from_utf8(v: Vec<u8>) -> (r: Option<String>)
    ensures
        r is Some <==> valid_utf8(v@),
        r is Some ==> r->0@ == decode_utf8(v@),
{
    String::from_utf8(v).ok()
}

/// The symmetric secret that signs and checks tokens.
pub struct SigningKeys {
    secret: Vec<u8>,
}

impl View for SigningKeys {
    type V = Seq<u8>;

    closed spec fn view(&self) -> Seq<u8> {
        self.secret@
    }
}

impl SigningKeys {
    /// Keys holding the given secret.
    pub fn new(secret: Vec<u8>) -> (r: SigningKeys)
        ensures
            r@ == secret@,
    {
        SigningKeys { secret }
    }

    /// Keys holding the bytes of the given secret text.
    pub fn from_secret(secret: &str) -> (r: SigningKeys)
        ensures
            r@ == encode_utf8(secret@),
    {
        let mut v: Vec<u8> = Vec::new();
        push_bytes(secret.as_bytes(), 0, secret.as_bytes().len(), &mut v);
        SigningKeys { secret: v }
    }
}

/// The identity claim set: who the token names and when it is valid.
pub struct Claims {
    pub issuer: String,
    pub issued_at: u64,
    pub expires_at: u64,
}

/// The mathematical value of a claim set.
pub ghost struct ClaimsView {
    pub issuer: Seq<char>,
    pub issued_at: u64,
    pub expires_at: u64,
}

impl View for Claims {
    type V = ClaimsView;

    open spec fn view(&self) -> ClaimsView {
        ClaimsView { issuer: self.issuer@, issued_at: self.issued_at, expires_at: self.expires_at }
    }
}

impl Claims {
    /// Claims are well formed when they expire after they were issued.
    pub open spec fn valid(self) -> bool {
        self.issued_at < self.expires_at
    }
}

/// Why a token was not accepted.
#[derive(Clone, Copy, Debug, PartialEq, Eq, Structural)]
pub enum TokenError {
    /// The text does not have the layout of a token.
    Malformed,
    /// The tag does not match the payload under the keys in use.
    BadSignature,
    /// The token's expiry time lies before the moment of checking.
    Expired,
}

/// Eight bytes, most significant first.
pub open spec fn be_bytes(n: u64) -> Seq<u8> {
    seq![
        (n >> 56u64) as u8,
        (n >> 48u64) as u8,
        (n >> 40u64) as u8,
        (n >> 32u64) as u8,
        (n >> 24u64) as u8,
        (n >> 16u64) as u8,
        (n >> 8u64) as u8,
        n as u8,
    ]
}

/// The number that the first eight bytes of `b` spell, most significant first.
pub open spec fn be_value(b: Seq<u8>) -> u64
    recommends
        b.len() >= 8,
{
    (b[0] as u64) << 56u64 | (b[1] as u64) << 48u64 | (b[2] as u64) << 40u64 | (b[3] as u64)
        << 32u64 | (b[4] as u64) << 24u64 | (b[5] as u64) << 16u64 | (b[6] as u64) << 8u64
        | (b[7] as u64)
}

proof fn lemma_be_round_trip(n: u64)
    ensures
        be_value(be_bytes(n)) == n,
{
    assert(((n >> 56u64) as u8 as u64) << 56u64 | ((n >> 48u64) as u8 as u64) << 48u64 | ((n
        >> 40u64) as u8 as u64) << 40u64 | ((n >> 32u64) as u8 as u64) << 32u64 | ((n >> 24u64)
        as u8 as u64) << 24u64 | ((n >> 16u64) as u8 as u64) << 16u64 | ((n >> 8u64) as u8 as u64)
        << 8u64 | (n as u8 as u64) == n) by (bit_vector);
}

/// The signed part of a token for the given claims.
pub open spec fn payload_of(c: ClaimsView) -> Seq<u8> {
    be_bytes(c.issued_at) + be_bytes(c.expires_at) + encode_utf8(c.issuer)
}

/// The bytes of the token for the given claims under the given secret.
pub open spec fn token_bytes(c: ClaimsView, key: Seq<u8>) -> Seq<u8> {
    let p = payload_of(c);
    hex_of(p) + seq![46u8] + hex_of(hmac_sha256_of(key, p))
}

/// ASCII bytes read as characters.
pub open spec fn text_of(b: Seq<u8>) -> Seq<char> {
    b.map_values(|x: u8| x as char)
}

/// `d` is the position of the first `.` in `t`.
pub open spec fn is_first_dot(t: Seq<u8>, d: int) -> bool {
    0 <= d < t.len() && t[d] == 46u8 && forall|k: int| 0 <= k < d ==> #[trigger] t[k] != 46u8
}

/// The payload bytes and the tag text of a token: the hex text before the
/// first `.`, read as bytes, and all that follows it.
pub open spec fn split_token(t: Seq<u8>) -> Option<(Seq<u8>, Seq<u8>)> {
    if exists|d: int| is_first_dot(t, d) {
        let d = choose|d: int| is_first_dot(t, d);
        if is_hex_text(t.subrange(0, d)) {
            Some((bytes_of_hex(t.subrange(0, d)), t.subrange(d + 1, t.len() as int)))
        } else {
            None
        }
    } else {
        None
    }
}

proof fn lemma_first_dot_unique(t: Seq<u8>, d: int, e: int)
    requires
        is_first_dot(t, d),
        is_first_dot(t, e),
    ensures
        d == e,
{
    if d < e {
        assert(t[d] != 46u8);
    } else if e < d {
        assert(t[e] != 46u8);
    }
}

/// The claims that payload bytes hold, when they hold any.
pub open spec fn claims_of_payload(p: Seq<u8>) -> Option<ClaimsView> {
    if p.len() >= 16 && valid_utf8(p.subrange(16, p.len() as int)) {
        Some(
            ClaimsView {
                issuer: decode_utf8(p.subrange(16, p.len() as int)),
                issued_at: be_value(p),
                expires_at: be_value(p.subrange(8, 16)),
            },
        )
    } else {
        None
    }
}

/// What checking the token bytes `t` under `key` at time `now` gives.
pub open spec fn decode_outcome(t: Seq<u8>, key: Seq<u8>, now: u64) -> Result<
    ClaimsView,
    TokenError,
> {
    match split_token(t) {
        None => Err(TokenError::Malformed),
        Some((p, tag)) => {
            if tag != hex_of(hmac_sha256_of(key, p)) {
                Err(TokenError::BadSignature)
            } else {
                match claims_of_payload(p) {
                    None => Err(TokenError::Malformed),
                    Some(c) => {
                        if c.expires_at < now {
                            Err(TokenError::Expired)
                        } else {
                            Ok(c)
                        }
                    },
                }
            }
        },
    }
}

/// What checking the token text `t` gives.
pub open spec fn decode_text(t: Seq<char>, key: Seq<u8>, now: u64) -> Result<
    ClaimsView,
    TokenError,
> {
    decode_outcome(encode_utf8(t), key, now)
}

fn push_be64(n: u64, out: &mut Vec<u8>)
    ensures
        final(out)@ == old(out)@ + be_bytes(n),
{
    out.push((n >> 56u64) as u8);
    out.push((n >> 48u64) as u8);
    out.push((n >> 40u64) as u8);
    out.push((n >> 32u64) as u8);
    out.push((n >> 24u64) as u8);
    out.push((n >> 16u64) as u8);
    out.push((n >> 8u64) as u8);
    out.push(n as u8);
    assert(final(out)@ =~= old(out)@ + be_bytes(n));
}

fn read_be64(b: &[u8], start: usize) -> (r: u64)
    requires
        start + 8 <= b@.len(),
    ensures
        r == be_value(b@.subrange(start as int, start + 8)),
{
    (b[start] as u64) << 56u64 | (b[start + 1] as u64) << 48u64 | (b[start + 2] as u64) << 40u64
        | (b[start + 3] as u64) << 32u64 | (b[start + 4] as u64) << 24u64 | (b[start + 5] as u64)
        << 16u64 | (b[start + 6] as u64) << 8u64 | (b[start + 7] as u64)
}

/// Bytes below 128 are valid UTF-8, and they decode to the characters of the
/// same codes.
proof fn lemma_ascii_text(b: Seq<u8>)
    requires
        forall|i: int| 0 <= i < b.len() ==> #[trigger] b[i] < 128,
    ensures
        encode_utf8(text_of(b)) == b,
        valid_utf8(b),
        decode_utf8(b) == text_of(b),
{
    let c = text_of(b);
    assert(vstd::utf8::is_ascii_chars(c)) by {
        assert forall|i: int| 0 <= i < c.len() implies '\0' <= #[trigger] c[i] <= '\u{7f}' by {
            assert(b[i] < 128);
        }
    }
    let e = encode_utf8(c);
    assert forall|i: int| 0 <= i < b.len() implies #[trigger] e[i] == b[i] by {
        assert(c[i] as u8 == e[i]);
    }
    assert(e =~= b);
}

proof fn lemma_token_ascii(c: ClaimsView, key: Seq<u8>)
    ensures
        forall|i: int|
            0 <= i < token_bytes(c, key).len() ==> #[trigger] token_bytes(c, key)[i] < 128,
{
    let p = payload_of(c);
    let t = token_bytes(c, key);
    lemma_hex_round_trip(p);
    lemma_hex_round_trip(hmac_sha256_of(key, p));
    assert forall|i: int| 0 <= i < t.len() implies #[trigger] t[i] < 128 by {
        let h = hex_of(p);
        if i < h.len() {
            assert(t[i] == h[i]);
        } else if i > h.len() {
            assert(t[i] == hex_of(hmac_sha256_of(key, p))[i - h.len() - 1]);
        }
    }
}

/// Signs the claims under the keys and returns the token text.
pub fn encode(claims: &Claims, keys: &SigningKeys) -> (r: String)
    ensures
        r@ == text_of(token_bytes(claims@, keys@)),
        encode_utf8(r@) == token_bytes(claims@, keys@),
{
    let mut payload: Vec<u8> = Vec::new();
    push_be64(claims.issued_at, &mut payload);
    push_be64(claims.expires_at, &mut payload);
    let name = claims.issuer.as_str().as_bytes();
    push_bytes(name, 0, name.len(), &mut payload);
    assert(name@.subrange(0, name@.len() as int) =~= name@);
    assert(payload@ =~= payload_of(claims@));
    let tag = hmac_sha256(keys.secret.as_slice(), payload.as_slice());
    let mut out: Vec<u8> = Vec::new();
    push_hex(payload.as_slice(), &mut out);
    out.push(46u8);
    push_hex(tag.as_slice(), &mut out);
    proof {
        assert(out@ =~= token_bytes(claims@, keys@));
        lemma_token_ascii(claims@, keys@);
        lemma_ascii_text(out@);
    }
    match string_from_utf8(out) {
        Some(s) => s,
        None => String::new(),
    }
}

/// Checks the token bytes `t` under the keys at time `now` and returns the
/// claims they carry.
pub fn decode_bytes(t: &[u8], keys: &SigningKeys, now: u64) -> (r: Result<Claims, TokenError>)
    ensures
        match r {
            Ok(c) => decode_outcome(t@, keys@, now) == Ok::<ClaimsView, TokenError>(c@),
            Err(e) => decode_outcome(t@, keys@, now) == Err::<ClaimsView, TokenError>(e),
        },
{
    let n = t.len();
    let mut d: usize = 0;
    while d < n && t[d] != 46u8
        invariant
            d <= n == t@.len(),
            forall|k: int| 0 <= k < d ==> #[trigger] t@[k] != 46u8,
        decreases n - d,
    {
        d = d + 1;
    }
    if d == n {
        assert(!exists|e: int| is_first_dot(t@, e));
        return Err(TokenError::Malformed);
    }
    proof {
        assert(is_first_dot(t@, d as int));
        let e = choose|e: int| is_first_dot(t@, e);
        lemma_first_dot_unique(t@, d as int, e);
    }
    let payload = match parse_hex(&t[0..d]) {
        Some(p) => p,
        None => {
            return Err(TokenError::Malformed);
        },
    };
    let tag = hmac_sha256(keys.secret.as_slice(), payload.as_slice());
    let mut expected: Vec<u8> = Vec::new();
    push_hex(tag.as_slice(), &mut expected);
    assert(expected@ =~= hex_of(tag@));
    if !same_bytes(&t[d + 1..n], expected.as_slice()) {
        return Err(TokenError::BadSignature);
    }
    let plen = payload.len();
    if plen < 16 {
        return Err(TokenError::Malformed);
    }
    let issued_at = read_be64(payload.as_slice(), 0);
    let expires_at = read_be64(payload.as_slice(), 8);
    let mut name: Vec<u8> = Vec::new();
    push_bytes(payload.as_slice(), 16, plen, &mut name);
    assert(name@ =~= payload@.subrange(16, plen as int));
    let issuer = match string_from_utf8(name) {
        Some(s) => s,
        None => {
            return Err(TokenError::Malformed);
        },
    };
    if expires_at < now {
        return Err(TokenError::Expired);
    }
    let c = Claims { issuer, issued_at, expires_at };
    assert(c@ == claims_of_payload(payload@)->0);
    Ok(c)
}

/// Checks the token text under the keys at time `now` and returns the claims
/// it carries. Expiry is checked on every call.
pub fn decode(token: &str, keys: &SigningKeys, now: u64) -> (r: Result<Claims, TokenError>)
    ensures
        match r {
            Ok(c) => decode_text(token@, keys@, now) == Ok::<ClaimsView, TokenError>(c@),
            Err(e) => decode_text(token@, keys@, now) == Err::<ClaimsView, TokenError>(e),
        },
{
    decode_bytes(token.as_bytes(), keys, now)
}

proof fn lemma_token_layout(c: ClaimsView, key: Seq<u8>)
    ensures
        split_token(token_bytes(c, key)) == Some::<(Seq<u8>, Seq<u8>)>(
            (payload_of(c), hex_of(hmac_sha256_of(key, payload_of(c)))),
        ),
{
    let p = payload_of(c);
    let h = hex_of(p);
    let g = hex_of(hmac_sha256_of(key, p));
    let t = token_bytes(c, key);
    lemma_hex_round_trip(p);
    let d = h.len() as int;
    assert forall|k: int| 0 <= k < d implies #[trigger] t[k] != 46u8 by {
        assert(t[k] == h[k]);
    }
    assert(is_first_dot(t, d));
    let e = choose|e: int| is_first_dot(t, e);
    lemma_first_dot_unique(t, d, e);
    assert(t.subrange(0, d) =~= h);
    assert(t.subrange(d + 1, t.len() as int) =~= g);
}

proof fn lemma_payload_claims(c: ClaimsView)
    ensures
        claims_of_payload(payload_of(c)) == Some(c),
{
    let p = payload_of(c);
    lemma_be_round_trip(c.issued_at);
    lemma_be_round_trip(c.expires_at);
    assert(p.subrange(16, p.len() as int) =~= encode_utf8(c.issuer));
    assert(p.subrange(8, 16) =~= be_bytes(c.expires_at));
    assert(be_value(p) == be_value(be_bytes(c.issued_at)));
}

proof fn lemma_decode_token(c: ClaimsView, key: Seq<u8>, now: u64)
    ensures
        decode_text(text_of(token_bytes(c, key)), key, now) == (if c.expires_at < now {
            Err::<ClaimsView, TokenError>(TokenError::Expired)
        } else {
            Ok::<ClaimsView, TokenError>(c)
        }),
{
    lemma_token_ascii(c, key);
    lemma_ascii_text(token_bytes(c, key));
    lemma_token_layout(c, key);
    lemma_payload_claims(c);
}

/// Round trip: a token checked with the keys that signed it, at a moment no
/// later than its expiry time, gives back exactly the claims it was made from.
pub proof fn lemma_round_trip(c: ClaimsView, key: Seq<u8>, now: u64)
    requires
        now <= c.expires_at,
    ensures
        decode_text(text_of(token_bytes(c, key)), key, now) == Ok::<ClaimsView, TokenError>(c),
{
    lemma_decode_token(c, key, now);
}

/// Expiry: a correctly signed token whose expiry time lies before the moment
/// of checking is refused as expired.
pub proof fn lemma_expired_rejected(c: ClaimsView, key: Seq<u8>, now: u64)
    requires
        c.expires_at < now,
    ensures
        decode_text(text_of(token_bytes(c, key)), key, now) == Err::<ClaimsView, TokenError>(
            TokenError::Expired,
        ),
{
    lemma_decode_token(c, key, now);
}

/// Tampering: changing any byte of the tag of a token that was accepted makes
/// the check fail on the signature.
pub proof fn lemma_tampered_tag_rejected(t: Seq<u8>, key: Seq<u8>, now: u64, i: int, x: u8)
    requires
        decode_outcome(t, key, now) is Ok,
        exists|d: int| is_first_dot(t, d) && d < i < t.len(),
        x != t[i],
    ensures
        decode_outcome(t.update(i, x), key, now) == Err::<ClaimsView, TokenError>(
            TokenError::BadSignature,
        ),
{
    let n = t.len();
    let u = t.update(i, x);
    let d = choose|d: int| is_first_dot(t, d) && d < i < t.len();
    assert(is_first_dot(u, d));
    let e = choose|e: int| is_first_dot(t, e);
    lemma_first_dot_unique(t, d, e);
    let f = choose|f: int| is_first_dot(u, f);
    lemma_first_dot_unique(u, d, f);
    assert(u.subrange(0, d) =~= t.subrange(0, d));
    assert(u.subrange(d + 1, n as int)[i - d - 1] != t.subrange(d + 1, n as int)[i - d - 1]);
}

/// Keys: a token signed under secret `a` is refused on the signature under
/// secret `b` whenever the two secrets give its payload different tags.
pub proof fn lemma_other_key_rejected(c: ClaimsView, a: Seq<u8>, b: Seq<u8>, now: u64)
    requires
        hmac_sha256_of(a, payload_of(c)) != hmac_sha256_of(b, payload_of(c)),
    ensures
        decode_text(text_of(token_bytes(c, a)), b, now) == Err::<ClaimsView, TokenError>(
            TokenError::BadSignature,
        ),
{
    let p = payload_of(c);
    lemma_token_ascii(c, a);
    lemma_ascii_text(token_bytes(c, a));
    lemma_token_layout(c, a);
    lemma_hex_round_trip(hmac_sha256_of(a, p));
    lemma_hex_round_trip(hmac_sha256_of(b, p));
}

} // verus!
