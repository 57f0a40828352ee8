use vstd::prelude::*;
use crate::auth::Login;
use base64::Engine;
use hmac::Mac;
use sha2::Digest;
use vstd::string::StringSliceAdditionalSpecFns;
use vstd::utf8::encode_utf8;

verus! {

/// The bytes that a text decodes to in standard base64, if it is valid.
pub uninterp spec fn base64_decoded(s: Seq<char>) -> Option<Seq<u8>>;

/// The HMAC-SHA256 tag of a message under a key.
pub uninterp spec fn hmac_sha256(key: Seq<u8>, msg: Seq<u8>) -> Seq<u8>;

/// The SHA-256 digest of some bytes.
pub uninterp spec fn sha256_of(b: Seq<u8>) -> Seq<u8>;

/// Whether a Unix timestamp names an instant that the time library can hold.
pub uninterp spec fn unix_time_valid(t: int) -> bool;

/// Relies on `base64::engine::general_purpose::STANDARD.decode`: the decoded
/// bytes, or an error for text that is not valid base64.
#[verifier::external_body]
fn decode_base64(s: &str) -> (r: Option<Vec<u8>>)
    ensures
        match r {
            Some(v) => base64_decoded(s@) == Some(v@),
            None => base64_decoded(s@) is None,
        },
{
    base64::engine::general_purpose::STANDARD.decode(s).ok()
}

/// Relies on `hmac::Hmac::<sha2::Sha256>` with `new_from_slice` (which takes a
/// key of any length), `update` and `verify_slice`: the tag is accepted exactly
/// when it is the message's full tag, and `verify_slice` refuses any tag that
/// is not 32 bytes long.
#[verifier::external_body]
fn hmac_matches(key: &[u8], msg: &[u8], tag: &[u8]) -> (r: bool)
    ensures
        r == (tag@ == hmac_sha256(key@, msg@)),
        r ==> tag@.len() == 32,
{
    match hmac::Hmac::<sha2::Sha256>::new_from_slice(key) {
        Ok(mut mac) => {
            mac.update(msg);
            mac.verify_slice(tag).is_ok()
        },
        Err(_) => false,
    }
}

/// Relies on `sha2::Sha256::digest`: the 32-byte digest.
#[verifier::external_body]
fn sha256_digest(b: &[u8]) -> (r: Vec<u8>)
    ensures
        r@ == sha256_of(b@),
{
    sha2::Sha256::digest(b).to_vec()
}

/// Relies on `time::OffsetDateTime::from_unix_timestamp`: it succeeds exactly
/// on the timestamps that the library's dates can hold.
#[verifier::external_body]
fn unix_timestamp_ok(t: i64) -> (r: bool)
    ensures
        r == unix_time_valid(t as int),
{
    time::OffsetDateTime::from_unix_timestamp(t).is_ok()
}

/// Relies on `time::OffsetDateTime::now_utc`: the current instant as whole
/// seconds since the Unix epoch and the nanoseconds past them.
#[verifier::external_body]
fn now_utc() -> (r: (i64, u32))
    ensures
        r.1 < 1_000_000_000,
{
    let now = time::OffsetDateTime::now_utc();
    (now.unix_timestamp(), now.nanosecond())
}

/// Why a signed token was refused.
#[derive(Debug, PartialEq, Eq, Clone, Copy)]
pub enum TokenError {
    InvalidBase64,
    TooShort,
    InvalidSignature,
    InvalidExpiry,
    Expired,
    WrongAnswer,
    Missing,
}

impl TokenError {
    /// The message shown for a refusal.
    pub open spec fn message_text(&self) -> Seq<char> {
        match self {
            TokenError::InvalidBase64 => "invalid token base64"@,
            TokenError::TooShort => "token too short"@,
            TokenError::InvalidSignature => "invalid signature"@,
            TokenError::InvalidExpiry => "invalid expiry"@,
            TokenError::Expired => "token expired"@,
            TokenError::WrongAnswer => "wrong answer"@,
            TokenError::Missing => "Captcha required!"@,
        }
    }

    /// The message shown for the refusal.
    pub fn message(&self) -> (r: String)
        ensures
            r@ == self.message_text(),
            r@ == match self {
                TokenError::InvalidBase64 => "invalid token base64"@,
                TokenError::TooShort => "token too short"@,
                TokenError::InvalidSignature => "invalid signature"@,
                TokenError::InvalidExpiry => "invalid expiry"@,
                TokenError::Expired => "token expired"@,
                TokenError::WrongAnswer => "wrong answer"@,
                TokenError::Missing => "Captcha required!"@,
            },
    {
        match self {
            TokenError::InvalidBase64 => String::from_str("invalid token base64"),
            TokenError::TooShort => String::from_str("token too short"),
            TokenError::InvalidSignature => String::from_str("invalid signature"),
            TokenError::InvalidExpiry => String::from_str("invalid expiry"),
            TokenError::Expired => String::from_str("token expired"),
            TokenError::WrongAnswer => String::from_str("wrong answer"),
            TokenError::Missing => String::from_str("Captcha required!"),
        }
    }
}

/// A token's layout: nonce (8 bytes), expiry (8), answer hash (32), then the
/// 32-byte tag over those 48 bytes; a token of any other length is refused.
pub const PAYLOAD_LEN: usize = 48;

pub const TAG_LEN: usize = 32;

/// A big-endian integer of the bytes, most significant first.
pub open spec fn be_value(b: Seq<u8>) -> nat
    decreases b.len(),
{
    if b.len() == 0 {
        0
    } else {
        be_value(b.drop_last()) * 256 + b.last() as nat
    }
}

/// The expiry that a payload holds: its bytes 8 to 16 as a big-endian `i64`.
pub open spec fn expiry_of(payload: Seq<u8>) -> int {
    let v = be_value(payload.subrange(8, 16));
    if v < 0x8000_0000_0000_0000 {
        v as int
    } else {
        v - 0x1_0000_0000_0000_0000
    }
}

/// Whether the instant `(secs, nanos)` is after the whole second `t`.
pub open spec fn later_than(secs: int, nanos: int, t: int) -> bool {
    secs > t || (secs == t && nanos > 0)
}

/// The outcome of checking a decoded token against an answer at a given instant.
pub open spec fn token_outcome(
    bytes: Seq<u8>,
    answer: Seq<u8>,
    secret: Seq<u8>,
    secs: int,
    nanos: int,
) -> Result<(), TokenError> {
    if bytes.len() < PAYLOAD_LEN + TAG_LEN {
        Err(TokenError::TooShort)
    } else if bytes.len() != PAYLOAD_LEN + TAG_LEN || bytes.skip(PAYLOAD_LEN as int) != hmac_sha256(
        secret,
        bytes.take(PAYLOAD_LEN as int),
    ) {
        Err(TokenError::InvalidSignature)
    } else if !unix_time_valid(expiry_of(bytes)) {
        Err(TokenError::InvalidExpiry)
    } else if later_than(secs, nanos, expiry_of(bytes)) {
        Err(TokenError::Expired)
    } else if bytes.subrange(16, 48) != sha256_of(answer) {
        Err(TokenError::WrongAnswer)
    } else {
        Ok(())
    }
}

proof fn lemma_be_value_bound(b: Seq<u8>)
    ensures
        be_value(b) < pow256(b.len()),
    decreases b.len(),
{
    if b.len() > 0 {
        lemma_be_value_bound(b.drop_last());
    }
}

pub open spec fn pow256(n: nat) -> nat
    decreases n,
{
    if n == 0 {
        1
    } else {
        256 * pow256((n - 1) as nat)
    }
}

fn bytes_between(b: &[u8], from: usize, to: usize) -> (r: Vec<u8>)
    requires
        from <= to <= b@.len(),
    ensures
        r@ == b@.subrange(from as int, to as int),
{
    let mut r: Vec<u8> = Vec::new();
    let mut i: usize = from;
    while i < to
        invariant
            from <= i <= to <= b@.len(),
            r@ == b@.subrange(from as int, i as int),
        decreases to - i,
    {
        r.push(b[i]);
        i = i + 1;
        assert(r@ =~= b@.subrange(from as int, i as int));
    }
    r
}

fn bytes_equal(a: &[u8], b: &[u8]) -> (r: bool)
    ensures
        r == (a@ == b@),
{
    if a.len() != b.len() {
        return false;
    }
    let mut i: usize = 0;
    while i < a.len()
        invariant
            i <= a@.len(),
            a@.len() == b@.len(),
            forall|j: int| 0 <= j < i ==> a@[j] == b@[j],
        decreases a@.len() - i,
    {
        if a[i] != b[i] {
            return false;
        }
        i = i + 1;
    }
    assert(a@ =~= b@);
    true
}

/// The expiry field of a payload.
fn read_expiry(p: &[u8]) -> (r: i64)
    requires
        p@.len() >= 16,
    ensures
        r as int == expiry_of(p@),
{
    let ghost e = p@.subrange(8, 16);
    let mut acc: u64 = 0;
    let mut i: usize = 8;
    while i < 16
        invariant
            8 <= i <= 16 <= p@.len(),
            e == p@.subrange(8, 16),
            acc as nat == be_value(e.take(i - 8)),
        decreases 16 - i,
    {
        let ghost k = (i - 8) as int;
        assert(e.take(k + 1).drop_last() =~= e.take(k));
        proof {
            lemma_be_value_bound(e.take(k));
            reveal_with_fuel(pow256, 9);
            assert(pow256(7) == 0x100_0000_0000_0000);
            if k < 7 {
                lemma_pow256_monotone(k as nat, 7);
            }
        }
        acc = acc * 256 + p[i] as u64;
        i = i + 1;
    }
    assert(e.take(8) =~= e);
    if acc < 0x8000_0000_0000_0000 {
        acc as i64
    } else {
        (acc - 0x8000_0000_0000_0000) as i64 - 0x4000_0000_0000_0000 - 0x4000_0000_0000_0000
    }
}

proof fn lemma_pow256_monotone(a: nat, b: nat)
    requires
        a <= b,
    ensures
        pow256(a) <= pow256(b),
    decreases b - a,
{
    if a < b {
        lemma_pow256_monotone(a, (b - 1) as nat);
    }
}

/// Checks a signed token's bytes against an answer at the instant `(secs, nanos)`.
pub fn check_token_bytes(
    bytes: &Vec<u8>,
    answer: &str,
    secret: &[u8],
    secs: i64,
    nanos: u32,
) -> (r: Result<(), TokenError>)
    ensures
        r == token_outcome(bytes@, answer.spec_bytes(), secret@, secs as int, nanos as int),
{
    if bytes.len() < PAYLOAD_LEN + TAG_LEN {
        return Err(TokenError::TooShort);
    }
    let payload = bytes_between(bytes.as_slice(), 0, PAYLOAD_LEN);
    let tag = bytes_between(bytes.as_slice(), PAYLOAD_LEN, bytes.len());
    assert(payload@ =~= bytes@.take(PAYLOAD_LEN as int));
    assert(tag@ =~= bytes@.skip(PAYLOAD_LEN as int));
    if !hmac_matches(secret, payload.as_slice(), tag.as_slice()) {
        return Err(TokenError::InvalidSignature);
    }
    let expiry = read_expiry(payload.as_slice());
    assert(payload@.subrange(8, 16) =~= bytes@.subrange(8, 16));
    if !unix_timestamp_ok(expiry) {
        return Err(TokenError::InvalidExpiry);
    }
    if secs > expiry || (secs == expiry && nanos > 0) {
        return Err(TokenError::Expired);
    }
    let stored = bytes_between(bytes.as_slice(), 16, 48);
    let ab = answer.as_bytes();
    let h = sha256_digest(ab);
    if !bytes_equal(stored.as_slice(), h.as_slice()) {
        return Err(TokenError::WrongAnswer);
    }
    Ok(())
}

/// The refusal that a message names.
pub open spec fn message_error(m: Seq<char>) -> TokenError {
    if m == "invalid token base64"@ {
        TokenError::InvalidBase64
    } else if m == "token too short"@ {
        TokenError::TooShort
    } else if m == "invalid signature"@ {
        TokenError::InvalidSignature
    } else if m == "invalid expiry"@ {
        TokenError::InvalidExpiry
    } else if m == "token expired"@ {
        TokenError::Expired
    } else if m == "wrong answer"@ {
        TokenError::WrongAnswer
    } else {
        TokenError::Missing
    }
}

/// Each refusal has its own message.
pub proof fn lemma_message_error(e: TokenError)
    ensures
        message_error(e.message_text()) == e,
{
    reveal_strlit("invalid token base64");
    reveal_strlit("token too short");
    reveal_strlit("invalid signature");
    reveal_strlit("invalid expiry");
    reveal_strlit("token expired");
    reveal_strlit("wrong answer");
    reveal_strlit("Captcha required!");
    assert("invalid token base64"@[0] != "token too short"@[0]);
    assert("invalid token base64"@[8] != "invalid signature"@[8]);
    assert("invalid token base64"@[8] != "invalid expiry"@[8]);
    assert("invalid signature"@[8] != "invalid expiry"@[8]);
    assert("token too short"@[6] != "token expired"@[6]);
    assert("invalid token base64"@[0] != "wrong answer"@[0]);
    assert("invalid token base64"@[0] != "token expired"@[0]);
    assert("invalid signature"@[0] != "token too short"@[0]);
    assert("invalid signature"@[0] != "token expired"@[0]);
    assert("invalid signature"@[0] != "wrong answer"@[0]);
    assert("invalid expiry"@[0] != "token too short"@[0]);
    assert("invalid expiry"@[0] != "token expired"@[0]);
    assert("invalid expiry"@[0] != "wrong answer"@[0]);
    assert("token too short"@[0] != "wrong answer"@[0]);
    assert("token expired"@[0] != "wrong answer"@[0]);
    assert("Captcha required!"@[0] != "invalid token base64"@[0]);
    assert("Captcha required!"@[0] != "token too short"@[0]);
    assert("Captcha required!"@[0] != "invalid signature"@[0]);
    assert("Captcha required!"@[0] != "invalid expiry"@[0]);
    assert("Captcha required!"@[0] != "token expired"@[0]);
    assert("Captcha required!"@[0] != "wrong answer"@[0]);
}

/// What checking a base64 token against an answer at `(secs, nanos)` gives.
pub open spec fn signed_token_outcome(
    token_b64: Seq<char>,
    answer: Seq<u8>,
    secret: Seq<u8>,
    secs: int,
    nanos: int,
) -> Result<(), TokenError> {
    match base64_decoded(token_b64) {
        Some(b) => token_outcome(b, answer, secret, secs, nanos),
        None => Err(TokenError::InvalidBase64),
    }
}

/// What the captcha fields of a login give at `(secs, nanos)`: nothing when
/// the token is good, else why it is refused.
pub open spec fn captcha_outcome(login: Login, secret: Seq<u8>, secs: int, nanos: int) -> Option<
    TokenError,
> {
    match (login.token, login.captcha) {
        (Some(t), Some(c)) => match signed_token_outcome(t@, encode_utf8(c@), secret, secs, nanos) {
            Ok(()) => None,
            Err(e) => Some(e),
        },
        _ => Some(TokenError::Missing),
    }
}

impl Login {
    /// Checks a signed token against the answer at the instant `(secs, nanos)`.
    pub fn verify_signed_token_at(
        token_b64: &str,
        user_answer: &str,
        secret: &[u8],
        secs: i64,
        nanos: u32,
    ) -> (r: Result<(), TokenError>)
        ensures
            r == signed_token_outcome(
                token_b64@,
                user_answer.spec_bytes(),
                secret@,
                secs as int,
                nanos as int,
            ),
    {
        match decode_base64(token_b64) {
            Some(bytes) => check_token_bytes(&bytes, user_answer, secret, secs, nanos),
            None => Err(TokenError::InvalidBase64),
        }
    }

    /// Checks a signed token against the answer now: the signature must be the
    /// secret's tag of the payload, the expiry not passed, and the answer's
    /// digest the one stored.
    pub fn verify_signed_token(token_b64: &str, user_answer: &str, secret: &[u8]) -> (r: Result<
        (),
        TokenError,
    >)
        ensures
            exists|secs: int, nanos: int|
                r == signed_token_outcome(token_b64@, user_answer.spec_bytes(), secret@, secs, nanos),
    {
        let (secs, nanos) = now_utc();
        let r = Login::verify_signed_token_at(token_b64, user_answer, secret, secs, nanos);
        assert(r == signed_token_outcome(
            token_b64@,
            user_answer.spec_bytes(),
            secret@,
            secs as int,
            nanos as int,
        ));
        r
    }

    /// Why the login's captcha is refused at `(secs, nanos)`, or nothing when it
    /// is good; a login without token or answer is refused.
    pub fn check_captcha_at(&self, secret: &[u8], secs: i64, nanos: u32) -> (r: Option<TokenError>)
        ensures
            r == captcha_outcome(*self, secret@, secs as int, nanos as int),
    {
        match (&self.token, &self.captcha) {
            (Some(t), Some(c)) => match Login::verify_signed_token_at(
                t.as_str(),
                c.as_str(),
                secret,
                secs,
                nanos,
            ) {
                Ok(()) => None,
                Err(e) => Some(e),
            },
            _ => Some(TokenError::Missing),
        }
    }

    /// The message refusing the login's captcha now, or nothing when it is good.
    pub fn check_captcha(&self, secret: &[u8]) -> (r: Option<String>)
        ensures
            exists|secs: int, nanos: int|
                #[trigger] captcha_outcome(*self, secret@, secs, nanos) == match r {
                    Some(m) => Some(message_error(m@)),
                    None => None::<TokenError>,
                } && (r matches Some(m) ==> m@ == message_error(m@).message_text()),
    {
        let (secs, nanos) = now_utc();
        let r = match self.check_captcha_at(secret, secs, nanos) {
            Some(e) => Some(e.message()),
            None => None,
        };
        proof {
            if let Some(e) = captcha_outcome(*self, secret@, secs as int, nanos as int) {
                lemma_message_error(e);
            }
        }
        r
    }
}

} // verus!
