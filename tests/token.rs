use base64::Engine;
use hmac::Mac;
use sha2::Digest;
use teachserv::auth::Login;
use teachserv::token::TokenError;

const SECRET: &[u8] = b"test-secret";

fn token(expiry: i64, answer: &str, key: &[u8]) -> String {
    let mut payload: Vec<u8> = vec![1, 2, 3, 4, 5, 6, 7, 8];
    payload.extend_from_slice(&expiry.to_be_bytes());
    payload.extend_from_slice(&sha2::Sha256::digest(answer.as_bytes()));
    let mut mac = hmac::Hmac::<sha2::Sha256>::new_from_slice(key).expect("any key length");
    mac.update(&payload);
    payload.extend_from_slice(&mac.finalize().into_bytes());
    base64::engine::general_purpose::STANDARD.encode(payload)
}

fn login(token: Option<String>, captcha: Option<&str>) -> Login {
    Login {
        login: "1".to_string(),
        password: "p".to_string(),
        token,
        captcha: captcha.map(|s| s.to_string()),
    }
}

#[test]
fn good_token_is_accepted() {
    let t = token(1_000, "AbC12", SECRET);
    assert_eq!(Login::verify_signed_token_at(&t, "AbC12", SECRET, 999, 0), Ok(()));
    assert_eq!(Login::verify_signed_token_at(&t, "AbC12", SECRET, 1_000, 0), Ok(()));
}

#[test]
fn token_refusals() {
    let t = token(1_000, "AbC12", SECRET);
    assert_eq!(
        Login::verify_signed_token_at(&t, "abc12", SECRET, 999, 0),
        Err(TokenError::WrongAnswer)
    );
    assert_eq!(
        Login::verify_signed_token_at(&t, "AbC12", SECRET, 1_000, 1),
        Err(TokenError::Expired)
    );
    assert_eq!(
        Login::verify_signed_token_at(&t, "AbC12", b"other", 999, 0),
        Err(TokenError::InvalidSignature)
    );
    assert_eq!(
        Login::verify_signed_token_at("not base64!", "AbC12", SECRET, 999, 0),
        Err(TokenError::InvalidBase64)
    );
    let short = base64::engine::general_purpose::STANDARD.encode([0u8; 40]);
    assert_eq!(
        Login::verify_signed_token_at(&short, "AbC12", SECRET, 999, 0),
        Err(TokenError::TooShort)
    );
    let far = token(i64::MAX, "AbC12", SECRET);
    assert_eq!(
        Login::verify_signed_token_at(&far, "AbC12", SECRET, 999, 0),
        Err(TokenError::InvalidExpiry)
    );
}

#[test]
fn captcha_fields() {
    let t = token(4_000_000_000, "xyz", SECRET);
    assert_eq!(login(Some(t.clone()), Some("xyz")).check_captcha_at(SECRET, 10, 0), None);
    assert_eq!(login(Some(t.clone()), Some("xyz")).check_captcha(SECRET), None);
    assert_eq!(
        login(Some(t.clone()), None).check_captcha(SECRET),
        Some("Captcha required!".to_string())
    );
    assert_eq!(
        login(Some(t), Some("abc")).check_captcha(SECRET),
        Some("wrong answer".to_string())
    );
    let old = token(10, "xyz", SECRET);
    assert_eq!(
        login(Some(old), Some("xyz")).check_captcha(SECRET),
        Some("token expired".to_string())
    );
}

#[test]
fn token_of_other_length_is_refused() {
    let t = token(1_000, "AbC12", SECRET);
    let mut bytes = base64::engine::general_purpose::STANDARD.decode(&t).expect("valid");
    bytes.push(0);
    let longer = base64::engine::general_purpose::STANDARD.encode(&bytes);
    assert_eq!(
        Login::verify_signed_token_at(&longer, "AbC12", SECRET, 999, 0),
        Err(TokenError::InvalidSignature)
    );
}
