use portfel::crypt::{decrypt_text, encrypt_text, generate_iv, match_key_length};
use portfel::error::{CryptError, XtbError};
use portfel::xtb::{GenericResponse, XtbAccount, XtbConfig};

#[test]
fn short_key() {
    let key = "123";
    let text = "Hello, world!";
    let encrypted = encrypt_text(text, key);
    assert!(encrypted.is_ok());
}

#[test]
fn test_unique_every_time() {
    let key = "0123456789abcdef0123456789abcdef";
    let text = "Hello, world!";
    let encrypted = encrypt_text(text, key).unwrap();
    let encrypted2 = encrypt_text(text, key).unwrap();
    assert_ne!(encrypted, encrypted2);
}

#[test]
fn test_decrypt() {
    let key = "0123456789abcdef0123456789abcdef";
    let text = "Hello, world!";
    let encrypted = encrypt_text(text, key).unwrap();
    let decrypted = decrypt_text(&encrypted, key).unwrap();
    assert_eq!(text, decrypted);
}

#[test]
fn stretched_key_repeats_the_input() {
    assert_eq!(match_key_length("123", 32), "12312312312312312312312312312312");
    assert_eq!(match_key_length("abcdefgh", 4), "abcd");
}

#[test]
fn iv_has_the_requested_size() {
    assert_eq!(generate_iv(16).len(), 16);
    assert_eq!(generate_iv(0).len(), 0);
}

#[test]
fn garbage_is_not_decryptable() {
    let r = decrypt_text("@@@not-base64@@@", "key");
    assert_eq!(r, Err(CryptError::Base64Error));
    let r = decrypt_text("AAAA", "key");
    assert_eq!(r, Err(CryptError::TruncatedInput));
}

#[test]
fn wrong_key_does_not_reveal_the_text() {
    let encrypted = encrypt_text("Hello, world!", "right-key").unwrap();
    let r = decrypt_text(&encrypted, "wrong-key");
    assert_ne!(r.ok(), Some("Hello, world!".to_string()));
}

#[test]
fn account_password_roundtrip() {
    let account = XtbAccount::new("123456".to_string(), None, Some("hunter2".to_string()));
    let sealed = account.encrypt("master-key").unwrap();
    assert!(sealed.password.is_none());
    assert!(sealed.encrypted_password.is_some());
    let opened = sealed.decrypt("master-key").unwrap();
    assert_eq!(opened.password, Some("hunter2".to_string()));
    assert_eq!(opened.account_id, "123456");
}

#[test]
fn account_without_password_cannot_encrypt() {
    let account = XtbAccount::new("123456".to_string(), None, None);
    assert!(matches!(account.encrypt("k"), Err(XtbError::PasswordMissing)));
    assert!(matches!(account.decrypt("k"), Err(XtbError::PasswordMissing)));
}

#[test]
fn api_error_carries_code_and_description() {
    let resp = GenericResponse {
        status: false,
        error_code: Some("BE004".to_string()),
        error_desc: None,
    };
    match resp.to_xtb_api_error() {
        XtbError::XtbApiError(code, desc) => {
            assert_eq!(code, "BE004");
            assert_eq!(desc, "");
        }
        _ => panic!("expected an API error"),
    }
}

#[test]
fn config_keeps_host_and_port() {
    let c = XtbConfig::new("xapi.xtb.com".to_string(), 5124);
    assert_eq!(c.host, "xapi.xtb.com");
    assert_eq!(c.port, 5124);
}
