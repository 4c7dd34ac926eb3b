//! Broker-account data: response envelopes, connection settings, and the
//! encrypt/decrypt handling of stored account credentials.
//!
//! The session itself — sockets, TLS, the wire protocol — is outside this
//! library; these types carry the plain data that the session layer needs
//! and that the portfolio stores.

use vstd::prelude::*;

use crate::crypt;
use crate::error::XtbError;

verus! {

/// The envelope every broker API response carries: a status flag and an
/// optional error code and description.
pub struct GenericResponse {
    pub status: bool,
    pub error_code: Option<String>,
    pub error_desc: Option<String>,
}

impl GenericResponse {
    /// The API error this envelope describes, empty strings standing in for
    /// absent fields.
    pub fn to_xtb_api_error(&self) -> (e: XtbError)
        ensures
            e matches XtbError::XtbApiError(c, d) && c@ == (match self.error_code {
                Option::Some(s) => s@,
                Option::None => Seq::<char>::empty(),
            }) && d@ == (match self.error_desc {
                Option::Some(s) => s@,
                Option::None => Seq::<char>::empty(),
            }),
    {
        let code: String = match &self.error_code {
            Some(s) => s.clone(),
            None => String::new(),
        };
        let desc: String = match &self.error_desc {
            Some(s) => s.clone(),
            None => String::new(),
        };
        XtbError::XtbApiError(code, desc)
    }
}

/// The account data the broker reports for the logged-in user.
pub struct CurrentUserData {
    pub currency: crate::amount::Currency,
}

/// Connection settings for a broker endpoint.
#[derive(Debug, Clone)]
pub struct XtbConfig {
    pub host: String,
    pub port: u16,
}

impl XtbConfig {
    pub fn new(host: String, port: u16) -> (c: XtbConfig)
        ensures
            c.host == host,
            c.port == port,
    {
        XtbConfig { host, port }
    }
}

/// A broker account: its identifier and its password, stored either
/// encrypted or in the clear, never meaningfully both.
#[derive(Debug, Clone)]
pub struct XtbAccount {
    pub account_id: String,
    pub encrypted_password: Option<String>,
    pub password: Option<String>,
}

impl XtbAccount {
    pub fn new(account_id: String, encrypted_password: Option<String>, password: Option<String>)
        -> (a: XtbAccount)
        ensures
            a.account_id == account_id,
            a.encrypted_password == encrypted_password,
            a.password == password,
    {
        XtbAccount { account_id, encrypted_password, password }
    }

    /// Decrypt the stored password under `key`, clearing the stored
    /// ciphertext.  Fails where no ciphertext is stored or decryption does.
    pub fn decrypt(&self, key: &str) -> (r: Result<XtbAccount, XtbError>)
        requires
            key@.len() >= 1,
        ensures
            match r {
                Ok(a) => {
                    &&& self.encrypted_password matches Some(ep)
                        && crypt::spec_decrypt(ep@, key@) matches Ok(t) && a.password matches Some(
                        p,
                    ) && p@ == t
                    &&& a.encrypted_password is None
                    &&& a.account_id == self.account_id
                },
                Err(e) => match self.encrypted_password {
                    Option::None => e == XtbError::PasswordMissing,
                    Option::Some(ep) => crypt::spec_decrypt(ep@, key@) matches Err(ce) && e
                        == XtbError::CryptError(ce),
                },
            },
    {
        match &self.encrypted_password {
            Some(encrypted_password) => {
                match crypt::decrypt_text(encrypted_password.as_str(), key) {
                    Ok(password) => Ok(
                        XtbAccount {
                            account_id: self.account_id.clone(),
                            encrypted_password: None,
                            password: Some(password),
                        },
                    ),
                    Err(e) => Err(XtbError::CryptError(e)),
                }
            },
            None => Err(XtbError::PasswordMissing),
        }
    }

    /// Encrypt the clear password under `key`, clearing the stored clear
    /// text.  The produced ciphertext decrypts back to the password.
    pub fn encrypt(&self, key: &str) -> (r: Result<XtbAccount, XtbError>)
        requires
            key@.len() >= 1,
            self.password matches Some(p) ==> p@.len() <= crypt::MAX_CIPHER_TEXT_LEN,
        ensures
            match r {
                Ok(a) => {
                    &&& self.password matches Some(p) && a.encrypted_password matches Some(ep)
                        && crypt::spec_decrypt(ep@, key@) == Result::<Seq<char>, crate::error::CryptError>::Ok(p@)
                    &&& a.password is None
                    &&& a.account_id == self.account_id
                },
                Err(e) => match self.password {
                    Option::None => e == XtbError::PasswordMissing,
                    Option::Some(_) => e matches XtbError::CryptError(_),
                },
            },
    {
        match &self.password {
            Some(password) => {
                match crypt::encrypt_text(password.as_str(), key) {
                    Ok(encrypted_password) => Ok(
                        XtbAccount {
                            account_id: self.account_id.clone(),
                            encrypted_password: Some(encrypted_password),
                            password: None,
                        },
                    ),
                    Err(e) => Err(XtbError::CryptError(e)),
                }
            },
            None => Err(XtbError::PasswordMissing),
        }
    }
}

} // verus!
