//! TLS material in PEM form: the certificates of a chain and the private
//! key. The PEM text is read by the `rustls-pemfile` crate; which key is
//! taken is decided here.

use crate::router::PeerIdentity;
use vstd::prelude::*;

verus! {

/// `std::io::Error`, taken as it is.
#[verifier::external_type_specification]
#[verifier::external_body]
pub struct ExIoError(std::io::Error);

/// The certificates that a PEM text holds, each in DER form, or nothing
/// where the text is malformed.
pub uninterp spec fn pem_certs(pem: Seq<u8>) -> Option<Seq<Seq<u8>>>;

/// The PKCS #8 private keys that a PEM text holds, or nothing where the
/// text is malformed.
pub uninterp spec fn pem_pkcs8_keys(pem: Seq<u8>) -> Option<Seq<Seq<u8>>>;

/// The PKCS #1 RSA private keys that a PEM text holds, or nothing where
/// the text is malformed.
pub uninterp spec fn pem_rsa_keys(pem: Seq<u8>) -> Option<Seq<Seq<u8>>>;

/// `rustls_pemfile::certs`: all certificates of the text, in its order.
#[verifier::external_body]
fn read_certs(pem: &[u8]) -> (r: Result<Vec<Vec<u8>>, std::io::Error>)
    ensures
        match r {
            Ok(found) => pem_certs(pem@) == Some(found.deep_view()),
            Err(_) => pem_certs(pem@) is None,
        },
{
    let mut rd = pem;
    rustls_pemfile::certs(&mut rd)
}

/// `rustls_pemfile::pkcs8_private_keys`: all PKCS #8 keys of the text, in
/// its order.
#[verifier::external_body]
fn read_pkcs8_keys(pem: &[u8]) -> (r: Result<Vec<Vec<u8>>, std::io::Error>)
    ensures
        match r {
            Ok(found) => pem_pkcs8_keys(pem@) == Some(found.deep_view()),
            Err(_) => pem_pkcs8_keys(pem@) is None,
        },
{
    let mut rd = pem;
    rustls_pemfile::pkcs8_private_keys(&mut rd)
}

/// `rustls_pemfile::rsa_private_keys`: all PKCS #1 RSA keys of the text,
/// in its order.
#[verifier::external_body]
fn read_rsa_keys(pem: &[u8]) -> (r: Result<Vec<Vec<u8>>, std::io::Error>)
    ensures
        match r {
            Ok(found) => pem_rsa_keys(pem@) == Some(found.deep_view()),
            Err(_) => pem_rsa_keys(pem@) is None,
        },
{
    let mut rd = pem;
    rustls_pemfile::rsa_private_keys(&mut rd)
}

/// Why no private key could be had from a PEM text.
#[derive(Debug, Clone, Copy, PartialEq, Eq)]
pub enum KeyError {
    /// The text is malformed where PKCS #8 keys are looked for.
    MalformedPkcs8,
    /// The text holds no PKCS #8 key and is malformed where PKCS #1 keys
    /// are looked for.
    MalformedPkcs1,
    /// The text holds no private key of either form.
    NoKey,
}

/// The PEM text is no list of certificates.
#[derive(Debug, Clone, Copy, PartialEq, Eq)]
pub struct InvalidCertificate;

/// The key that is taken, given what the text holds of each form: the
/// first PKCS #8 key, else the first PKCS #1 key.
pub open spec fn key_of(pkcs8: Option<Seq<Seq<u8>>>, rsa: Option<Seq<Seq<u8>>>) -> Result<
    Seq<u8>,
    KeyError,
> {
    match pkcs8 {
        None => Err(KeyError::MalformedPkcs8),
        Some(keys) => if keys.len() > 0 {
            Ok(keys[0])
        } else {
            match rsa {
                None => Err(KeyError::MalformedPkcs1),
                Some(keys) => if keys.len() > 0 {
                    Ok(keys[0])
                } else {
                    Err(KeyError::NoKey)
                },
            }
        },
    }
}

/// The first of the keys, if there is one.
pub fn first_key(keys: Vec<Vec<u8>>) -> (r: Option<Vec<u8>>)
    ensures
        match r {
            Some(key) => keys@.len() > 0 && key@ == keys@[0]@,
            None => keys@.len() == 0,
        },
{
    let mut keys = keys;
    if keys.len() > 0 {
        Some(keys.swap_remove(0))
    } else {
        None
    }
}

/// The private key of a PEM text: the first PKCS #8 key, else the first
/// PKCS #1 key.
pub fn key(pem: &[u8]) -> (r: Result<Vec<u8>, KeyError>)
    ensures
        match r {
            Ok(key) => key_of(pem_pkcs8_keys(pem@), pem_rsa_keys(pem@)) == Ok::<Seq<u8>, KeyError>(
                key@,
            ),
            Err(e) => key_of(pem_pkcs8_keys(pem@), pem_rsa_keys(pem@)) == Err::<Seq<u8>, KeyError>(
                e,
            ),
        },
{
    let pkcs8 = match read_pkcs8_keys(pem) {
        Ok(keys) => keys,
        Err(_) => {
            return Err(KeyError::MalformedPkcs8);
        },
    };
    proof {
        if pkcs8@.len() > 0 {
            assert(pkcs8.deep_view()[0] == pkcs8@[0]@);
        }
    }
    match first_key(pkcs8) {
        Some(key) => Ok(key),
        None => {
            let rsa = match read_rsa_keys(pem) {
                Ok(keys) => keys,
                Err(_) => {
                    return Err(KeyError::MalformedPkcs1);
                },
            };
            proof {
                if rsa@.len() > 0 {
                    assert(rsa.deep_view()[0] == rsa@[0]@);
                }
            }
            match first_key(rsa) {
                Some(key) => Ok(key),
                None => Err(KeyError::NoKey),
            }
        },
    }
}

/// The certificate chain of a PEM text: all its certificates, in order.
pub fn certs(pem: &[u8]) -> (r: Result<PeerIdentity, InvalidCertificate>)
    ensures
        match r {
            Ok(chain) => pem_certs(pem@) == Some(chain.deep_view()),
            Err(_) => pem_certs(pem@) is None,
        },
{
    match read_certs(pem) {
        Ok(chain) => Ok(chain),
        Err(_) => Err(InvalidCertificate),
    }
}

impl KeyError {
    /// The words of the failure.
    pub fn message(&self) -> (r: &'static str)
        ensures
            r@ == match self {
                KeyError::MalformedPkcs8 => "malformed PKCS #8 private key"@,
                KeyError::MalformedPkcs1 => "malformed PKCS #1 private key"@,
                KeyError::NoKey => "no private keys found"@,
            },
    {
        match self {
            KeyError::MalformedPkcs8 => "malformed PKCS #8 private key",
            KeyError::MalformedPkcs1 => "malformed PKCS #1 private key",
            KeyError::NoKey => "no private keys found",
        }
    }
}

impl InvalidCertificate {
    /// The words of the failure.
    pub fn message(&self) -> (r: &'static str)
        ensures
            r@ == "invalid PEM-encoded certificate"@,
    {
        "invalid PEM-encoded certificate"
    }
}

} // verus!
