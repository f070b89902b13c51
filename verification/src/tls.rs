//! TLS material for termination: the certificate chain and the private key.

use vstd::prelude::*;

verus! {

/// Why TLS material cannot be used.
#[derive(Clone, Copy, Debug, PartialEq, Eq, Structural)]
pub enum TlsError {
    /// The certificate chain cannot be parsed.
    Chain,
    /// The text before a PKCS#8 key cannot be parsed.
    Pkcs8,
    /// The text before an RSA key cannot be parsed.
    Rsa,
    /// There is neither a PKCS#8 key nor an RSA key.
    NoKey,
}

/// A private key in DER.
pub enum PrivateKey {
    Pkcs8(Vec<u8>),
    Rsa(Vec<u8>),
}

/// The certificates, in DER, that `rustls_pemfile::certs` finds in a text, or none where it fails.
pub uninterp spec fn pem_certs(pem: Seq<u8>) -> Option<Seq<Seq<u8>>>;

/// The first PKCS#8 key, in DER, that `rustls_pemfile::pkcs8_private_keys` finds in a text, if it
/// finds one; an error where it fails before.
pub uninterp spec fn pem_pkcs8(pem: Seq<u8>) -> Result<Option<Seq<u8>>, ()>;

/// The first RSA key, in DER, that `rustls_pemfile::rsa_private_keys` finds in a text, if it finds
/// one; an error where it fails before.
pub uninterp spec fn pem_rsa(pem: Seq<u8>) -> Result<Option<Seq<u8>>, ()>;

/// The contents of some byte strings.
pub open spec fn contents(v: Seq<Vec<u8>>) -> Seq<Seq<u8>> {
    Seq::new(v.len(), |i: int| v[i]@)
}

/// The view of what was found.
pub open spec fn found(r: Result<Option<Vec<u8>>, ()>) -> Result<Option<Seq<u8>>, ()> {
    match r {
        Ok(Some(k)) => Ok(Some(k@)),
        Ok(None) => Ok(None),
        Err(()) => Err(()),
    }
}

/// Finds the certificates with `rustls_pemfile::certs`. Of the result it is claimed that it depends
/// on the text alone.
#[verifier::external_body]
fn find_certs(pem: &[u8]) -> (r: Option<Vec<Vec<u8>>>)
    ensures
        match r {
            Some(c) => pem_certs(pem@) == Some(contents(c@)),
            None => pem_certs(pem@) is None,
        },
{
    let mut rd: &[u8] = pem;
    rustls_pemfile::certs(&mut rd).map(|c| c.map(|d| d.to_vec())).collect::<Result<_, _>>().ok()
}

/// Finds the first PKCS#8 key with `rustls_pemfile::pkcs8_private_keys`. Of the result it is
/// claimed that it depends on the text alone.
#[verifier::external_body]
fn find_pkcs8(pem: &[u8]) -> (r: Result<Option<Vec<u8>>, ()>)
    ensures
        found(r) == pem_pkcs8(pem@),
{
    let mut rd: &[u8] = pem;
    let first = rustls_pemfile::pkcs8_private_keys(&mut rd).next();
    match first {
        Some(Ok(k)) => Ok(Some(k.secret_pkcs8_der().to_vec())),
        Some(Err(_)) => Err(()),
        None => Ok(None),
    }
}

/// Finds the first RSA key with `rustls_pemfile::rsa_private_keys`. Of the result it is claimed
/// that it depends on the text alone.
#[verifier::external_body]
fn find_rsa(pem: &[u8]) -> (r: Result<Option<Vec<u8>>, ()>)
    ensures
        found(r) == pem_rsa(pem@),
{
    let mut rd: &[u8] = pem;
    let first = rustls_pemfile::rsa_private_keys(&mut rd).next();
    match first {
        Some(Ok(k)) => Ok(Some(k.secret_pkcs1_der().to_vec())),
        Some(Err(_)) => Err(()),
        None => Ok(None),
    }
}

/// Reads a certificate chain.
pub fn read_chain(pem: &[u8]) -> (r: Result<Vec<Vec<u8>>, TlsError>)
    ensures
        match pem_certs(pem@) {
            Some(c) => r matches Ok(v) && contents(v@) == c,
            None => r matches Err(e) && e == TlsError::Chain,
        },
{
    match find_certs(pem) {
        Some(c) => Ok(c),
        None => Err(TlsError::Chain),
    }
}

/// The key to use, as its kind (true for PKCS#8) and its contents: the PKCS#8 key, or else the RSA
/// key.
pub open spec fn key_of(
    pkcs8: Result<Option<Seq<u8>>, ()>,
    rsa: Result<Option<Seq<u8>>, ()>,
) -> Result<(bool, Seq<u8>), TlsError> {
    match pkcs8 {
        Err(()) => Err(TlsError::Pkcs8),
        Ok(Some(k)) => Ok((true, k)),
        Ok(None) => match rsa {
            Err(()) => Err(TlsError::Rsa),
            Ok(Some(k)) => Ok((false, k)),
            Ok(None) => Err(TlsError::NoKey),
        },
    }
}

/// The view of a key.
pub open spec fn key_view(r: Result<PrivateKey, TlsError>) -> Result<(bool, Seq<u8>), TlsError> {
    match r {
        Ok(PrivateKey::Pkcs8(k)) => Ok((true, k@)),
        Ok(PrivateKey::Rsa(k)) => Ok((false, k@)),
        Err(e) => Err(e),
    }
}

/// Chooses the key to use.
pub fn choose_key(
    pkcs8: Result<Option<Vec<u8>>, ()>,
    rsa: Result<Option<Vec<u8>>, ()>,
) -> (r: Result<PrivateKey, TlsError>)
    ensures
        key_view(r) == key_of(found(pkcs8), found(rsa)),
{
    match pkcs8 {
        Err(()) => Err(TlsError::Pkcs8),
        Ok(Some(k)) => Ok(PrivateKey::Pkcs8(k)),
        Ok(None) => match rsa {
            Err(()) => Err(TlsError::Rsa),
            Ok(Some(k)) => Ok(PrivateKey::Rsa(k)),
            Ok(None) => Err(TlsError::NoKey),
        },
    }
}

/// Reads a private key: PKCS#8 first, and RSA where there is none.
pub fn read_key(pem: &[u8]) -> (r: Result<PrivateKey, TlsError>)
    ensures
        key_view(r) == key_of(pem_pkcs8(pem@), pem_rsa(pem@)),
{
    match find_pkcs8(pem) {
        Ok(None) => choose_key(Ok(None), find_rsa(pem)),
        other => choose_key(other, Ok(None)),
    }
}

/// The protocols that are offered, in the order of preference: HTTP/2 and HTTP/1.1.
pub fn alpn_protocols() -> (r: Vec<&'static str>)
    ensures
        r@.len() == 2,
        r@[0]@ == "h2"@,
        r@[1]@ == "http/1.1"@,
{
    vec!["h2", "http/1.1"]
}

/// Which key is used. A PKCS#8 key is used where one was found, whatever else there is; an RSA key
/// where no PKCS#8 key was. A text that cannot be parsed is an error, but what stands behind the
/// key that is used does not matter.
pub proof fn law_key_choice(k: Seq<u8>, rsa: Result<Option<Seq<u8>>, ()>)
    ensures
        key_of(Ok(Some(k)), rsa) == Ok::<(bool, Seq<u8>), TlsError>((true, k)),
        key_of(Ok(None), Ok(Some(k))) == Ok::<(bool, Seq<u8>), TlsError>((false, k)),
        key_of(Err(()), rsa) == Err::<(bool, Seq<u8>), TlsError>(TlsError::Pkcs8),
        key_of(Ok(None), Err(())) == Err::<(bool, Seq<u8>), TlsError>(TlsError::Rsa),
        key_of(Ok(None), Ok(None)) == Err::<(bool, Seq<u8>), TlsError>(TlsError::NoKey),
{
}

/// A key is known by its kind and its bytes.
pub proof fn law_key_view(k: Vec<u8>, e: TlsError)
    ensures
        key_view(Ok(PrivateKey::Pkcs8(k))) == Ok::<(bool, Seq<u8>), TlsError>((true, k@)),
        key_view(Ok(PrivateKey::Rsa(k))) == Ok::<(bool, Seq<u8>), TlsError>((false, k@)),
        key_view(Err(e)) == Err::<(bool, Seq<u8>), TlsError>(e),
{
}

/// The contents of byte strings are those of each of them, in their order.
pub proof fn law_contents(v: Seq<Vec<u8>>, i: int)
    requires
        0 <= i < v.len(),
    ensures
        contents(v).len() == v.len(),
        contents(v)[i] == v[i]@,
{
}

} // verus!
