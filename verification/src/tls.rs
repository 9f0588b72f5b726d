use vstd::prelude::*;

use crate::config::TlsConfig;
use crate::error::{EnigmaRelayError, Result};

verus! {

/// What `rustls_pemfile::certs`, collected up to its first error, makes of a
/// PEM text: the DER bytes of each certificate section in order, or the text
/// of that error.
pub uninterp spec fn pem_certificates(pem: Seq<u8>) -> core::result::Result<Seq<Seq<u8>>, Seq<char>>;

/// What `rustls_pemfile::pkcs8_private_keys`, collected up to its first
/// error, makes of a PEM text: the DER bytes of each PKCS#8 key section in
/// order, or the text of that error.
pub uninterp spec fn pem_pkcs8_keys(pem: Seq<u8>) -> core::result::Result<Seq<Seq<u8>>, Seq<char>>;

/// The byte strings held by a list of buffers.
pub open spec fn der_list(v: Seq<Vec<u8>>) -> Seq<Seq<u8>> {
    v.map_values(|d: Vec<u8>| d@)
}

/// A parse outcome taken by its views.
pub open spec fn sections_view(r: core::result::Result<Vec<Vec<u8>>, String>) -> core::result::Result<Seq<Seq<u8>>, Seq<char>> {
    match r {
        Ok(v) => Ok(der_list(v@)),
        Err(e) => Err(e@),
    }
}

/// Calls `rustls_pemfile::certs` on the bytes and collects the sections until
/// the first error, each as its DER bytes, the error as its display text.
/// Claimed: the outcome is the named one for these bytes (reading from a
/// byte slice has no other source of failure).
#[verifier::external_body]
fn read_pem_certificates(pem: &[u8]) -> (r: core::result::Result<Vec<Vec<u8>>, String>)
    ensures
        sections_view(r) == pem_certificates(pem@),
{
    let mut reader: &[u8] = pem;
    rustls_pemfile::certs(&mut reader)
        .map(|item| item.map(|der| der.as_ref().to_vec()).map_err(|e| e.to_string()))
        .collect()
}

/// Calls `rustls_pemfile::pkcs8_private_keys` on the bytes and collects the
/// sections until the first error, each as its DER bytes, the error as its
/// display text. Claimed: the outcome is the named one for these bytes.
#[verifier::external_body]
fn read_pem_pkcs8_keys(pem: &[u8]) -> (r: core::result::Result<Vec<Vec<u8>>, String>)
    ensures
        sections_view(r) == pem_pkcs8_keys(pem@),
{
    let mut reader: &[u8] = pem;
    rustls_pemfile::pkcs8_private_keys(&mut reader)
        .map(|item| item.map(|der| der.secret_pkcs8_der().to_vec()).map_err(|e| e.to_string()))
        .collect()
}

/// The certificate chain and the private key that TLS is served with, as
/// DER bytes.
pub struct TlsIdentity {
    pub cert_chain: Vec<Vec<u8>>,
    pub key_der: Vec<u8>,
}

/// Reads the server's TLS identity out of the certificate and key files'
/// contents: every certificate of the first, in order, and the last PKCS#8
/// key of the second. A parse error of either file, a key file without a
/// PKCS#8 key, and a client CA (mutual TLS is not built in) are refused, in
/// that order.
pub fn tls_identity(tls: &TlsConfig, cert_pem: &[u8], key_pem: &[u8]) -> (r: Result<TlsIdentity>)
    ensures
        match pem_certificates(cert_pem@) {
            Err(m) => r matches Err(e) && (e matches EnigmaRelayError::Tls(t) && t@ == m),
            Ok(certs) => match pem_pkcs8_keys(key_pem@) {
                Err(m) => r matches Err(e) && (e matches EnigmaRelayError::Tls(t) && t@ == m),
                Ok(keys) => if keys.len() == 0 {
                    r matches Err(e) && (e matches EnigmaRelayError::Tls(t) && t@ == "no private key found"@)
                } else if tls.client_ca_pem_path is Some {
                    r matches Err(e) && (e matches EnigmaRelayError::Disabled(t) && t@ == "mtls feature not enabled"@)
                } else {
                    r matches Ok(id) && der_list(id.cert_chain@) == certs && id.key_der@ == keys.last()
                },
            },
        },
{
    let cert_chain = match read_pem_certificates(cert_pem) {
        Ok(c) => c,
        Err(e) => return Err(EnigmaRelayError::Tls(e)),
    };
    let mut keys = match read_pem_pkcs8_keys(key_pem) {
        Ok(k) => k,
        Err(e) => return Err(EnigmaRelayError::Tls(e)),
    };
    let ghost all_keys = keys@;
    let key_der = match keys.pop() {
        Some(k) => k,
        None => return Err(EnigmaRelayError::Tls("no private key found".to_owned())),
    };
    assert(der_list(all_keys).last() == key_der@);
    if tls.client_ca_pem_path.is_some() {
        return Err(EnigmaRelayError::Disabled("mtls feature not enabled".to_owned()));
    }
    Ok(TlsIdentity { cert_chain, key_der })
}

} // verus!
