//! What a server shows to clients that reach it over TLS.
use crate::http_server::HttpServerConfig;
use rustls::internal::pemfile;
use vstd::prelude::*;

verus! {

/// How a server is reached.
pub enum TlsChoice {
    /// Without TLS.
    Plain,
    /// Over TLS, with these certificates, its own first, and with the key to its own.
    Identity { certs: Vec<Vec<u8>>, key: Vec<u8> },
    /// It should be over TLS, but a certificate cannot be read, or a key, or there is no key. There
    /// is no answer to that but to stop.
    Unreadable,
}

/// What a [`TlsChoice`] stands for.
pub enum TlsView {
    Plain,
    Identity { certs: Seq<Seq<u8>>, key: Seq<u8> },
    Unreadable,
}

/// What a list of byte strings holds.
pub open spec fn byte_lists(list: Seq<Vec<u8>>) -> Seq<Seq<u8>> {
    list.map_values(|bytes: Vec<u8>| bytes@)
}

/// What a list of byte strings holds, if there is one.
pub open spec fn list_view(list: Option<Vec<Vec<u8>>>) -> Option<Seq<Seq<u8>>> {
    match list {
        Some(list) => Some(byte_lists(list@)),
        None => None,
    }
}

impl View for TlsChoice {
    type V = TlsView;

    open spec fn view(&self) -> TlsView {
        match *self {
            TlsChoice::Plain => TlsView::Plain,
            TlsChoice::Identity { certs, key } => TlsView::Identity {
                certs: byte_lists(certs@),
                key: key@,
            },
            TlsChoice::Unreadable => TlsView::Unreadable,
        }
    }
}

/// The certificates in a text in PEM, each as its bytes in DER; none where one cannot be decoded.
pub uninterp spec fn pem_certs(pem: Seq<u8>) -> Option<Seq<Seq<u8>>>;

/// The RSA keys in a text in PEM, each as its bytes in DER; none where one cannot be decoded.
pub uninterp spec fn pem_rsa_keys(pem: Seq<u8>) -> Option<Seq<Seq<u8>>>;

/// `rustls::internal::pemfile::certs` on bytes that are at hand: what it finds goes by the name
/// [`pem_certs`]. In an empty text it finds nothing.
#[verifier::external_body]
fn certs_in(pem: &[u8]) -> (r: Option<Vec<Vec<u8>>>)
    ensures
        list_view(r) == pem_certs(pem@),
        pem@.len() == 0 ==> list_view(r) == Some(Seq::<Seq<u8>>::empty()),
{
    let mut text = pem;
    match pemfile::certs(&mut text) {
        Ok(certs) => Some(certs.into_iter().map(|cert| cert.0).collect()),
        Err(_) => None,
    }
}

/// `rustls::internal::pemfile::rsa_private_keys` on bytes that are at hand: what it finds goes by
/// the name [`pem_rsa_keys`]. In an empty text it finds nothing.
#[verifier::external_body]
fn rsa_keys_in(pem: &[u8]) -> (r: Option<Vec<Vec<u8>>>)
    ensures
        list_view(r) == pem_rsa_keys(pem@),
        pem@.len() == 0 ==> list_view(r) == Some(Seq::<Seq<u8>>::empty()),
{
    let mut text = pem;
    match pemfile::rsa_private_keys(&mut text) {
        Ok(keys) => Some(keys.into_iter().map(|key| key.0).collect()),
        Err(_) => None,
    }
}

/// How a server is reached, given whether it is over TLS, and what its texts hold: the first key
/// is taken.
pub open spec fn chosen(
    uses_tls: bool,
    certs: Option<Seq<Seq<u8>>>,
    keys: Option<Seq<Seq<u8>>>,
) -> TlsView {
    if !uses_tls {
        TlsView::Plain
    } else if certs is None || keys is None || keys->0.len() == 0 {
        TlsView::Unreadable
    } else {
        TlsView::Identity { certs: certs->0, key: keys->0[0] }
    }
}

/// How a server is reached, given whether it is over TLS, and what its texts hold.
pub fn choose_tls(
    uses_tls: bool,
    certs: Option<Vec<Vec<u8>>>,
    keys: Option<Vec<Vec<u8>>>,
) -> (r: TlsChoice)
    ensures
        r@ == chosen(uses_tls, list_view(certs), list_view(keys)),
{
    if !uses_tls {
        return TlsChoice::Plain;
    }
    match (certs, keys) {
        (Some(certs), Some(keys)) => {
            if keys.len() == 0 {
                return TlsChoice::Unreadable;
            }
            let mut keys = keys;
            let ghost all = keys@;
            let key = keys.swap_remove(0);
            assert(key == all[0]);
            TlsChoice::Identity { certs, key }
        },
        _ => TlsChoice::Unreadable,
    }
}

/// How the server of a configuration is reached.
pub open spec fn tls_of(cfg: HttpServerConfig) -> TlsView {
    chosen(
        cfg.tls_cert@.len() > 0 || cfg.tls_key@.len() > 0,
        pem_certs(cfg.tls_cert@),
        pem_rsa_keys(cfg.tls_key@),
    )
}

/// How the server of a configuration is reached: over TLS if a certificate or a key is given.
pub fn tls_choice(cfg: &HttpServerConfig) -> (r: TlsChoice)
    ensures
        r@ == tls_of(*cfg),
        r@ is Plain <==> cfg.tls_cert@.len() == 0 && cfg.tls_key@.len() == 0,
        cfg.tls_cert@.len() > 0 && cfg.tls_key@.len() == 0 ==> r@ is Unreadable,
{
    let certs = certs_in(cfg.tls_cert.as_slice());
    let keys = rsa_keys_in(cfg.tls_key.as_slice());
    choose_tls(cfg.uses_tls(), certs, keys)
}

} // verus!
