//! What addresses tell of how they are reached, and how a server is set to be reached.
use crate::conn::{tls_name, HttpConnErrorView};
use crate::encoding::{lemma_decimal_digits, lemma_number_of_decimal};
use crate::error::HttpErrorView;
use crate::http_server::{new_server, HttpServerConfig};
use crate::text::decimal;
use crate::tls::{chosen, pem_certs, pem_rsa_keys, tls_of, TlsView};
use crate::uri::{address, host_and_port_of, path_of, port_of, tls_scheme, UriView};
use crate::ws_server::{http_part, new_handler, HttpWsServerConfig};
use vstd::prelude::*;

verus! {

/// Whether an address is to be reached over TLS.
pub open spec fn over_tls(uri: UriView) -> bool {
    uri.scheme == "https"@ || uri.scheme == "wss"@
}

/// Whether an address is to be reached without TLS.
pub open spec fn in_the_clear(uri: UriView) -> bool {
    uri.scheme == "http"@ || uri.scheme == "ws"@
}

proof fn lemma_schemes()
    ensures
        "http"@.len() == 4,
        "https"@.len() == 5,
        "ws"@.len() == 2,
        "wss"@.len() == 3,
        !"http"@.contains(':'),
        !"https"@.contains(':'),
        !"ws"@.contains(':'),
        !"wss"@.contains(':'),
{
    reveal_strlit("http");
    reveal_strlit("https");
    reveal_strlit("ws");
    reveal_strlit("wss");
}

/// An address is reached over TLS, or without, as its scheme says; with another scheme it is not
/// reached at all. Its port is the one that it gives; where it gives none, it is 443 over TLS and
/// 80 without. The path is the one that it gives, or `/`.
pub proof fn law_scheme_tells_the_way(uri: UriView)
    ensures
        tls_scheme(uri.scheme) == Some(true) <==> over_tls(uri),
        tls_scheme(uri.scheme) == Some(false) <==> in_the_clear(uri),
        uri.port matches Some(port) ==> port_of(uri) == Ok::<u16, HttpErrorView>(port),
        uri.port is None && over_tls(uri) ==> port_of(uri) == Ok::<u16, HttpErrorView>(443),
        uri.port is None && in_the_clear(uri) ==> port_of(uri) == Ok::<u16, HttpErrorView>(80),
        uri.port is None && !over_tls(uri) && !in_the_clear(uri) ==> port_of(uri) == Err::<
            u16,
            HttpErrorView,
        >(HttpErrorView::InvalidURI("unexpected uri scheme: "@ + uri.scheme)),
        uri.path matches Some(path) ==> path_of(uri) == path,
        uri.path is None ==> path_of(uri) == "/"@,
{
    lemma_schemes();
}

/// The host and the port of an address are those that it has, if it has both.
pub proof fn law_host_and_port(uri: UriView)
    ensures
        match host_and_port_of(uri) {
            Ok((host, port)) => uri.host == Some(host) && port_of(uri) == Ok::<u16, HttpErrorView>(
                port,
            ),
            Err(e) => if uri.host is None {
                e == HttpErrorView::InvalidURI("missing host"@)
            } else {
                port_of(uri) == Err::<u16, HttpErrorView>(e)
            },
        },
{
}

/// Over TLS a server must prove the host of the address; without, it need not prove anything.
pub proof fn law_host_is_proved_over_tls(uri: UriView)
    ensures
        in_the_clear(uri) ==> tls_name(uri) == Ok::<Option<Seq<char>>, HttpConnErrorView>(None),
        over_tls(uri) ==> match uri.host {
            Some(host) => tls_name(uri) == Ok::<Option<Seq<char>>, HttpConnErrorView>(Some(host)),
            None => tls_name(uri) is Err,
        },
        !over_tls(uri) && !in_the_clear(uri) ==> tls_name(uri) is Err,
{
    lemma_schemes();
}

/// The last colon of an address is the one before its port.
proof fn lemma_last_colon(scheme: Seq<char>, host: Seq<char>, port: u16)
    ensures
        ({
            let text = address(scheme, host, port);
            let at = scheme.len() + 3 + host.len();
            &&& text.len() == at + 1 + decimal(port as nat).len()
            &&& text[at as int] == ':'
            &&& text.skip(at as int + 1) == decimal(port as nat)
            &&& text.take(at as int) == scheme + "://"@ + host
            &&& forall|i: int| at < i < text.len() ==> text[i] != ':'
        }),
{
    reveal_strlit("://");
    reveal_strlit(":");
    let text = address(scheme, host, port);
    let digits = decimal(port as nat);
    let at = (scheme.len() + 3 + host.len()) as int;
    lemma_decimal_digits(port as nat);
    assert(text.skip(at + 1) =~= digits);
    assert(text.take(at) =~= scheme + "://"@ + host);
    assert forall|i: int| at < i < text.len() implies text[i] != ':' by {
        assert(text[i] == digits[i - at - 1]);
    }
}

/// Connections are shared only between addresses with the same scheme, host and port: what such
/// addresses are known by is different otherwise.
pub proof fn law_addresses_are_told_apart(
    scheme: Seq<char>,
    host: Seq<char>,
    port: u16,
    other_scheme: Seq<char>,
    other_host: Seq<char>,
    other_port: u16,
)
    requires
        !scheme.contains(':'),
        !other_scheme.contains(':'),
    ensures
        address(scheme, host, port) == address(other_scheme, other_host, other_port) <==> scheme
            == other_scheme && host == other_host && port == other_port,
{
    let a = address(scheme, host, port);
    let b = address(other_scheme, other_host, other_port);
    if a == b {
        lemma_last_colon(scheme, host, port);
        lemma_last_colon(other_scheme, other_host, other_port);
        let at = (scheme.len() + 3 + host.len()) as int;
        let other = (other_scheme.len() + 3 + other_host.len()) as int;
        assert(at == other);
        lemma_number_of_decimal(port as nat);
        lemma_number_of_decimal(other_port as nat);
        assert(port == other_port);
        reveal_strlit("://");
        let x = scheme + "://"@ + host;
        let y = other_scheme + "://"@ + other_host;
        assert(x == y);
        let n = scheme.len() as int;
        let m = other_scheme.len() as int;
        assert(x[n] == ':');
        assert(y[m] == ':');
        if n < m {
            assert(y[n] == other_scheme[n]);
            assert(other_scheme.contains(other_scheme[n]));
        }
        if m < n {
            assert(x[m] == scheme[m]);
            assert(scheme.contains(scheme[m]));
        }
        assert(scheme =~= x.take(n));
        assert(other_scheme =~= y.take(n));
        assert(host =~= x.skip(n + 3));
        assert(other_host =~= y.skip(n + 3));
    }
}

/// A server over TLS shows all certificates and has the first of the keys; it cannot be reached
/// where the certificates or the keys cannot be read, or there is no key. It is over TLS where a
/// certificate or a key is given.
pub proof fn law_first_key_is_used(
    uses_tls: bool,
    certs: Option<Seq<Seq<u8>>>,
    keys: Option<Seq<Seq<u8>>>,
    cfg: HttpServerConfig,
)
    ensures
        !uses_tls ==> chosen(uses_tls, certs, keys) is Plain,
        uses_tls ==> match (certs, keys) {
            (Some(certs), Some(keys)) => if keys.len() > 0 {
                chosen(uses_tls, Some(certs), Some(keys)) == (TlsView::Identity {
                    certs,
                    key: keys[0],
                })
            } else {
                chosen(uses_tls, Some(certs), Some(keys)) is Unreadable
            },
            _ => chosen(uses_tls, certs, keys) is Unreadable,
        },
        tls_of(cfg) is Plain <==> cfg.tls_cert@.len() == 0 && cfg.tls_key@.len() == 0,
        !(tls_of(cfg) is Plain) ==> match (pem_certs(cfg.tls_cert@), pem_rsa_keys(cfg.tls_key@)) {
            (Some(certs), Some(keys)) => if keys.len() > 0 {
                tls_of(cfg) == (TlsView::Identity { certs, key: keys[0] })
            } else {
                tls_of(cfg) is Unreadable
            },
            _ => tls_of(cfg) is Unreadable,
        },
{
}

/// A new server is set as its configuration says, and has no connections and no streams yet.
pub proof fn law_new_servers<S>(cfg: HttpServerConfig, both: HttpWsServerConfig)
    ensures
        ({
            let s = new_server::<S>(cfg);
            &&& s.max_body == cfg.max_body_length
            &&& s.tls == tls_of(cfg)
            &&& s.conns.seq == 0
            &&& forall|id: usize| !(#[trigger] s.conns.conns.contains_key(id))
            &&& !s.accepted
        }),
        http_part(both).listen_addr == both.listen_addr,
        http_part(both).tls_cert == both.tls_cert,
        http_part(both).tls_key == both.tls_key,
        http_part(both).max_body_length == both.http_max_body_length,
        ({
            let h = new_handler::<S>(both.frame_size);
            &&& h.frame_size == both.frame_size
            &&& h.pending.len() == 0
            &&& h.opening is None
            &&& forall|id: usize| !(#[trigger] h.conns.contains_key(id))
        }),
{
}

} // verus!
