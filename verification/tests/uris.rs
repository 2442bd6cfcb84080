use http::{HttpConnError, HttpError, HttpParseError, Uri};

fn uri(text: &str) -> Uri {
    match Uri::try_new(text) {
        Some(Ok(uri)) => uri,
        _ => panic!("{}", text),
    }
}

#[test]
fn parts_of_an_address() {
    let u = uri("https://user@host.example:8443/a/b?c=d");
    assert_eq!(u.scheme(), "https");
    assert_eq!(u.host(), Ok("host.example"));
    assert_eq!(u.port(), Ok(8443));
    assert_eq!(u.path(), "/a/b");
    assert_eq!(u.is_tls(), Ok(true));
    assert_eq!(u.host_and_port(), Ok(("host.example", 8443)));
    assert_eq!(u.stream_info(), Ok("https://host.example:8443".to_owned()));
    assert_eq!(u.tag(), "https://host.example:8443");
    assert_eq!(u.parts().resource, "/a/b?c=d");
    assert_eq!(u.clone().to_string(), u.to_string());
}

#[test]
fn usual_ports() {
    assert_eq!(uri("http://h").port(), Ok(80));
    assert_eq!(uri("ws://h/").port(), Ok(80));
    assert_eq!(uri("https://h").port(), Ok(443));
    assert_eq!(uri("wss://h").port(), Ok(443));
    assert_eq!(uri("ws://h").is_tls(), Ok(false));
    assert_eq!(uri("wss://h").is_tls(), Ok(true));
    assert_eq!(uri("http://h").path(), "/");
}

#[test]
fn address_errors() {
    assert!(matches!(Uri::try_new(""), Some(Err(_))));
    let unknown = uri("ftp://h");
    let complaint = HttpError::InvalidURI("unexpected uri scheme: ftp".to_owned());
    assert_eq!(unknown.is_tls(), Err(complaint));
    assert!(unknown.port().is_err());
    assert!(unknown.stream_info().is_err());
    let word = uri("word");
    assert_eq!(word.scheme(), "word");
    assert_eq!(word.host(), Err(HttpError::InvalidURI("missing host".to_owned())));
    assert!(word.host_and_port().is_err());
}

#[test]
fn text_that_cannot_be_taken_apart() {
    assert!(Uri::try_new("a:\u{20ac}//").is_none());
    assert!(Uri::try_new("a:\u{e9}//").is_some());
    assert!(Uri::try_new(" http : // h ").is_some());
    assert!(matches!(Uri::try_new(":\u{20ac}//"), Some(Err(_))));
}

#[test]
fn name_for_tls() {
    assert_eq!(http::tls_client(&uri("https://h.example")).ok(), Some(Some("h.example".to_owned())));
    assert_eq!(http::tls_client(&uri("http://h.example")).ok(), Some(None));
    assert!(matches!(
        http::tls_client(&uri("ftp://h.example")),
        Err(HttpConnError::Error(HttpError::InvalidURI(_)))
    ));
}

#[test]
fn errors_in_words() {
    let text = |e: HttpError| e.text();
    assert_eq!(text(HttpError::ReadEOF), "ReadEOF");
    assert_eq!(text(HttpError::InvalidURI("a\"b\n".to_owned())), "InvalidURI(\"a\\\"b\\n\")");
    assert_eq!(text(HttpError::ParseError(HttpParseError::Token)), "ParseError(Token)");
    assert_eq!(
        text(HttpError::ParseResponseError("x".to_owned())),
        format!("{:?}", HttpError::ParseResponseError("x".to_owned()))
    );
    assert_eq!(text(HttpError::InvalidResponse), "InvalidResponse");
    assert_eq!(text(HttpError::BodyTooLarge), "BodyTooLarge");
}
