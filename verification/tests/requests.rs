use http::{
    BufferVec, HttpError, HttpMethod, HttpParseError, HttpRequestBuilder, HttpRequestReadState,
    HttpRequestReader, RequestFault, RequestMethod, RequestStep, StreamRead, Uri,
};

fn feed(bytes: &[u8], max: Option<usize>) -> (RequestStep, BufferVec, HttpRequestReadState) {
    let mut header = BufferVec::new(8096);
    let mut state = HttpRequestReadState::Empty;
    let data = StreamRead::Data(bytes.to_vec());
    let step = HttpRequestReader::read_from(Some(data), &mut header, &mut state, max, None);
    (step, header, state)
}

fn done(step: RequestStep) -> HttpRequestReader {
    match step {
        RequestStep::Done(req) => req,
        other => panic!("{:?}", other),
    }
}

#[test]
fn methods_by_name() {
    assert_eq!(HttpMethod::from("GET"), HttpMethod::Get);
    assert_eq!(HttpMethod::from("get"), HttpMethod::Get);
    assert_eq!(HttpMethod::from("Post"), HttpMethod::Post);
    assert_eq!(HttpMethod::from("PUT"), HttpMethod::Put);
    assert_eq!(HttpMethod::from("options"), HttpMethod::Options);
    assert_eq!(HttpMethod::from("DELETE"), HttpMethod::Delete);
    assert_eq!(HttpMethod::from("HEAD"), HttpMethod::Head);
    assert_eq!(HttpMethod::from("CONNECT"), HttpMethod::Connect);
    assert_eq!(HttpMethod::from("PATCH"), HttpMethod::Unknown("PATCH".to_owned()));
    assert_eq!(RequestMethod::from_method(&HttpMethod::Put), Some(RequestMethod::Put));
    assert_eq!(RequestMethod::from_method(&HttpMethod::Connect), None);
}

#[test]
fn request_without_body() {
    let (step, header, state) = feed(
        b"GET /index.html?x=1 HTTP/1.1\r\nHost: a\r\nOrigin: http://b\r\n\r\nGET",
        None,
    );
    let req = done(step);
    assert_eq!(req.method(), HttpMethod::Get);
    assert_eq!(req.path(), "/index.html?x=1");
    assert_eq!(req.headers().len(), 64);
    assert_eq!(req.headers()[0].name, "Host");
    assert_eq!(req.headers()[0].value, b"a".to_vec());
    assert_eq!(req.headers()[2].name, "");
    assert_eq!(req.origin(), Some("http://b".to_owned()));
    assert!(req.body().is_empty());
    assert!(req.peer_ip().is_none());
    assert_eq!(req.request_size(), 59);
    assert_eq!(header.read(), b"GET");
    assert!(matches!(state, HttpRequestReadState::Empty));
}

#[test]
fn request_with_body_in_parts() {
    let all = b"POST / HTTP/1.1\r\ncontent-length: 5\r\n\r\nhello".to_vec();
    for cut in 38..all.len() {
        let (step, mut header, mut state) = feed(&all[..cut], None);
        match step {
            RequestStep::NeedRead(n) => assert_eq!(n, all.len() - cut),
            other => panic!("{:?}", other),
        }
        let data = StreamRead::Data(all[cut..].to_vec());
        let ip = Some("10.0.0.1".to_owned());
        let step = HttpRequestReader::read_from(Some(data), &mut header, &mut state, None, ip);
        let req = done(step);
        assert_eq!(req.body(), b"hello");
        assert_eq!(req.peer_ip(), Some(&"10.0.0.1".to_owned()));
        assert_eq!(req.request_size(), all.len());
    }
}

#[test]
fn head_in_parts() {
    let (step, mut header, mut state) = feed(b"GET / HT", None);
    assert!(matches!(step, RequestStep::NeedRead(8088)));
    let data = StreamRead::Data(b"TP/1.1\r\n\r\n".to_vec());
    let step = HttpRequestReader::read_from(Some(data), &mut header, &mut state, None, None);
    assert_eq!(done(step).path(), "/");
}

#[test]
fn nothing_came() {
    let mut header = BufferVec::new(16);
    let mut state = HttpRequestReadState::Empty;
    let step = HttpRequestReader::read_from(None, &mut header, &mut state, None, None);
    assert!(matches!(step, RequestStep::NeedRead(16)));
    let block = Some(StreamRead::WouldBlock);
    let step = HttpRequestReader::read_from(block, &mut header, &mut state, None, None);
    assert!(matches!(step, RequestStep::NotReady));
    let eof = Some(StreamRead::Eof);
    let step = HttpRequestReader::read_from(eof, &mut header, &mut state, None, None);
    assert!(matches!(step, RequestStep::Failed(HttpError::ReadEOF)));
    let failed = Some(StreamRead::Failed);
    let step = HttpRequestReader::read_from(failed, &mut header, &mut state, None, None);
    assert!(matches!(step, RequestStep::Failed(HttpError::ReadEOF)));
}

#[test]
fn request_errors() {
    let parse = |bytes: &[u8]| match feed(bytes, None).0 {
        RequestStep::Failed(HttpError::ParseError(e)) => e,
        other => panic!("{:?}", other),
    };
    assert_eq!(parse(b"GET / HTTP/3.1\r\n\r\n"), HttpParseError::Version);
    assert_eq!(parse(b"GET / HTTP/1.1\r\nA B: c\r\n\r\n"), HttpParseError::HeaderName);
    assert_eq!(parse(b"GET / HTTP/1.1\r\nA: \x01\r\n\r\n"), HttpParseError::HeaderValue);
    assert_eq!(parse(b"GET / HTTP/1.1\rx"), HttpParseError::NewLine);
    assert_eq!(parse(b"GET / HTTP/1.1\r\nContent-Length: x\r\n\r\n"), HttpParseError::HeaderValue);
    let mut many = b"GET / HTTP/1.1\r\n".to_vec();
    for i in 0..65 {
        many.extend_from_slice(format!("h{}: 1\r\n", i).as_bytes());
    }
    many.extend_from_slice(b"\r\n");
    assert_eq!(parse(&many), HttpParseError::TooManyHeaders);
}

#[test]
fn bad_token_waits() {
    let (step, _, _) = feed(b"\x01ET / HTTP/1.1\r\n\r\n", None);
    assert!(matches!(step, RequestStep::NeedRead(_)));
}

#[test]
fn too_large() {
    let bytes = b"POST / HTTP/1.1\r\nContent-Length: 100\r\n\r\n";
    assert!(matches!(feed(bytes, Some(139)).0, RequestStep::Failed(HttpError::BodyTooLarge)));
    assert!(matches!(feed(bytes, Some(140)).0, RequestStep::NeedRead(100)));
    let huge = format!("POST / HTTP/1.1\r\nContent-Length: {}\r\n\r\n", usize::MAX);
    let step = feed(huge.as_bytes(), None).0;
    assert!(matches!(step, RequestStep::Fault(RequestFault::SizeOverflow)));
    assert!(HttpRequestReader::try_request_size(huge.as_bytes()).is_none());
}

#[test]
fn sizes() {
    let bytes = b"POST / HTTP/1.1\r\nContent-Length: 7\r\n\r\n";
    assert_eq!(HttpRequestReader::get_request_size(bytes), Ok(Some(bytes.len() + 7)));
    assert_eq!(HttpRequestReader::try_request_size(bytes), Some(Ok(Some(bytes.len() + 7))));
    assert_eq!(HttpRequestReader::get_request_size(b"GET"), Ok(None));
}

#[test]
fn whole_request_at_once() {
    let buf = b"GET /x HTTP/1.1\r\n\r\nbody".to_vec();
    let req = match HttpRequestReader::new(buf, None) {
        Ok(Some(req)) => req,
        _ => panic!("no request"),
    };
    assert_eq!(req.path(), "/x");
    assert_eq!(req.body(), b"body");
    assert!(matches!(HttpRequestReader::new(b"GET /x".to_vec(), None), Ok(None)));
    assert!(matches!(
        HttpRequestReader::new(b"GET /x HTTP/9.9\r\n\r\n".to_vec(), None),
        Err(HttpError::ParseError(HttpParseError::Version))
    ));
}

fn uri(text: &str) -> Uri {
    match Uri::try_new(text) {
        Some(Ok(uri)) => uri,
        _ => panic!("{}", text),
    }
}

#[test]
fn request_as_it_is_sent() {
    let req = HttpRequestBuilder::new(HttpMethod::Get, uri("http://host.example/a/b?c=d"), None);
    let text = String::from_utf8(req.parse_msg()).unwrap();
    assert!(text.starts_with("GET /a/b?c=d HTTP/1.1\r\n"));
    assert!(text.contains("\r\nHost: host.example\r\n"));
    assert!(text.contains("\r\nReferer: http://host.example/a/b?c=d\r\n"));
    assert!(text.ends_with("\r\n\r\n"));
    assert!(!text.contains("Content-Length"));
    assert_eq!(req.uri().scheme(), "http");
}

#[test]
fn request_is_read_back() {
    let req = HttpRequestBuilder::new(
        HttpMethod::Post,
        uri("http://host.example:8080/path"),
        Some(b"some body".to_vec()),
    )
    .header("X-Name", "a value: with a colon");
    let mut bytes = req.parse_msg();
    bytes.extend_from_slice(b"tail");
    let (step, header, _) = feed(&bytes, None);
    let read = done(step);
    assert_eq!(header.read(), b"tail");
    assert_eq!(read.method(), HttpMethod::Post);
    assert_eq!(read.path(), "/path");
    assert_eq!(read.body(), b"some body");
    let value = |name: &str| {
        read.headers().iter().find(|h| h.name == name).map(|h| h.value.clone()).unwrap()
    };
    assert_eq!(value("Host"), b"host.example:8080".to_vec());
    assert_eq!(value("Content-Length"), b"9".to_vec());
    assert_eq!(value("X-Name"), b"a value: with a colon".to_vec());
}

#[test]
fn last_touch() {
    let req = HttpRequestBuilder::new_ex(uri("http://h/"), Some(b"x".to_vec()), |b| {
        b.method(RequestMethod::Put).header("A", "b")
    });
    let text = String::from_utf8(req.parse_msg()).unwrap();
    assert!(text.starts_with("PUT / HTTP/1.1\r\n"));
    assert!(text.contains("\r\nA: b\r\n"));
    assert!(text.contains("\r\nContent-Length: 1\r\n"));
    assert!(text.ends_with("\r\n\r\nx"));
}

fn read_in_parts(all: &[u8], size: usize, cap: usize) -> Vec<HttpRequestReader> {
    let mut header = BufferVec::new(cap);
    let mut state = HttpRequestReadState::Empty;
    let mut read = Vec::new();
    let mut at = 0;
    loop {
        let mut step = HttpRequestReader::read_from(None, &mut header, &mut state, None, None);
        let mut last = false;
        if let RequestStep::NeedRead(n) = step {
            let count = n.min(size).min(all.len() - at);
            let event = if count == 0 {
                StreamRead::WouldBlock
            } else {
                StreamRead::Data(all[at..at + count].to_vec())
            };
            last = at == all.len();
            at += count;
            step = HttpRequestReader::read_from(Some(event), &mut header, &mut state, None, None);
        }
        match step {
            RequestStep::Done(req) => read.push(req),
            RequestStep::NeedRead(_) | RequestStep::NotReady => {
                if last {
                    return read;
                }
            }
            other => panic!("{:?}", other),
        }
    }
}

#[test]
fn requests_in_a_row_in_parts() {
    let first = b"POST /a HTTP/1.1\r\nHost: h\r\nContent-Length: 12\r\n\r\nGET / HTTP/1";
    let second = b"GET /b HTTP/1.1\r\nHost: h\r\n\r\n";
    let third = b"PUT /c HTTP/1.1\r\ncontent-length: 3\r\n\r\nxyz";
    let mut all = first.to_vec();
    all.extend_from_slice(second);
    all.extend_from_slice(third);
    for cap in [60, 8096] {
        for size in 1..all.len() + 1 {
            let read = read_in_parts(&all, size, cap);
            assert_eq!(read.len(), 3);
            assert_eq!(read[0].path(), "/a");
            assert_eq!(read[0].body(), b"GET / HTTP/1");
            assert_eq!(read[0].request_size(), 61);
            assert_eq!(read[1].path(), "/b");
            assert!(read[1].body().is_empty());
            assert_eq!(read[2].method(), HttpMethod::Put);
            assert_eq!(read[2].body(), b"xyz");
        }
    }
}
