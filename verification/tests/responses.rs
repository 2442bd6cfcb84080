use http::{
    BufferVec, HttpError, HttpResponse, HttpResponseBuilder, HttpResponseReadState, ResponseFault,
    ResponseStep, StreamRead,
};

fn step(
    bytes: &[u8],
    header: &mut BufferVec,
    state: &mut HttpResponseReadState,
) -> ResponseStep {
    HttpResponse::read_from(Some(StreamRead::Data(bytes.to_vec())), header, state)
}

fn feed(bytes: &[u8]) -> (ResponseStep, BufferVec) {
    let mut header = BufferVec::new(8096);
    let mut state = HttpResponseReadState::Empty;
    let r = step(bytes, &mut header, &mut state);
    (r, header)
}

fn done(step: ResponseStep) -> HttpResponse {
    match step {
        ResponseStep::Done(response) => response,
        ResponseStep::NeedRead(n) => panic!("need {}", n),
        ResponseStep::NotReady => panic!("not ready"),
        ResponseStep::Failed(e) => panic!("{:?}", e),
        ResponseStep::Fault(e) => panic!("{:?}", e),
    }
}

#[test]
fn new_response_says_that_it_is_empty() {
    let text = String::from_utf8(HttpResponseBuilder::new(200).to_vec()).unwrap();
    assert_eq!(text, "HTTP/1.1 200 OK\r\nContent-Length: 0\r\n\r\n");
    let text = String::from_utf8(HttpResponseBuilder::not_found().to_vec()).unwrap();
    assert_eq!(text, "HTTP/1.1 404 Not Found\r\nContent-Length: 0\r\n\r\n");
}

#[test]
fn response_with_headers() {
    let r = HttpResponseBuilder::redirect("/elsewhere").keep_alive().build();
    assert_eq!(r.status, 302);
    assert_eq!(r.headers.get("location"), Some(&"/elsewhere".to_owned()));
    assert_eq!(r.headers.get("Connection"), Some(&"Keep-Alive".to_owned()));
    let r: HttpResponse = HttpResponseBuilder::new(200).json(b"{}".to_vec()).close().into();
    assert_eq!(r.headers.get("Content-Type"), Some(&"application/json".to_owned()));
    assert_eq!(r.headers.get("Content-Length"), Some(&"2".to_owned()));
    assert_eq!(r.headers.get("Connection"), Some(&"Close".to_owned()));
    assert_eq!(r.body, b"{}".to_vec());
}

#[test]
fn no_phrase_for_the_status() {
    assert!(HttpResponseBuilder::new(299).try_to_vec().is_none());
    assert!(HttpResponseBuilder::new(299).build().try_to_vec().is_none());
    assert!(HttpResponseBuilder::new(200).build().try_to_vec().is_some());
    let bytes = HttpResponseBuilder::new(299).build().to_vec_with("Odd");
    assert!(bytes.starts_with(b"HTTP/1.1 299 Odd\r\n"));
}

#[test]
fn response_is_read_back() {
    let r = HttpResponseBuilder::new(201)
        .header("X-Name", "a: b")
        .content_type("text/plain")
        .body(b"the body\r\n\r\nof it".to_vec())
        .build();
    let mut bytes = r.to_vec();
    bytes.extend_from_slice(b"HTTP/1.1 ");
    let (step, header) = feed(&bytes);
    let read = done(step);
    assert_eq!(read.status, 201);
    assert_eq!(read.body, b"the body\r\n\r\nof it".to_vec());
    assert_eq!(read.headers, r.headers);
    assert_eq!(header.read(), b"HTTP/1.1 ");
}

#[test]
fn response_in_parts() {
    let all = HttpResponseBuilder::new(200).body(b"0123456789".to_vec()).to_vec();
    for cut in 1..all.len() {
        let mut header = BufferVec::new(8096);
        let mut state = HttpResponseReadState::Empty;
        match step(&all[..cut], &mut header, &mut state) {
            ResponseStep::NotReady => {}
            ResponseStep::NeedRead(n) => assert_eq!(n, all.len() - cut),
            _ => panic!("cut at {}", cut),
        }
        let read = done(step(&all[cut..], &mut header, &mut state));
        assert_eq!(read.body, b"0123456789".to_vec());
        assert_eq!(header.len(), 0);
    }
}

#[test]
fn body_in_chunks() {
    let head = b"HTTP/1.1 200 OK\r\nTransfer-Encoding: chunked\r\n\r\n";
    let mut header = BufferVec::new(8096);
    let mut state = HttpResponseReadState::Empty;
    let mut first = head.to_vec();
    first.extend_from_slice(b"5\r\nhe");
    assert!(matches!(step(&first, &mut header, &mut state), ResponseStep::NeedRead(8096)));
    assert!(matches!(step(b"llo\r", &mut header, &mut state), ResponseStep::NotReady));
    let read = done(step(b"\n0\r\n\r\nmore", &mut header, &mut state));
    assert_eq!(read.body, b"hello".to_vec());
    assert_eq!(header.read(), b"more");
}

#[test]
fn body_that_is_not_there() {
    let (step, header) = feed(b"HTTP/1.1 204 No Content\r\nServer: x\r\n\r\n");
    assert!(done(step).body.is_empty());
    assert_eq!(header.len(), 0);
}

#[test]
fn response_errors() {
    let (step, _) = feed(b"HTTP/1.1 abc OK\r\n\r\n");
    match step {
        ResponseStep::Failed(HttpError::ParseResponseError(_)) => {}
        _ => panic!("parsed"),
    }
    let mut header = BufferVec::new(8);
    let mut state = HttpResponseReadState::Empty;
    let r = HttpResponse::read_from(
        Some(StreamRead::Data(b"HTTP/1.1".to_vec())),
        &mut header,
        &mut state,
    );
    assert!(matches!(r, ResponseStep::Failed(HttpError::ReadEOF)));
    let r = HttpResponse::read_from(Some(StreamRead::Eof), &mut header, &mut state);
    assert!(matches!(r, ResponseStep::Failed(HttpError::ReadEOF)));
    let mut header = BufferVec::new(8);
    let r = HttpResponse::read_from(Some(StreamRead::WouldBlock), &mut header, &mut state);
    assert!(matches!(r, ResponseStep::NotReady));
    let r = HttpResponse::read_from(None, &mut header, &mut state);
    assert!(matches!(r, ResponseStep::NeedRead(8)));
}

#[test]
fn response_faults() {
    let (step, _) = feed(b"HTTP/1.1 200 OK\r\n\r\n1\r\nabc");
    match step {
        ResponseStep::Fault(ResponseFault::IllegalBody(text)) => {
            assert_eq!(text, "chunks not follows with CR_LF")
        }
        _ => panic!("no fault"),
    }
    let (step, _) = feed(b"HTTP/1.1 200 OK\r\n\r\nffffffffffffffff\r\n");
    assert!(matches!(step, ResponseStep::Fault(ResponseFault::ChunkOverflow)));
}

fn read_in_parts(all: &[u8], size: usize, cap: usize) -> Vec<HttpResponse> {
    let mut header = BufferVec::new(cap);
    let mut state = HttpResponseReadState::Empty;
    let mut read = Vec::new();
    let mut at = 0;
    loop {
        let mut step = HttpResponse::read_from(None, &mut header, &mut state);
        let mut last = false;
        if let ResponseStep::NeedRead(n) = step {
            let count = n.min(size).min(all.len() - at);
            let event = if count == 0 {
                StreamRead::WouldBlock
            } else {
                StreamRead::Data(all[at..at + count].to_vec())
            };
            last = at == all.len();
            at += count;
            step = HttpResponse::read_from(Some(event), &mut header, &mut state);
        }
        match step {
            ResponseStep::NeedRead(_) | ResponseStep::NotReady => {
                if last {
                    return read;
                }
            }
            other => read.push(done(other)),
        }
    }
}

#[test]
fn responses_in_a_row_in_parts() {
    let first = HttpResponseBuilder::new(511).body(b"HTTP/1.1 200 OK\r\n\r\n".to_vec()).build();
    let second = HttpResponseBuilder::new(204).build();
    let third = HttpResponseBuilder::new(200).header("X-Name", "a").body(b"end".to_vec()).build();
    let mut all = first.to_vec();
    all.extend_from_slice(&second.to_vec());
    all.extend_from_slice(&third.to_vec());
    for cap in [80, 8096] {
        for size in 1..all.len() + 1 {
            let read = read_in_parts(&all, size, cap);
            assert_eq!(read.len(), 3);
            assert_eq!(read[0].status, 511);
            assert_eq!(read[0].body, first.body);
            assert_eq!(read[1].status, 204);
            assert!(read[1].body.is_empty());
            assert_eq!(read[2].headers, third.headers);
            assert_eq!(read[2].body, b"end".to_vec());
        }
    }
}

#[test]
fn longest_phrases() {
    let text = String::from_utf8(HttpResponseBuilder::new(511).to_vec()).unwrap();
    assert!(text.starts_with("HTTP/1.1 511 Network Authentication Required\r\n"));
    let text = String::from_utf8(HttpResponseBuilder::new(431).to_vec()).unwrap();
    assert!(text.starts_with("HTTP/1.1 431 Request Header Fields Too Large\r\n"));
    for code in 0..1000 {
        if let Some(bytes) = HttpResponseBuilder::new(code).try_to_vec() {
            let line = bytes.iter().position(|b| *b == b'\r').unwrap();
            assert!(line <= 13 + 31);
        }
    }
}

#[test]
fn responses_in_chunks_in_a_row() {
    let first = b"HTTP/1.1 200 OK\r\nTransfer-Encoding: chunked\r\n\r\n".to_vec();
    let chunks = b"00A\r\n0123456789\r\n3\r\nabc\r\n0\r\n\r\n".to_vec();
    let second = HttpResponseBuilder::new(200).body(b"end".to_vec()).to_vec();
    let mut all = first.clone();
    all.extend_from_slice(&chunks);
    all.extend_from_slice(&second);
    all.extend_from_slice(&first);
    all.extend_from_slice(&chunks);
    let begin = first.len();
    let again = first.len() + chunks.len() + second.len() + first.len();
    for cut in 1..all.len() {
        if begin <= cut && cut < begin + 5 || again <= cut && cut < again + 5 {
            continue;
        }
        let mut header = BufferVec::new(8096);
        let mut state = HttpResponseReadState::Empty;
        let mut read = Vec::new();
        for part in [&all[..cut], &all[cut..]] {
            let mut left: &[u8] = part;
            loop {
                let room = match HttpResponse::read_from(None, &mut header, &mut state) {
                    ResponseStep::NeedRead(n) => n,
                    other => panic!("{:?}", done(other).status),
                };
                let (now, later) = left.split_at(room.min(left.len()));
                left = later;
                let event = match now.len() {
                    0 => StreamRead::WouldBlock,
                    _ => StreamRead::Data(now.to_vec()),
                };
                match HttpResponse::read_from(Some(event), &mut header, &mut state) {
                    ResponseStep::NeedRead(_) | ResponseStep::NotReady => {
                        if left.is_empty() {
                            break;
                        }
                    }
                    other => read.push(done(other)),
                }
            }
        }
        assert_eq!(read.len(), 3, "cut at {}", cut);
        assert_eq!(read[0].body, b"0123456789abc".to_vec());
        assert_eq!(read[1].body, b"end".to_vec());
        assert_eq!(read[2].body, b"0123456789abc".to_vec());
        assert_eq!(header.len(), 0);
    }
}
