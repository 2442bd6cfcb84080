use http::{
    get_websocket_ctx, read_handshake_response, try_get_websocket_ctx, BlockingStep, BufferVec,
    ConnReadEvent, HttpConnError, HttpConnServer, HttpRequestReader, HttpResponse,
    HttpResponseBuilder, HttpResponseReadState, IOError, ResponseStep, ServerStep, StreamRead, Uri,
    WsAcceptEvent, WsAcceptFault, WsAcceptStep, WsConnectEvent, WsConnectStep, WsDataType, WsError,
    WsHandshakeError, WsReadEvent, WsReadStep, WsStreamClient, WsStreamConfig, WsStreamServer,
    WsWriteStep,
};

fn uri(text: &str) -> Uri {
    match Uri::try_new(text) {
        Some(Ok(uri)) => uri,
        _ => panic!("{}", text),
    }
}

fn config(frame_size: usize) -> WsStreamConfig {
    WsStreamConfig {
        endpoint: uri("ws://h.example/chat"),
        frame_size,
        keep_alive: None,
        auto_reconnect: false,
    }
}

fn request(bytes: &[u8]) -> HttpRequestReader {
    match HttpRequestReader::new(bytes.to_vec(), None) {
        Ok(Some(req)) => req,
        _ => panic!("no request"),
    }
}

fn response(bytes: &[u8]) -> HttpResponse {
    let mut header = BufferVec::new(8096);
    let mut state = HttpResponseReadState::Empty;
    let data = StreamRead::Data(bytes.to_vec());
    match HttpResponse::read_from(Some(data), &mut header, &mut state) {
        ResponseStep::Done(r) => r,
        _ => panic!("no response"),
    }
}

/// What a client sends for a handshake.
fn asked(client: &mut WsStreamClient<u8>) -> Vec<u8> {
    asked_with(client, [7u8; 32])
}

/// What a client sends for a handshake, given what its random numbers start from.
fn asked_with(client: &mut WsStreamClient<u8>, seed: [u8; 32]) -> Vec<u8> {
    assert!(matches!(client.connect(true, WsConnectEvent::Start), WsConnectStep::Open));
    assert!(matches!(
        client.connect(true, WsConnectEvent::Opened(1, seed)),
        WsConnectStep::Send
    ));
    let conn = client.handshake_conn().unwrap();
    let bytes = conn.unsent().to_vec();
    conn.sent(bytes.len());
    assert!(matches!(
        client.connect(true, WsConnectEvent::Sent(Ok(()))),
        WsConnectStep::Flush
    ));
    assert!(matches!(
        client.connect(true, WsConnectEvent::Conn(ConnReadEvent::Flushed(Ok(())))),
        WsConnectStep::NeedRead(8096)
    ));
    bytes
}

/// What a server answers to a handshake.
fn answered(server: &mut WsStreamServer<u8>, bytes: &[u8]) -> Vec<u8> {
    let start = WsAcceptEvent::Start(None);
    assert!(matches!(server.server_handshake(true, None, 0, start, None), WsAcceptStep::Flush));
    let flushed = WsAcceptEvent::Conn(ConnReadEvent::Flushed(Ok(())));
    assert!(matches!(
        server.server_handshake(true, None, 0, flushed, None),
        WsAcceptStep::NeedRead(8096)
    ));
    let data = ConnReadEvent::Read(StreamRead::Data(bytes.to_vec()));
    assert!(matches!(
        server.server_handshake(true, None, 0, WsAcceptEvent::Conn(data), None),
        WsAcceptStep::Send
    ));
    let conn = server.handshake_conn().unwrap();
    let bytes = conn.unsent().to_vec();
    conn.sent(bytes.len());
    assert!(matches!(
        server.server_handshake(true, None, 0, WsAcceptEvent::Sent(Ok(())), None),
        WsAcceptStep::Connected
    ));
    bytes
}

/// A client and a server that are connected.
fn pair(frame_size: usize) -> (WsStreamClient<u8>, WsStreamServer<u8>) {
    let mut client: WsStreamClient<u8> = WsStreamClient::new(config(frame_size), 0);
    let mut server: WsStreamServer<u8> = WsStreamServer::accept(2, frame_size, 0);
    let request = asked(&mut client);
    let answer = answered(&mut server, &request);
    let data = ConnReadEvent::Read(StreamRead::Data(answer));
    assert!(matches!(client.connect(true, WsConnectEvent::Conn(data)), WsConnectStep::Connected));
    assert!(client.is_connected());
    assert!(server.is_connected());
    (client, server)
}

fn out_of_client(client: &mut WsStreamClient<u8>) -> Vec<u8> {
    let bytes = client.unsent().to_vec();
    client.sent(bytes.len());
    assert!(client.after_write(Ok(())).is_ok());
    bytes
}

fn out_of_server(server: &mut WsStreamServer<u8>) -> Vec<u8> {
    let bytes = server.unsent().to_vec();
    server.sent(bytes.len());
    assert!(server.after_write(Ok(())).is_ok());
    bytes
}

#[test]
fn handshake() {
    let (mut client, server) = pair(0);
    assert_eq!(server.endpoint().path(), "/chat");
    assert_eq!(client.epoch(), 2);
    assert_eq!(server.epoch(), 1);
    assert_eq!(client.stream_mut().map(|s| *s), Some(1));
}

#[test]
fn words_of_the_handshake() {
    let mut client: WsStreamClient<u8> = WsStreamClient::new(config(0), 0);
    let text = String::from_utf8(asked(&mut client)).unwrap();
    assert!(text.starts_with("GET /chat HTTP/1.1\r\nHost: h.example\r\nUpgrade: websocket\r\n"));
    let req = request(text.as_bytes());
    let ctx = get_websocket_ctx(&req).unwrap().unwrap();
    assert_eq!(ctx.sec_websocket_key.len(), 24);
    assert_eq!(ctx.sec_websocket_protocol_list, vec!["".to_owned()]);
}

#[test]
fn key_comes_of_the_seed() {
    let ask = |seed: u8| {
        let mut client: WsStreamClient<u8> = WsStreamClient::new(config(0), 0);
        asked_with(&mut client, [seed; 32])
    };
    assert_eq!(ask(7), ask(7));
    assert_ne!(ask(7), ask(8));
}

#[test]
fn known_answer_to_a_known_key() {
    let bytes = b"GET /x HTTP/1.1\r\nUpgrade: websocket\r\n\
        Sec-WebSocket-Key: dGhlIHNhbXBsZSBub25jZQ==\r\n\r\n";
    let mut server: WsStreamServer<u8> = WsStreamServer::accept(2, 0, 0);
    let answer = String::from_utf8(answered(&mut server, bytes)).unwrap();
    assert_eq!(
        answer,
        "HTTP/1.1 101 Switching Protocols\r\nConnection: Upgrade\r\nUpgrade: websocket\r\n\
         Sec-WebSocket-Accept: s3pPLMBiTxaQ9kYGzzhZRbK+xOo=\r\n\r\n"
    );
    let r = response(answer.as_bytes());
    assert_eq!(read_handshake_response(&r, "dGhlIHNhbXBsZSBub25jZQ=="), Ok(None));
    assert_eq!(
        read_handshake_response(&r, "another key"),
        Err(WsHandshakeError::AcceptStringInvalid)
    );
    let other = HttpResponseBuilder::new(200).build();
    let e = WsHandshakeError::HttpResponseCodeInvalid(Some(200));
    assert_eq!(read_handshake_response(&other, "key"), Err(e));
    assert_eq!(e.text(), "HttpResponseCodeInvalid(Some(200))");
}

#[test]
fn requests_for_a_websocket() {
    assert!(get_websocket_ctx(&request(b"GET / HTTP/1.1\r\n\r\n")).unwrap().is_none());
    assert!(get_websocket_ctx(&request(b"GET / HTTP/1.1\r\nUpgrade: h2c\r\n\r\n"))
        .unwrap()
        .is_none());
    let bad = request(b"GET / HTTP/1.1\r\nUpgrade: \xff\r\n\r\n");
    assert_eq!(get_websocket_ctx(&bad).err(), Some(WsHandshakeError::Utf8Error));
    let listed = request(
        b"GET / HTTP/1.1\r\nUpgrade: websocket\r\nSec-WebSocket-Protocol: a, b, c, d\r\n\r\n",
    );
    let ctx = get_websocket_ctx(&listed).unwrap().unwrap();
    assert_eq!(
        ctx.sec_websocket_protocol_list,
        vec!["a".to_owned(), "b".to_owned(), "c".to_owned()]
    );
    assert_eq!(ctx.sec_websocket_key, "");
    let long = request(
        b"GET / HTTP/1.1\r\nUpgrade: websocket\r\nSec-WebSocket-Key: 0123456789012345678901234\r\n\r\n",
    );
    assert!(try_get_websocket_ctx(&long).is_none());
}

#[test]
fn messages_go_both_ways() {
    for frame_size in [0usize, 6, 8, 100].iter() {
        let (mut client, mut server) = pair(*frame_size);
        for size in [1usize, 5, 6, 7, 12, 13, 30].iter() {
            if *frame_size == 6 && *size > 12 {
                continue;
            }
            let message: Vec<u8> = (0..*size).map(|i| i as u8).collect();
            assert!(matches!(
                client.write_ty(true, 1, WsDataType::Text, &message),
                WsWriteStep::Send
            ));
            let bytes = out_of_client(&mut client);
            let mut data: Vec<u8> = Vec::new();
            let mut step = server.read(true, 2, WsReadEvent::Start, &mut data);
            let mut at = 0;
            loop {
                match step {
                    WsReadStep::NeedRead(n) => {
                        assert!(at < bytes.len(), "size {} in {}", size, frame_size);
                        let end = bytes.len().min(at + n);
                        let part = bytes[at..end].to_vec();
                        at = end;
                        let event = WsReadEvent::Read(StreamRead::Data(part));
                        step = server.read(true, 2, event, &mut data);
                    }
                    WsReadStep::Done(ty) => {
                        assert_eq!(ty, WsDataType::Text);
                        break;
                    }
                    _ => panic!("size {} in {}", size, frame_size),
                }
            }
            assert_eq!(data, message, "size {} in {}", size, frame_size);
        }
        assert!(matches!(server.write(true, 3, b"back"), WsWriteStep::Send));
        let bytes = out_of_server(&mut server);
        let mut data: Vec<u8> = Vec::new();
        let _ = client.read(true, 3, WsReadEvent::Start, &mut data);
        let step = client.read(true, 3, WsReadEvent::Read(StreamRead::Data(bytes)), &mut data);
        assert!(matches!(step, WsReadStep::Done(WsDataType::Binary)));
        assert_eq!(data, b"back".to_vec());
    }
}

#[test]
fn probe_is_sent_and_answered() {
    let mut cfg = config(0);
    cfg.keep_alive = Some(100);
    let mut client: WsStreamClient<u8> = WsStreamClient::new(cfg, 0);
    let mut server: WsStreamServer<u8> = WsStreamServer::accept(2, 0, 0);
    let request = asked(&mut client);
    let answer = answered(&mut server, &request);
    let data = ConnReadEvent::Read(StreamRead::Data(answer));
    let _ = client.connect(true, WsConnectEvent::Conn(data));
    let mut data: Vec<u8> = Vec::new();
    let _ = client.read(true, 50, WsReadEvent::Start, &mut data);
    let block = || WsReadEvent::Read(StreamRead::WouldBlock);
    assert!(matches!(client.read(true, 50, block(), &mut data), WsReadStep::Flush));
    assert!(matches!(
        client.read(true, 50, WsReadEvent::Flushed(Ok(())), &mut data),
        WsReadStep::Failed(WsError::WouldBlock)
    ));
    let _ = client.read(true, 101, WsReadEvent::Start, &mut data);
    assert!(matches!(client.read(true, 101, block(), &mut data), WsReadStep::SendPing));
    let probe = out_of_client(&mut client);
    let _ = server.read(true, 101, WsReadEvent::Start, &mut data);
    let step = server.read(true, 101, WsReadEvent::Read(StreamRead::Data(probe)), &mut data);
    assert!(matches!(step, WsReadStep::Send));
    let pong = out_of_server(&mut server);
    assert!(pong.ends_with(b"1234567890abcdefghijklmnopqrstuvwxyz"));
    let _ = client.read(true, 102, WsReadEvent::Start, &mut data);
    let step = client.read(true, 102, WsReadEvent::Read(StreamRead::Data(pong)), &mut data);
    assert!(matches!(step, WsReadStep::NeedRead(_)));
    assert!(data.is_empty());
}

#[test]
fn stream_that_is_shut_down() {
    let (mut client, _) = pair(0);
    let mut data: Vec<u8> = Vec::new();
    assert!(matches!(
        client.read(false, 0, WsReadEvent::Start, &mut data),
        WsReadStep::Failed(WsError::ServerDisconnected { temporary: false })
    ));
    assert!(!client.is_connected());
    let (mut client, mut server) = pair(0);
    assert!(matches!(
        client.write(false, 0, b""),
        WsWriteStep::Failed(WsError::ServerDisconnected { temporary: false })
    ));
    assert!(!client.is_connected());
    assert!(matches!(
        server.write_ty(false, 0, WsDataType::Text, b""),
        WsWriteStep::Failed(WsError::ServerDisconnected { temporary: false })
    ));
    assert!(server.unsent().is_empty());
}

#[test]
fn server_that_is_shut_down_in_its_handshake() {
    let mut server: WsStreamServer<u8> = WsStreamServer::accept(2, 0, 0);
    let mut data: Vec<u8> = Vec::new();
    assert!(matches!(
        server.read(false, 0, WsReadEvent::Start, &mut data),
        WsReadStep::Failed(WsError::ServerDisconnected { temporary: false })
    ));
    assert!(matches!(
        server.write(false, 0, b"x"),
        WsWriteStep::Failed(WsError::ServerDisconnected { temporary: false })
    ));
    assert!(matches!(
        server.server_handshake(false, None, 0, WsAcceptEvent::Start(None), None),
        WsAcceptStep::Failed(WsError::ServerDisconnected { temporary: false })
    ));
    assert!(matches!(server.read(true, 0, WsReadEvent::Start, &mut data), WsReadStep::Connect));
}

#[test]
fn frames_that_are_written_when_the_room_is_full() {
    let (mut client, mut server) = pair(0);
    let message = vec![7u8; 8190];
    assert!(matches!(client.write(true, 0, &message), WsWriteStep::Send));
    let bytes = out_of_client(&mut client);
    // Two frames, the second of which does not fit beside the first: it is a continuation.
    assert_eq!(bytes[0], 2);
    assert_eq!(bytes[4096 + 8], 128);
    let first = bytes[..4096 + 8].to_vec();
    let second = bytes[4096 + 8..].to_vec();
    let mut data: Vec<u8> = Vec::new();
    let _ = server.read(true, 0, WsReadEvent::Start, &mut data);
    let step = server.read(true, 0, WsReadEvent::Read(StreamRead::Data(first)), &mut data);
    assert!(matches!(step, WsReadStep::NeedRead(_)));
    assert!(data.is_empty());
    let step = server.read(true, 0, WsReadEvent::Read(StreamRead::Data(second)), &mut data);
    assert!(matches!(step, WsReadStep::Done(WsDataType::Binary)));
    assert_eq!(data, message);
}

#[test]
fn frames_that_are_too_small() {
    let (mut client, mut server) = pair(1);
    assert!(matches!(client.write(true, 0, b"x"), WsWriteStep::NoRoom));
    assert!(client.is_connected());
    assert!(matches!(client.write(true, 0, b""), WsWriteStep::Send));
    let mut data: Vec<u8> = Vec::new();
    let _ = server.read(true, 0, WsReadEvent::Start, &mut data);
    let text = WsReadEvent::Read(StreamRead::Data(vec![129, 1, 104]));
    assert!(matches!(
        server.read(true, 0, text, &mut data),
        WsReadStep::Done(WsDataType::Text)
    ));
    assert_eq!(data, b"h");
    let _ = server.read(true, 0, WsReadEvent::Start, &mut data);
    let probe = WsReadEvent::Read(StreamRead::Data(vec![137, 1, 104]));
    assert!(matches!(server.read(true, 0, probe, &mut data), WsReadStep::NoRoom));
}

#[test]
fn stream_that_ends() {
    let (mut client, mut server) = pair(0);
    let mut data: Vec<u8> = Vec::new();
    let _ = server.read(true, 0, WsReadEvent::Start, &mut data);
    assert!(matches!(
        server.read(true, 0, WsReadEvent::Read(StreamRead::Eof), &mut data),
        WsReadStep::Failed(WsError::ServerDisconnected { temporary: true })
    ));
    assert!(!server.is_connected());
    assert!(matches!(
        server.read(true, 0, WsReadEvent::Start, &mut data),
        WsReadStep::Connect
    ));
    assert!(matches!(
        server.server_handshake(true, None, 0, WsAcceptEvent::Start(None), None),
        WsAcceptStep::Failed(WsError::ServerDisconnected { temporary: false })
    ));
    let e = client.after_write(Err(IOError::Other("broken".to_owned())));
    assert_eq!(e, Err(WsError::ServerDisconnected { temporary: true }));
    client.disconnect();
    assert!(!client.is_connected());
}

#[test]
fn handshake_that_fails() {
    let mut client: WsStreamClient<u8> = WsStreamClient::new(config(0), 0);
    let _ = client.connect(true, WsConnectEvent::Start);
    match client.connect(true, WsConnectEvent::NotOpened(HttpConnError::Timeout)) {
        WsConnectStep::Failed(WsError::InitError(text)) => assert_eq!(text, "Timeout"),
        _ => panic!("no error"),
    }
    let word = WsStreamConfig { endpoint: uri("word"), ..config(0) };
    let mut client: WsStreamClient<u8> = WsStreamClient::new(word, 0);
    match client.connect(true, WsConnectEvent::Opened(1, [0; 32])) {
        WsConnectStep::Failed(WsError::InitError(text)) => {
            assert_eq!(text, "invalid host: InvalidURI(\"missing host\")")
        }
        _ => panic!("no error"),
    }
    let mut client: WsStreamClient<u8> = WsStreamClient::new(config(0), 0);
    let _ = asked(&mut client);
    let refusal = HttpResponseBuilder::new(403).to_vec();
    let data = ConnReadEvent::Read(StreamRead::Data(refusal));
    match client.connect(true, WsConnectEvent::Conn(data)) {
        WsConnectStep::Failed(WsError::InitError(text)) => assert_eq!(
            text,
            "Handshake accept error: HttpResponseCodeInvalid(Some(403))"
        ),
        _ => panic!("no error"),
    }
    assert!(!client.is_connected());
}

#[test]
fn response_that_cannot_be_read() {
    let mut client: WsStreamClient<u8> = WsStreamClient::new(config(0), 0);
    let _ = asked(&mut client);
    let end = WsConnectEvent::Conn(ConnReadEvent::Read(StreamRead::Eof));
    match client.connect(true, end) {
        WsConnectStep::Failed(WsError::InitError(text)) => {
            assert!(text.starts_with("Handshake read error: "))
        }
        _ => panic!("no error"),
    }
    assert!(matches!(client.connect(true, WsConnectEvent::Start), WsConnectStep::Open));
}

#[test]
fn handshake_that_takes_too_long() {
    let mut server: WsStreamServer<u8> = WsStreamServer::accept(2, 0, 10);
    let step = server.server_handshake(true, Some(5), 16, WsAcceptEvent::Start(None), None);
    match step {
        WsAcceptStep::Failed(WsError::InitError(text)) => assert_eq!(text, "timeout"),
        _ => panic!("in time"),
    }
    let step = server.server_handshake(true, Some(5), 15, WsAcceptEvent::Start(None), None);
    assert!(matches!(step, WsAcceptStep::Flush));
}

#[test]
fn server_that_is_asked_for_something_else() {
    let ask = |bytes: &[u8]| {
        let mut server: WsStreamServer<u8> = WsStreamServer::accept(2, 0, 0);
        let _ = server.server_handshake(true, None, 0, WsAcceptEvent::Start(None), None);
        let flushed = WsAcceptEvent::Conn(ConnReadEvent::Flushed(Ok(())));
        let _ = server.server_handshake(true, None, 0, flushed, None);
        let data = ConnReadEvent::Read(StreamRead::Data(bytes.to_vec()));
        server.server_handshake(true, None, 0, WsAcceptEvent::Conn(data), None)
    };
    match ask(b"GET / HTTP/1.1\r\n\r\n") {
        WsAcceptStep::Failed(WsError::InitError(text)) => {
            assert_eq!(text, "WebSocket Protocol Error: expect a websocket context")
        }
        _ => panic!("taken"),
    }
    match ask(b"GET / HTTP/1.1\r\nUpgrade: \xff\r\n\r\n") {
        WsAcceptStep::Failed(WsError::InitError(text)) => {
            assert_eq!(text, "receive handshake header fail: Utf8Error")
        }
        _ => panic!("taken"),
    }
    match ask(b"GET :\"x HTTP/1.1\r\nUpgrade: websocket\r\n\r\n") {
        WsAcceptStep::Failed(WsError::InitError(text)) => assert_eq!(
            text,
            "WebSocket Protocol Error: invalid path=\":\\\"x\": Parse(UriErr)"
        ),
        _ => panic!("taken"),
    }
    match ask(b"GET / HTTP/2.0\r\n\r\n") {
        WsAcceptStep::Failed(WsError::InitError(text)) => {
            assert_eq!(text, "err: Error(ParseError(Version))")
        }
        _ => panic!("taken"),
    }
    match ask(b"GET / HTTP/1.1\r\nSec-WebSocket-Key: 0123456789012345678901234\r\n\r\n") {
        WsAcceptStep::Fault(WsAcceptFault::KeyTooLong) => {}
        _ => panic!("taken"),
    }
    let long = b"GET / HTTP/1.1\r\nUpgrade: websocket\r\nContent-Length: 2049\r\n\r\n";
    assert!(matches!(ask(long), WsAcceptStep::Failed(WsError::InitError(_))));
    let fits = b"GET / HTTP/1.1\r\nUpgrade: websocket\r\nContent-Length: 1000\r\n\r\n";
    assert!(matches!(ask(fits), WsAcceptStep::NeedRead(_)));
}

#[test]
fn connection_becomes_a_stream() {
    let mut conn: HttpConnServer<u8> = HttpConnServer::accept(9, None);
    let _ = conn.read_request(ConnReadEvent::Start, None);
    let _ = conn.read_request(ConnReadEvent::Flushed(Ok(())), None);
    let bytes = b"GET /y HTTP/1.1\r\nUpgrade: websocket\r\n\
        Sec-WebSocket-Key: dGhlIHNhbXBsZSBub25jZQ==\r\n\r\n"
        .to_vec();
    let req = match conn.read_request(ConnReadEvent::Read(StreamRead::Data(bytes)), None) {
        ServerStep::Done(req) => req,
        _ => panic!("no request"),
    };
    let ctx = get_websocket_ctx(&req).unwrap().unwrap();
    let mut stream = WsStreamServer::from_http_conn(conn, req.path(), 0, ctx, 0);
    assert!(matches!(
        stream.server_handshake(true, None, 0, WsAcceptEvent::Start(None), None),
        WsAcceptStep::Send
    ));
    assert!(matches!(
        stream.server_handshake(true, None, 0, WsAcceptEvent::Sent(Ok(())), None),
        WsAcceptStep::Connected
    ));
    assert_eq!(stream.endpoint().path(), "/y");
    assert_eq!(stream.stream_mut().map(|s| *s), Some(9));
}

/// Gives parts of a message to a client that wants one, with a pause before each.
fn client_reads(client: &mut WsStreamClient<u8>, parts: &[&[u8]]) -> (WsDataType, Vec<u8>) {
    let mut data: Vec<u8> = b"before".to_vec();
    for (i, part) in parts.iter().enumerate() {
        let step = client.read(true, 2, WsReadEvent::Start, &mut data);
        assert!(matches!(step, WsReadStep::NeedRead(_)));
        let block = WsReadEvent::Read(StreamRead::WouldBlock);
        assert!(matches!(client.read(true, 2, block, &mut data), WsReadStep::Flush));
        let flushed = WsReadEvent::Flushed(Ok(()));
        assert!(matches!(
            client.read(true, 2, flushed, &mut data),
            WsReadStep::Failed(WsError::WouldBlock)
        ));
        let _ = client.read(true, 2, WsReadEvent::Start, &mut data);
        let event = WsReadEvent::Read(StreamRead::Data(part.to_vec()));
        match client.read(true, 2, event, &mut data) {
            WsReadStep::NeedRead(_) => {
                assert!(i + 1 < parts.len());
                assert_eq!(data, b"before".to_vec());
            }
            WsReadStep::Done(ty) => {
                assert_eq!(i + 1, parts.len());
                return (ty, data[6..].to_vec());
            }
            _ => panic!("part {}", i),
        }
    }
    panic!("no message")
}

#[test]
fn frame_that_is_cut_anywhere() {
    for size in [5usize, 125, 126, 300] {
        let message: Vec<u8> = (0..size).map(|i| i as u8).collect();
        let mut probe = pair(0);
        assert!(matches!(
            probe.1.write_ty(true, 1, WsDataType::Text, &message),
            WsWriteStep::Send
        ));
        let bytes = out_of_server(&mut probe.1);
        for cut in 0..bytes.len() {
            let (mut client, _) = pair(0);
            let read = client_reads(&mut client, &[&bytes[..cut], &bytes[cut..]]);
            assert_eq!(read, (WsDataType::Text, message.clone()));
        }
        let (mut client, _) = pair(0);
        let parts: Vec<&[u8]> = bytes.chunks(1).collect();
        let read = client_reads(&mut client, &parts);
        assert_eq!(read, (WsDataType::Text, message.clone()));
        let again = client_reads(&mut client, &parts);
        assert_eq!(again, (WsDataType::Text, message));
    }
}

#[test]
fn frames_that_are_cut_in_their_heads() {
    let message: Vec<u8> = (0..23).collect();
    let (_, mut server) = pair(10);
    assert!(matches!(server.write(true, 1, &message), WsWriteStep::Send));
    let bytes = out_of_server(&mut server);
    assert_eq!(bytes.len(), 12 + 12 + 5);
    for cut in [0, 1, 12, 13, 24, 25, 26, 27, 28] {
        for later in [12, 13, 24, 25, 26, 27, 28] {
            if later < cut {
                continue;
            }
            let (mut client, _) = pair(10);
            let parts = [&bytes[..cut], &bytes[cut..later], &bytes[later..]];
            let read = client_reads(&mut client, &parts);
            assert_eq!(read, (WsDataType::Binary, message.clone()));
        }
    }
}

#[test]
fn masked_frame_that_is_cut() {
    let message: Vec<u8> = (0..11).collect();
    let (mut client, _) = pair(0);
    assert!(matches!(client.write(true, 1, &message), WsWriteStep::Send));
    let bytes = out_of_client(&mut client);
    assert_eq!(bytes.len(), 6 + 11);
    for cut in [1, 2, 3, 4, 5, 6, 10, 14] {
        let (_, mut server) = pair(0);
        let mut data: Vec<u8> = Vec::new();
        let _ = server.read(true, 2, WsReadEvent::Start, &mut data);
        let event = WsReadEvent::Read(StreamRead::Data(bytes[..cut].to_vec()));
        let step = server.read(true, 2, event, &mut data);
        assert!(matches!(step, WsReadStep::NeedRead(_)));
        assert!(data.is_empty());
        let event = WsReadEvent::Read(StreamRead::Data(bytes[cut..].to_vec()));
        let step = server.read(true, 2, event, &mut data);
        assert!(matches!(step, WsReadStep::Done(WsDataType::Binary)));
        assert_eq!(data, message);
    }
}

#[test]
fn frame_with_a_code_that_stands_for_nothing() {
    let (mut client, _) = pair(0);
    let mut data: Vec<u8> = Vec::new();
    let _ = client.read(true, 2, WsReadEvent::Start, &mut data);
    let event = WsReadEvent::Read(StreamRead::Data(vec![0x83, 0x00]));
    let step = client.read(true, 2, event, &mut data);
    assert!(matches!(
        step,
        WsReadStep::Failed(WsError::ServerDisconnected { temporary: true })
    ));
    assert!(!client.is_connected());
}

#[test]
fn why_a_message_was_not_written() {
    let (client, server) = pair(0);
    let failed = || WsError::InitError("timeout".to_owned());
    let gone = |temporary: bool| WsError::ServerDisconnected { temporary };
    assert_eq!(client.not_written(failed()), gone(false));
    assert_eq!(client.not_written(WsError::WouldBlock), WsError::WouldBlock);
    assert_eq!(client.not_written(gone(true)), gone(true));
    assert_eq!(server.not_written(failed()), gone(false));
    assert_eq!(server.not_written(WsError::WouldBlock), gone(true));
    assert_eq!(server.not_written(gone(false)), gone(false));
    let mut cfg = config(0);
    cfg.auto_reconnect = true;
    let client: WsStreamClient<u8> = WsStreamClient::new(cfg, 0);
    assert_eq!(client.not_written(failed()), gone(true));
}

#[test]
fn close_drops_the_stream() {
    for close in [&[0x88u8, 2, 0x03, 0xe8][..], &[0x88, 0]] {
        let (mut client, _) = pair(0);
        let mut data: Vec<u8> = b"before".to_vec();
        let _ = client.read(true, 0, WsReadEvent::Start, &mut data);
        let event = WsReadEvent::Read(StreamRead::Data(close.to_vec()));
        assert!(matches!(
            client.read(true, 0, event, &mut data),
            WsReadStep::Failed(WsError::ServerDisconnected { temporary: true })
        ));
        assert!(!client.is_connected());
        assert_eq!(data, b"before".to_vec());
    }
}

#[test]
fn pong_is_passed_over() {
    let (mut client, _) = pair(0);
    let mut data: Vec<u8> = b"before".to_vec();
    let _ = client.read(true, 0, WsReadEvent::Start, &mut data);
    let bytes = vec![0x8a, 3, 1, 2, 3, 0x81, 2, b'h', b'i'];
    let event = WsReadEvent::Read(StreamRead::Data(bytes));
    assert!(matches!(
        client.read(true, 0, event, &mut data),
        WsReadStep::Done(WsDataType::Text)
    ));
    assert_eq!(data, b"beforehi".to_vec());
    let _ = client.read(true, 0, WsReadEvent::Start, &mut data);
    let event = WsReadEvent::Read(StreamRead::Data(vec![0x8a, 1, 9]));
    assert!(matches!(client.read(true, 0, event, &mut data), WsReadStep::NeedRead(_)));
    assert!(client.is_connected());
    assert_eq!(data, b"beforehi".to_vec());
}

#[test]
fn waiting_for_an_outcome() {
    assert!(matches!(
        WsStreamClient::<u8>::blocking::<u8>(Err(WsError::WouldBlock)),
        BlockingStep::Wait
    ));
    assert!(matches!(WsStreamClient::<u8>::blocking(Ok(5u8)), BlockingStep::Over(Ok(5))));
    let gone = || WsError::ServerDisconnected { temporary: true };
    assert!(matches!(
        WsStreamClient::<u8>::blocking::<u8>(Err(gone())),
        BlockingStep::Over(Err(WsError::ServerDisconnected { temporary: true }))
    ));
}
