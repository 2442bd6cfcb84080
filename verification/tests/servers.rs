use http::{
    choose_tls, tls_choice, ConnReadEvent, ConnWriteStep, HttpConnServer, HttpServer,
    HttpServerConfig, HttpServerConns, HttpWsServer, HttpWsServerConfig, HttpWsTickEvent,
    HttpWsTickStep, ServerTickEvent, ServerTickStep, StreamRead, TickResult, TlsChoice, WsDataType,
    WsReadEvent, WsTickEvent, WsTickStep, WsWriteStep,
};

fn read(bytes: &[u8]) -> ConnReadEvent {
    ConnReadEvent::Read(StreamRead::Data(bytes.to_vec()))
}

#[test]
fn configuration() {
    let mut cfg = HttpServerConfig::default();
    assert_eq!(cfg.listen_addr, "");
    assert!(cfg.max_body_length.is_none());
    assert!(!cfg.uses_tls());
    cfg.tls_key = vec![1];
    assert!(cfg.uses_tls());
}

/// A section of a text in PEM.
fn pem(label: &str, base64: &str) -> String {
    format!("-----BEGIN {}-----\n{}\n-----END {}-----\n", label, base64, label)
}

fn cert(base64: &str) -> String {
    pem("CERTIFICATE", base64)
}

fn rsa_key(base64: &str) -> String {
    pem(&format!("{} {} KEY", "RSA", "PRIVATE"), base64)
}

fn with_tls(certs: &str, keys: &str) -> HttpServerConfig {
    let mut cfg = HttpServerConfig::default();
    cfg.tls_cert = certs.as_bytes().to_vec();
    cfg.tls_key = keys.as_bytes().to_vec();
    cfg
}

fn identity(choice: &TlsChoice) -> (Vec<Vec<u8>>, Vec<u8>) {
    match choice {
        TlsChoice::Identity { certs, key } => (certs.clone(), key.clone()),
        TlsChoice::Plain => panic!("plain"),
        TlsChoice::Unreadable => panic!("unreadable"),
    }
}

#[test]
fn certificates_and_the_first_key() {
    let certs = format!("a word before\n{}{}", cert("AQID"), cert("/wA="));
    let keys = format!("{}{}", rsa_key("BAUG\nBwg="), rsa_key("CQ=="));
    let cfg = with_tls(&certs, &keys);
    let expected = (vec![vec![1, 2, 3], vec![255, 0]], vec![4, 5, 6, 7, 8]);
    assert_eq!(identity(&tls_choice(&cfg)), expected);
    let server: HttpServer<u8, u32> = HttpServer::new(cfg, 0);
    assert_eq!(identity(server.tls()), expected);
    let cfg = HttpWsServerConfig {
        listen_addr: "".to_owned(),
        tls_cert: certs.into_bytes(),
        tls_key: keys.into_bytes(),
        frame_size: 0,
        http_max_body_length: None,
    };
    let server: HttpWsServer<u8, u32> = HttpWsServer::new(cfg, 0);
    assert_eq!(identity(server.tls()), expected);
}

#[test]
fn certificates_and_keys_that_are_not_there() {
    assert!(matches!(tls_choice(&with_tls("", "")), TlsChoice::Plain));
    assert!(matches!(ws_server().tls(), TlsChoice::Plain));
    assert!(matches!(tls_choice(&with_tls(&cert("AQID"), "")), TlsChoice::Unreadable));
    let other_key = pem(&format!("{} KEY", "PRIVATE"), "AQID");
    assert!(matches!(tls_choice(&with_tls(&cert("AQID"), &other_key)), TlsChoice::Unreadable));
    assert!(matches!(tls_choice(&with_tls("no certificate", "")), TlsChoice::Unreadable));
    let choice = tls_choice(&with_tls("", &rsa_key("AQID")));
    assert_eq!(identity(&choice), (vec![], vec![1, 2, 3]));
}

#[test]
fn certificates_and_keys_that_cannot_be_read() {
    let bad = "A*ID";
    assert!(matches!(
        tls_choice(&with_tls(&cert(bad), &rsa_key("AQID"))),
        TlsChoice::Unreadable
    ));
    assert!(matches!(
        tls_choice(&with_tls(&cert("AQID"), &rsa_key(bad))),
        TlsChoice::Unreadable
    ));
    let keys = format!("{}{}", rsa_key("AQID"), rsa_key(bad));
    assert!(matches!(tls_choice(&with_tls("", &keys)), TlsChoice::Unreadable));
}

#[test]
fn choice_of_an_identity() {
    let list = || Some(vec![vec![1u8], vec![2]]);
    assert!(matches!(choose_tls(false, list(), list()), TlsChoice::Plain));
    assert!(matches!(choose_tls(true, None, list()), TlsChoice::Unreadable));
    assert!(matches!(choose_tls(true, list(), None), TlsChoice::Unreadable));
    assert!(matches!(choose_tls(true, list(), Some(vec![])), TlsChoice::Unreadable));
    let choice = choose_tls(true, list(), list());
    assert_eq!(identity(&choice), (vec![vec![1], vec![2]], vec![1]));
}

#[test]
fn numbers_are_given_out_once() {
    let mut conns: HttpServerConns<u8> = HttpServerConns::new();
    assert_eq!(conns.len(), 0);
    for i in 0..3u8 {
        assert!(conns.has_number());
        conns.add_conn(HttpConnServer::accept(i, None));
    }
    assert_eq!(conns.len(), 3);
    assert_eq!(conns.ids(), vec![0, 1, 2]);
    assert_eq!(conns.remove_conn(1).map(|c| c.stream), Some(1));
    assert!(conns.remove_conn(1).is_none());
    conns.add_conn(HttpConnServer::accept(9, None));
    assert_eq!(conns.ids(), vec![0, 2, 3]);
    assert_eq!(conns.conn(3).map(|c| c.stream), Some(9));
    assert!(conns.can_answer(7));
    assert!(matches!(conns.write_to(7, b"x", None), ConnWriteStep::Done));
    assert!(matches!(conns.write_to(3, b"x", None), ConnWriteStep::Failed(_)));
}

#[test]
fn round_of_a_server() {
    let mut server: HttpServer<u8, u32> = HttpServer::new(HttpServerConfig::default(), 5);
    *server.handler() += 1;
    assert!(matches!(server.tick(ServerTickEvent::Start), ServerTickStep::Accept));
    assert!(matches!(server.tick(ServerTickEvent::Accepted(10)), ServerTickStep::Accept));
    assert!(matches!(server.tick(ServerTickEvent::Accepted(11)), ServerTickStep::Accept));
    assert!(matches!(server.tick(ServerTickEvent::Accepted(12)), ServerTickStep::Accept));
    assert!(matches!(server.tick(ServerTickEvent::NoMore), ServerTickStep::Flush(0)));
    let conn = |event: ConnReadEvent| ServerTickEvent::Conn(event, None);
    assert!(matches!(
        server.tick(conn(ConnReadEvent::Flushed(Ok(())))),
        ServerTickStep::NeedRead(0, 8096)
    ));
    match server.tick(conn(read(b"GET /zero HTTP/1.1\r\n\r\n"))) {
        ServerTickStep::Request(ctx, req) => {
            assert_eq!(ctx.conn_id, 0);
            assert!(!ctx.is_close);
            assert_eq!(req.path(), "/zero");
        }
        _ => panic!("no request"),
    }
    let (_, conns) = server.handler_and_conns();
    assert!(matches!(conns.write_to(0, b"answer", None), ConnWriteStep::Send));
    assert_eq!(conns.conn(0).unwrap().unsent(), b"answer");
    assert!(matches!(
        server.tick(ServerTickEvent::Handled(false)),
        ServerTickStep::Flush(1)
    ));
    let _ = server.tick(conn(ConnReadEvent::Flushed(Ok(()))));
    assert!(matches!(
        server.tick(conn(ConnReadEvent::Read(StreamRead::Eof))),
        ServerTickStep::Flush(2)
    ));
    let _ = server.tick(conn(ConnReadEvent::Flushed(Ok(()))));
    assert!(matches!(
        server.tick(conn(ConnReadEvent::Read(StreamRead::WouldBlock))),
        ServerTickStep::OnTick
    ));
    let (handler, conns) = server.handler_and_conns();
    assert_eq!(*handler, 6);
    assert_eq!(conns.ids(), vec![0, 2]);
    assert!(matches!(
        server.tick(ServerTickEvent::Ticked(TickResult::Idle)),
        ServerTickStep::Done(TickResult::Busy)
    ));
}

#[test]
fn idle_and_failing_rounds() {
    let mut server: HttpServer<u8, ()> = HttpServer::new(HttpServerConfig::default(), ());
    let _ = server.tick(ServerTickEvent::Start);
    assert!(matches!(server.tick(ServerTickEvent::NoMore), ServerTickStep::OnTick));
    assert!(matches!(
        server.tick(ServerTickEvent::Ticked(TickResult::Idle)),
        ServerTickStep::Done(TickResult::Idle)
    ));
    let _ = server.tick(ServerTickEvent::Start);
    assert!(matches!(server.tick(ServerTickEvent::AcceptFailed), ServerTickStep::OnTick));
    assert!(matches!(
        server.tick(ServerTickEvent::Ticked(TickResult::Busy)),
        ServerTickStep::Done(TickResult::Error)
    ));
}

#[test]
fn handler_closes_a_connection() {
    let mut server: HttpServer<u8, ()> = HttpServer::new(HttpServerConfig::default(), ());
    let _ = server.tick(ServerTickEvent::Start);
    let _ = server.tick(ServerTickEvent::Accepted(0));
    let _ = server.tick(ServerTickEvent::NoMore);
    let _ = server.tick(ServerTickEvent::Conn(ConnReadEvent::Flushed(Ok(())), None));
    let peer = Some("10.0.0.9:80".to_owned());
    match server.tick(ServerTickEvent::Conn(read(b"GET / HTTP/1.1\r\n\r\n"), peer)) {
        ServerTickStep::Request(ctx, _) => {
            assert_eq!(ctx.peer_addr, Some("10.0.0.9:80".to_owned()))
        }
        _ => panic!("no request"),
    }
    assert!(matches!(server.tick(ServerTickEvent::Handled(true)), ServerTickStep::OnTick));
    let (_, conns) = server.handler_and_conns();
    let _ = conns.write_to(0, b"bye", None);
    let _ = conns.write_to(0, b"bye", Some(Ok(())));
    let _ = server.tick(ServerTickEvent::Ticked(TickResult::Idle));
    let _ = server.tick(ServerTickEvent::Start);
    let _ = server.tick(ServerTickEvent::NoMore);
    assert!(matches!(
        server.tick(ServerTickEvent::Conn(ConnReadEvent::Flushed(Ok(())), None)),
        ServerTickStep::OnTick
    ));
    let (_, conns) = server.handler_and_conns();
    assert_eq!(conns.len(), 0);
}

fn ws_server() -> HttpWsServer<u8, u32> {
    let cfg = HttpWsServerConfig {
        listen_addr: "".to_owned(),
        tls_cert: Vec::new(),
        tls_key: Vec::new(),
        frame_size: 0,
        http_max_body_length: None,
    };
    HttpWsServer::new(cfg, 0)
}

fn http(event: ServerTickEvent<u8>) -> HttpWsTickEvent<u8> {
    HttpWsTickEvent::Http(event)
}

fn ws(event: WsTickEvent) -> HttpWsTickEvent<u8> {
    HttpWsTickEvent::Ws(event)
}

fn opened(server: &mut HttpWsServer<u8, u32>) {
    let _ = server.tick(0, http(ServerTickEvent::Start));
    let _ = server.tick(0, http(ServerTickEvent::Accepted(3)));
    assert!(matches!(
        server.tick(0, http(ServerTickEvent::NoMore)),
        HttpWsTickStep::Http(ServerTickStep::Flush(0))
    ));
    let flushed = ServerTickEvent::Conn(ConnReadEvent::Flushed(Ok(())), None);
    let _ = server.tick(0, http(flushed));
    let bytes = b"GET /chat HTTP/1.1\r\nUpgrade: websocket\r\n\
        Sec-WebSocket-Key: dGhlIHNhbXBsZSBub25jZQ==\r\n\r\n";
    assert!(matches!(
        server.tick(0, http(ServerTickEvent::Conn(read(bytes), None))),
        HttpWsTickStep::Ws(WsTickStep::Answer)
    ));
    let conn = server.opening_conn().unwrap();
    assert!(conn.unsent().starts_with(b"HTTP/1.1 101 Switching Protocols\r\n"));
    let n = conn.unsent().len();
    conn.sent(n);
    match server.tick(0, ws(WsTickEvent::Answered(Ok(())))) {
        HttpWsTickStep::Ws(WsTickStep::NewConn(ctx)) => {
            assert_eq!(ctx.conn_id, 0);
            assert_eq!(ctx.path, "/chat");
        }
        _ => panic!("no stream"),
    }
}

#[test]
fn websocket_is_opened_and_read() {
    let mut server = ws_server();
    *server.handler() = 8;
    opened(&mut server);
    let step = server.tick(0, ws(WsTickEvent::Announced(false)));
    assert!(matches!(step, HttpWsTickStep::Ws(WsTickStep::NeedRead(0, _))));
    let frame = vec![0x81u8, 0x82, 0, 0, 0, 0, b'h', b'i'];
    let data = WsReadEvent::Read(StreamRead::Data(frame));
    match server.tick(0, ws(WsTickEvent::Stream(data))) {
        HttpWsTickStep::Ws(WsTickStep::Message(ctx, ty, data)) => {
            assert_eq!(ctx.conn_id, 0);
            assert_eq!(ctx.path, "/chat");
            assert_eq!(ty, WsDataType::Text);
            assert_eq!(data, b"hi".to_vec());
        }
        _ => panic!("no message"),
    }
    assert!(matches!(
        server.tick(0, ws(WsTickEvent::Handled(false))),
        HttpWsTickStep::Ws(WsTickStep::OnTick)
    ));
    let (handler, http_conns, ws_conns) = server.parts();
    assert_eq!(*handler, 8);
    assert_eq!(http_conns.len(), 0);
    assert_eq!(ws_conns.len(), 1);
    let stream = ws_conns.get_mut(0).unwrap();
    assert!(matches!(stream.write_ty(true, 0, WsDataType::Text, b"yo"), WsWriteStep::Send));
    assert_eq!(stream.unsent(), &[0x81u8, 2, b'y', b'o']);
    assert!(matches!(
        server.tick(0, ws(WsTickEvent::Ticked(TickResult::Idle))),
        HttpWsTickStep::Http(ServerTickStep::Done(TickResult::Busy))
    ));
}

#[test]
fn websocket_is_closed() {
    let mut server = ws_server();
    opened(&mut server);
    let _ = server.tick(0, ws(WsTickEvent::Announced(false)));
    let eof = WsReadEvent::Read(StreamRead::Eof);
    assert!(matches!(
        server.tick(0, ws(WsTickEvent::Stream(eof))),
        HttpWsTickStep::Ws(WsTickStep::Closed(0))
    ));
    assert!(matches!(
        server.tick(0, ws(WsTickEvent::Told)),
        HttpWsTickStep::Ws(WsTickStep::OnTick)
    ));
    let (_, _, ws_conns) = server.parts();
    assert_eq!(ws_conns.len(), 0);
    assert!(ws_conns.remove(0).is_none());
}

#[test]
fn round_of_several_websockets() {
    let mut server = ws_server();
    let _ = server.tick(0, http(ServerTickEvent::Start));
    for stream in 0..3 {
        let _ = server.tick(0, http(ServerTickEvent::Accepted(stream)));
    }
    let mut step = server.tick(0, http(ServerTickEvent::NoMore));
    let bytes = b"GET / HTTP/1.1\r\nUpgrade: websocket\r\n\
        Sec-WebSocket-Key: dGhlIHNhbXBsZSBub25jZQ==\r\n\r\n";
    for id in 0..3 {
        match step {
            HttpWsTickStep::Http(ServerTickStep::Flush(n)) => assert_eq!(n, id),
            _ => panic!("connection {}", id),
        }
        let flushed = ServerTickEvent::Conn(ConnReadEvent::Flushed(Ok(())), None);
        let _ = server.tick(0, http(flushed));
        step = server.tick(0, http(ServerTickEvent::Conn(read(bytes), None)));
    }
    // All handshakes are answered, the last first, before a stream is looked at.
    for id in (0..3).rev() {
        assert!(matches!(step, HttpWsTickStep::Ws(WsTickStep::Answer)));
        match server.tick(0, ws(WsTickEvent::Answered(Ok(())))) {
            HttpWsTickStep::Ws(WsTickStep::NewConn(ctx)) => assert_eq!(ctx.conn_id, id),
            _ => panic!("stream {}", id),
        }
        step = server.tick(0, ws(WsTickEvent::Announced(false)));
    }
    // The first says something, the second has gone, the third is silent.
    assert!(matches!(step, HttpWsTickStep::Ws(WsTickStep::NeedRead(0, _))));
    let frame = vec![0x81u8, 0x82, 0, 0, 0, 0, b'h', b'i'];
    let data = WsReadEvent::Read(StreamRead::Data(frame));
    assert!(matches!(
        server.tick(0, ws(WsTickEvent::Stream(data))),
        HttpWsTickStep::Ws(WsTickStep::Message(_, WsDataType::Text, _))
    ));
    assert!(matches!(
        server.tick(0, ws(WsTickEvent::Handled(false))),
        HttpWsTickStep::Ws(WsTickStep::NeedRead(1, _))
    ));
    let eof = WsReadEvent::Read(StreamRead::Eof);
    assert!(matches!(
        server.tick(0, ws(WsTickEvent::Stream(eof))),
        HttpWsTickStep::Ws(WsTickStep::NeedRead(2, _))
    ));
    let block = WsReadEvent::Read(StreamRead::WouldBlock);
    assert!(matches!(
        server.tick(0, ws(WsTickEvent::Stream(block))),
        HttpWsTickStep::Ws(WsTickStep::Flush(2))
    ));
    // What is gone is told of when all have been looked at.
    assert!(matches!(
        server.tick(0, ws(WsTickEvent::Stream(WsReadEvent::Flushed(Ok(()))))),
        HttpWsTickStep::Ws(WsTickStep::Closed(1))
    ));
    assert!(matches!(
        server.tick(0, ws(WsTickEvent::Told)),
        HttpWsTickStep::Ws(WsTickStep::OnTick)
    ));
    let (_, _, ws_conns) = server.parts();
    assert_eq!(ws_conns.len(), 2);
    assert!(ws_conns.get_mut(0).is_some());
    assert!(ws_conns.get_mut(1).is_none());
    assert!(ws_conns.get_mut(2).is_some());
}

#[test]
fn websocket_is_not_wanted() {
    let mut server = ws_server();
    opened(&mut server);
    assert!(matches!(
        server.tick(0, ws(WsTickEvent::Announced(true))),
        HttpWsTickStep::Ws(WsTickStep::OnTick)
    ));
    let (_, _, ws_conns) = server.parts();
    assert_eq!(ws_conns.len(), 0);
}

#[test]
fn plain_and_bad_requests() {
    let mut server = ws_server();
    let _ = server.tick(0, http(ServerTickEvent::Start));
    let _ = server.tick(0, http(ServerTickEvent::Accepted(3)));
    let _ = server.tick(0, http(ServerTickEvent::Accepted(4)));
    let _ = server.tick(0, http(ServerTickEvent::NoMore));
    let flushed = || ServerTickEvent::Conn(ConnReadEvent::Flushed(Ok(())), None);
    let _ = server.tick(0, http(flushed()));
    match server.tick(0, http(ServerTickEvent::Conn(read(b"GET / HTTP/1.1\r\n\r\n"), None))) {
        HttpWsTickStep::Http(ServerTickStep::Request(ctx, req)) => {
            assert_eq!(ctx.conn_id, 0);
            assert_eq!(req.path(), "/");
        }
        _ => panic!("no request"),
    }
    assert!(matches!(
        server.tick(0, http(ServerTickEvent::Handled(false))),
        HttpWsTickStep::Http(ServerTickStep::Flush(1))
    ));
    let _ = server.tick(0, http(flushed()));
    let bad = read(b"GET / HTTP/1.1\r\nUpgrade: \xff\r\n\r\n");
    assert!(matches!(
        server.tick(0, http(ServerTickEvent::Conn(bad, None))),
        HttpWsTickStep::Ws(WsTickStep::OnTick)
    ));
    let (_, http_conns, _) = server.parts();
    assert_eq!(http_conns.len(), 2);
    let long = b"GET / HTTP/1.1\r\nSec-WebSocket-Key: 0123456789012345678901234\r\n\r\n";
    let mut server = ws_server();
    let _ = server.tick(0, http(ServerTickEvent::Start));
    let _ = server.tick(0, http(ServerTickEvent::Accepted(3)));
    let _ = server.tick(0, http(ServerTickEvent::NoMore));
    let _ = server.tick(0, http(flushed()));
    assert!(matches!(
        server.tick(0, http(ServerTickEvent::Conn(read(long), None))),
        HttpWsTickStep::KeyTooLong
    ));
}
