use http::{
    BufferVec, ClientFault, ClientStep, ConnReadEvent, ConnWriteEvent, ConnWriteStep,
    HttpConnBlockingClient, HttpConnClient, HttpConnClientPool, HttpConnError, HttpConnServer,
    HttpMethod, HttpRequestBuilder, HttpResponseBuilder, IOError, PoolReadEvent, PoolReadStep,
    PoolWriteEvent, PoolWriteStep, SendEvent, SendStep, ServerFault, ServerStep, StreamRead, Uri,
};

fn uri() -> Uri {
    match Uri::try_new("http://h.example/") {
        Some(Ok(uri)) => uri,
        _ => panic!("no address"),
    }
}

fn request() -> HttpRequestBuilder {
    HttpRequestBuilder::new(HttpMethod::Get, uri(), None)
}

fn response(body: &str) -> Vec<u8> {
    HttpResponseBuilder::new(200).body(body.as_bytes().to_vec()).to_vec()
}

fn data(bytes: &[u8]) -> ConnReadEvent {
    ConnReadEvent::Read(StreamRead::Data(bytes.to_vec()))
}

fn sent(conn: &mut HttpConnClient<u8>, id: usize) {
    let req = request();
    assert!(matches!(
        conn.write_request(id, &req, 0, ConnWriteEvent::Start),
        ConnWriteStep::Send
    ));
    let n = conn.unsent().len();
    assert!(n > 0);
    conn.sent(n);
    assert!(matches!(
        conn.write_request(id, &req, 0, ConnWriteEvent::Sent(Ok(()))),
        ConnWriteStep::Done
    ));
}

#[test]
fn answers_come_in_order() {
    let mut conn: HttpConnClient<u8> = HttpConnClient::connect(uri(), 0);
    sent(&mut conn, 7);
    sent(&mut conn, 8);
    assert_eq!(conn.inflight_len(), 2);
    assert!(matches!(conn.read_response(ConnReadEvent::Start), ClientStep::Flush));
    assert!(matches!(
        conn.read_response(ConnReadEvent::Flushed(Ok(()))),
        ClientStep::NeedRead(8096)
    ));
    let mut both = response("one");
    both.extend_from_slice(&response("two"));
    match conn.read_response(data(&both)) {
        ClientStep::Done(id, r) => {
            assert_eq!(id, 7);
            assert_eq!(r.body, b"one".to_vec());
        }
        _ => panic!("no response"),
    }
    assert_eq!(conn.request_cnt(), 1);
    assert!(matches!(conn.read_response(ConnReadEvent::Start), ClientStep::Flush));
    assert!(matches!(
        conn.read_response(ConnReadEvent::Flushed(Ok(()))),
        ClientStep::NeedRead(_)
    ));
    match conn.read_response(ConnReadEvent::Read(StreamRead::WouldBlock)) {
        ClientStep::Done(id, r) => {
            assert_eq!(id, 8);
            assert_eq!(r.body, b"two".to_vec());
        }
        _ => panic!("no response"),
    }
    assert_eq!(conn.inflight_len(), 0);
}

#[test]
fn probes_are_not_answers() {
    let mut conn: HttpConnClient<u8> = HttpConnClient::connect(uri(), 0);
    assert!(matches!(conn.write_raw_request(usize::MAX, b"x", None), ConnWriteStep::Send));
    assert_eq!(conn.unsent(), b"x");
    conn.sent(1);
    assert!(matches!(
        conn.write_raw_request(usize::MAX, b"x", Some(Ok(()))),
        ConnWriteStep::Done
    ));
    sent(&mut conn, 3);
    let _ = conn.read_response(ConnReadEvent::Start);
    let _ = conn.read_response(ConnReadEvent::Flushed(Ok(())));
    let mut step = conn.read_response(data(&response("probe")));
    if let ClientStep::NeedRead(_) = step {
        step = conn.read_response(data(&response("three")));
    }
    match step {
        ClientStep::Done(id, r) => {
            assert_eq!(id, 3);
            assert_eq!(r.body, b"three".to_vec());
        }
        _ => panic!("no response"),
    }
}

#[test]
fn nothing_was_asked_for() {
    let mut conn: HttpConnClient<u8> = HttpConnClient::connect(uri(), 0);
    assert!(matches!(conn.read_response(ConnReadEvent::Start), ClientStep::Flush));
    assert!(matches!(
        conn.read_response(ConnReadEvent::Flushed(Ok(()))),
        ClientStep::Failed(HttpConnError::WouldBlock)
    ));
    assert!(matches!(
        conn.read_response(ConnReadEvent::Flushed(Err(IOError::EOF { temporary: false }))),
        ClientStep::Failed(HttpConnError::EOF)
    ));
    assert!(matches!(
        conn.read_response(ConnReadEvent::Flushed(Err(IOError::Other("broken".to_owned())))),
        ClientStep::Failed(HttpConnError::IoError(_))
    ));
}

#[test]
fn client_that_loses_its_server() {
    let mut conn: HttpConnClient<u8> = HttpConnClient::connect(uri(), 0);
    sent(&mut conn, 1);
    let _ = conn.read_response(ConnReadEvent::Start);
    let _ = conn.read_response(ConnReadEvent::Flushed(Ok(())));
    assert!(matches!(
        conn.read_response(ConnReadEvent::Read(StreamRead::Eof)),
        ClientStep::Failed(HttpConnError::EOF)
    ));
}

#[test]
fn answer_that_cannot_be_read() {
    let mut conn: HttpConnClient<u8> = HttpConnClient::connect(uri(), 0);
    sent(&mut conn, 1);
    let _ = conn.read_response(ConnReadEvent::Start);
    let _ = conn.read_response(ConnReadEvent::Flushed(Ok(())));
    assert!(matches!(
        conn.read_response(data(b"HTTP/1.1 200 OK\r\n\r\n1\r\nabc")),
        ClientStep::Fault(ClientFault::Response(_))
    ));
}

#[test]
fn idle_connections_are_probed() {
    let mut conn: HttpConnClient<u8> = HttpConnClient::connect(uri(), 0);
    let req = request();
    let idle: u64 = 10_000_000_000;
    assert!(matches!(
        conn.write_request(1, &req, idle, ConnWriteEvent::Start),
        ConnWriteStep::Send
    ));
    assert!(matches!(
        conn.write_request(1, &req, idle + 1, ConnWriteEvent::Start),
        ConnWriteStep::Probe
    ));
    assert!(matches!(
        conn.write_request(1, &req, idle + 1, ConnWriteEvent::Probed(Ok(0))),
        ConnWriteStep::Failed(HttpConnError::EOF)
    ));
    assert!(matches!(
        conn.write_request(
            1,
            &req,
            idle + 1,
            ConnWriteEvent::Probed(Err(IOError::WouldBlock))
        ),
        ConnWriteStep::Send
    ));
}

fn served(conn: &mut HttpConnServer<u8>, bytes: &[u8]) -> ServerStep {
    assert!(matches!(conn.read_request(ConnReadEvent::Start, None), ServerStep::Flush));
    match conn.read_request(ConnReadEvent::Flushed(Ok(())), None) {
        ServerStep::NeedRead(_) => conn.read_request(data(bytes), None),
        other => other,
    }
}

#[test]
fn server_answers_a_request() {
    let mut conn: HttpConnServer<u8> = HttpConnServer::accept(0, None);
    match served(&mut conn, b"GET /a HTTP/1.1\r\n\r\n") {
        ServerStep::Done(req) => assert_eq!(req.path(), "/a"),
        _ => panic!("no request"),
    }
    assert!(matches!(conn.write_response(b"answer", None), ConnWriteStep::Send));
    assert_eq!(conn.unsent(), b"answer");
    conn.sent(2);
    assert_eq!(conn.unsent(), b"swer");
    conn.sent(4);
    assert!(matches!(conn.write_response(b"answer", Some(Ok(()))), ConnWriteStep::Done));
    assert_eq!(conn.answered(), 1);
    assert!(matches!(
        conn.write_response(b"again", None),
        ConnWriteStep::Failed(HttpConnError::EOF)
    ));
}

#[test]
fn closed_connection_gives_no_request() {
    let mut conn: HttpConnServer<u8> = HttpConnServer::accept(0, None);
    assert!(matches!(served(&mut conn, b"GET / HTTP/1.1\r\n\r\n"), ServerStep::Done(_)));
    conn.try_close();
    assert!(matches!(served(&mut conn, b""), ServerStep::NotReady));
    let _ = conn.write_response(b"x", None);
    let _ = conn.write_response(b"x", Some(Ok(())));
    assert!(matches!(served(&mut conn, b""), ServerStep::Failed(HttpConnError::EOF)));
}

#[test]
fn head_that_is_too_long() {
    let mut conn: HttpConnServer<u8> = HttpConnServer::accept(0, None);
    let mut long = b"GET /".to_vec();
    long.resize(8096, b'a');
    assert!(matches!(served(&mut conn, &long), ServerStep::Fault(ServerFault::HeadTooLong)));
}

#[test]
fn stream_and_what_was_read_off_it() {
    let mut conn: HttpConnServer<u8> = HttpConnServer::accept(5, None);
    assert!(matches!(served(&mut conn, b"GET / HTTP/1.1\r\n\r\nrest"), ServerStep::Done(_)));
    let (stream, buffer): (u8, BufferVec) = conn.into_raw();
    assert_eq!(stream, 5);
    assert_eq!(buffer.read(), b"rest");
}

#[test]
fn busier_connections_come_first() {
    let idle: HttpConnClient<u8> = HttpConnClient::connect(uri(), 0);
    let mut busy: HttpConnClient<u8> = HttpConnClient::connect(uri(), 1);
    sent(&mut busy, 1);
    assert!(busy < idle);
    assert!(idle > busy);
    assert!(idle == idle);
    assert!(idle != busy);
}

fn pool(n: u8) -> HttpConnClientPool<u8> {
    let mut clients: Vec<HttpConnClient<u8>> = Vec::new();
    for i in 0..n {
        clients.push(HttpConnClient::connect(uri(), i));
    }
    HttpConnClientPool::new(clients, &uri())
}

fn pool_sends(pool: &mut HttpConnClientPool<u8>, id: usize) -> u8 {
    let req = request();
    assert!(matches!(
        pool.write_request(id, &req, PoolWriteEvent::Start(0)),
        PoolWriteStep::Send
    ));
    let used = match pool.current() {
        Some(conn) => {
            let n = conn.unsent().len();
            conn.sent(n);
            conn.stream
        }
        None => panic!("no connection"),
    };
    assert!(matches!(
        pool.write_request(id, &req, PoolWriteEvent::Sent(Ok(()))),
        PoolWriteStep::Done
    ));
    used
}

#[test]
fn least_busy_is_used() {
    let mut pool = pool(3);
    assert_eq!(pool.len(), 3);
    let mut used = vec![pool_sends(&mut pool, 1), pool_sends(&mut pool, 2), pool_sends(&mut pool, 3)];
    used.sort();
    assert_eq!(used, vec![0, 1, 2]);
    assert_eq!(pool.inflight_len(), 3);
}

#[test]
fn requests_are_spread_evenly() {
    let mut pool = pool(3);
    let mut counts = vec![0, 0, 0];
    for id in 1..12 {
        counts[pool_sends(&mut pool, id) as usize] += 1;
        assert_eq!(pool.len(), 3);
        let most = counts.iter().max().unwrap();
        let least = counts.iter().min().unwrap();
        assert!(most - least <= 1);
        assert_eq!(pool.inflight_len(), id);
    }
}

#[test]
fn pool_replaces_dead_connections() {
    let mut pool = pool(1);
    let req = request();
    let idle: u64 = 11_000_000_000;
    assert!(matches!(
        pool.write_request(1, &req, PoolWriteEvent::Start(idle)),
        PoolWriteStep::Probe
    ));
    assert!(matches!(
        pool.write_request(1, &req, PoolWriteEvent::Probed(Ok(0))),
        PoolWriteStep::Reconnect
    ));
    assert!(matches!(
        pool.write_request(1, &req, PoolWriteEvent::Reconnected(Ok(9))),
        PoolWriteStep::Send
    ));
    assert_eq!(pool.current().map(|c| c.stream), Some(9));
    assert!(matches!(
        pool.write_request(1, &req, PoolWriteEvent::Sent(Ok(()))),
        PoolWriteStep::Done
    ));
    assert_eq!(pool.len(), 1);
}

#[test]
fn pool_that_cannot_reconnect() {
    let mut pool = pool(1);
    let req = request();
    let _ = pool.write_request(1, &req, PoolWriteEvent::Start(11_000_000_000));
    let _ = pool.write_request(1, &req, PoolWriteEvent::Probed(Ok(0)));
    assert!(matches!(
        pool.write_request(1, &req, PoolWriteEvent::Reconnected(Err(HttpConnError::Timeout))),
        PoolWriteStep::Failed(HttpConnError::Timeout)
    ));
    assert_eq!(pool.len(), 1);
}

#[test]
fn pool_reads_answers() {
    let mut pool = pool(2);
    let _ = pool_sends(&mut pool, 5);
    let mut step = pool.read_response(PoolReadEvent::Start);
    let mut answered = false;
    for _ in 0..10 {
        step = match step {
            PoolReadStep::Flush(_) => {
                pool.read_response(PoolReadEvent::Conn(ConnReadEvent::Flushed(Ok(()))))
            }
            PoolReadStep::NeedRead(i, _) => {
                assert_eq!(pool.client(i).inflight_len(), 1);
                pool.read_response(PoolReadEvent::Conn(data(&response("five"))))
            }
            PoolReadStep::Done(id, r) => {
                assert_eq!(id, 5);
                assert_eq!(r.body, b"five".to_vec());
                answered = true;
                break;
            }
            _ => panic!("no response"),
        };
    }
    assert!(answered);
    assert_eq!(pool.inflight_len(), 0);
}

#[test]
fn pool_reports_an_error_once_it_has_reconnected() {
    let mut pool = pool(1);
    let _ = pool_sends(&mut pool, 5);
    let _ = pool.read_response(PoolReadEvent::Start);
    let _ = pool.read_response(PoolReadEvent::Conn(ConnReadEvent::Flushed(Ok(()))));
    let eof = ConnReadEvent::Read(StreamRead::Eof);
    assert!(matches!(
        pool.read_response(PoolReadEvent::Conn(eof)),
        PoolReadStep::Reconnect(0)
    ));
    assert!(matches!(
        pool.read_response(PoolReadEvent::Reconnected(Ok(4))),
        PoolReadStep::Failed(HttpConnError::EOF)
    ));
    assert_eq!(pool.client(0).stream, 4);
    assert_eq!(pool.inflight_len(), 0);
}

#[test]
fn waiting_for_an_answer() {
    let mut conn: HttpConnBlockingClient<u8> = HttpConnBlockingClient::connect(uri(), 0);
    let req = request();
    let mut tries = 0;
    match conn.send(&req, &mut tries, SendEvent::Start) {
        SendStep::Write(bytes) => assert!(bytes.starts_with(b"GET / HTTP/1.1\r\n")),
        _ => panic!("nothing to write"),
    }
    assert!(matches!(
        conn.send(&req, &mut tries, SendEvent::Written(Ok(()))),
        SendStep::NeedRead(8096)
    ));
    assert!(matches!(
        conn.send(&req, &mut tries, SendEvent::Read(StreamRead::WouldBlock)),
        SendStep::NeedRead(8096)
    ));
    assert_eq!(tries, 1);
    match conn.send(&req, &mut tries, SendEvent::Read(StreamRead::Data(response("body")))) {
        SendStep::Done(r) => assert_eq!(r.body, b"body".to_vec()),
        _ => panic!("no response"),
    }
}

#[test]
fn waiting_has_an_end() {
    let mut conn: HttpConnBlockingClient<u8> = HttpConnBlockingClient::connect(uri(), 0);
    let req = request();
    let mut tries = 9999;
    assert!(matches!(
        conn.send(&req, &mut tries, SendEvent::Read(StreamRead::WouldBlock)),
        SendStep::Failed(HttpConnError::EOF)
    ));
    let mut tries = 0;
    assert!(matches!(
        conn.send(&req, &mut tries, SendEvent::Written(Err("broken".to_owned()))),
        SendStep::Failed(HttpConnError::IoError(_))
    ));
}
