use http::{
    ConnPool, ConnPoolGuard, HttpClient, HttpConnError, HttpMethod, HttpRequestBuilder,
    HttpResponseBuilder, HttpSend, HttpSendEvent, HttpSendStep, SendEvent, StreamRead, Uri,
};

#[test]
fn last_in_first_out() {
    let mut pool: ConnPool<u32> = ConnPool::new(None);
    assert!(pool.pop(0).is_none());
    ConnPoolGuard::new(1, false, 0).reuse(&mut pool);
    ConnPoolGuard::new(2, false, 5).reuse(&mut pool);
    let mut guard = pool.pop(1000).unwrap();
    assert_eq!(*guard.raw(), 2);
    assert!(guard.is_reused());
    *guard.raw() = 3;
    guard.reuse(&mut pool);
    assert_eq!(*pool.pop(1000).unwrap().raw(), 3);
    assert_eq!(*pool.pop(1000).unwrap().raw(), 1);
    assert!(pool.pop(1000).is_none());
}

#[test]
fn what_has_lain_too_long_is_dropped() {
    let mut pool: ConnPool<u32> = ConnPool::new(Some(10));
    ConnPoolGuard::new(1, false, 3).reuse(&mut pool);
    ConnPoolGuard::new(2, false, 0).reuse(&mut pool);
    assert_eq!(*pool.pop(12).unwrap().raw(), 1);
    assert!(pool.pop(12).is_none());
    ConnPoolGuard::new(4, false, 0).reuse(&mut pool);
    assert!(pool.pop(10).is_none());
}

#[test]
fn made_where_there_is_nothing() {
    let mut pool: ConnPool<u32> = ConnPool::new(Some(10));
    let made: Result<ConnPoolGuard<u32>, ()> = pool.get_or(1, || Ok(7));
    let mut guard = made.unwrap();
    assert!(!guard.is_reused());
    assert_eq!(*guard.raw(), 7);
    guard.reuse(&mut pool);
    let found: Result<ConnPoolGuard<u32>, ()> = pool.get_or(2, || Err(()));
    assert!(found.unwrap().is_reused());
    let none: Result<ConnPoolGuard<u32>, ()> = pool.get_or(2, || Err(()));
    assert!(none.is_err());
}

fn request() -> HttpRequestBuilder {
    let uri = match Uri::try_new("http://h.example/") {
        Some(Ok(uri)) => uri,
        _ => panic!("no address"),
    };
    HttpRequestBuilder::new(HttpMethod::Get, uri, None)
}

fn answer() -> HttpSendEvent<u8> {
    let bytes = HttpResponseBuilder::new(200).body(b"hi".to_vec()).to_vec();
    HttpSendEvent::Conn(SendEvent::Read(StreamRead::Data(bytes)))
}

fn eof() -> HttpSendEvent<u8> {
    HttpSendEvent::Conn(SendEvent::Read(StreamRead::Eof))
}

fn wrote() -> HttpSendEvent<u8> {
    HttpSendEvent::Conn(SendEvent::Written(Ok(())))
}

fn exchange(client: &mut HttpClient<u8>, now: u64) {
    let req = request();
    let mut send: HttpSend<u8> = HttpSend::new(&req, None, now);
    match client.send(&mut send, &req, now, HttpSendEvent::Start) {
        HttpSendStep::Connect => {
            let step = client.send(&mut send, &req, now, HttpSendEvent::Connected(Ok(1)));
            assert!(matches!(step, HttpSendStep::Write(_)));
        }
        HttpSendStep::Write(_) => {}
        _ => panic!("not begun"),
    }
    let step = client.send(&mut send, &req, now, wrote());
    assert!(matches!(step, HttpSendStep::NeedRead(8096)));
    match client.send(&mut send, &req, now, answer()) {
        HttpSendStep::Done(r) => assert_eq!(r.body, b"hi".to_vec()),
        _ => panic!("no response"),
    }
}

#[test]
fn kept_connection_is_used_next() {
    let mut client: HttpClient<u8> = HttpClient::new();
    exchange(&mut client, 0);
    let req = request();
    let mut send: HttpSend<u8> = HttpSend::new(&req, None, 5);
    let step = client.send(&mut send, &req, 5, HttpSendEvent::Start);
    assert!(matches!(step, HttpSendStep::Write(_)));
    assert_eq!(send.conn().map(|c| c.stream), Some(1));
}

#[test]
fn connection_is_not_kept_for_ever() {
    let mut client: HttpClient<u8> = HttpClient::new();
    exchange(&mut client, 0);
    let req = request();
    let now: u64 = 10_000_000_000;
    let mut send: HttpSend<u8> = HttpSend::new(&req, None, now);
    let step = client.send(&mut send, &req, now, HttpSendEvent::Start);
    assert!(matches!(step, HttpSendStep::Connect));
}

#[test]
fn dead_connection_is_replaced() {
    let mut client: HttpClient<u8> = HttpClient::new();
    exchange(&mut client, 0);
    let req = request();
    let mut send: HttpSend<u8> = HttpSend::new(&req, None, 1);
    let _ = client.send(&mut send, &req, 1, HttpSendEvent::Start);
    let _ = client.send(&mut send, &req, 1, wrote());
    assert!(matches!(client.send(&mut send, &req, 1, eof()), HttpSendStep::Connect));
    let _ = client.send(&mut send, &req, 1, HttpSendEvent::Connected(Ok(2)));
    let _ = client.send(&mut send, &req, 1, wrote());
    assert!(matches!(
        client.send(&mut send, &req, 1, eof()),
        HttpSendStep::Failed(HttpConnError::EOF)
    ));
}

#[test]
fn time_is_up() {
    let mut client: HttpClient<u8> = HttpClient::new();
    let req = request();
    let mut send: HttpSend<u8> = HttpSend::new(&req, Some(100), 0);
    let _ = client.send(&mut send, &req, 0, HttpSendEvent::Start);
    assert!(matches!(
        client.send(&mut send, &req, 100, HttpSendEvent::Connected(Ok(2))),
        HttpSendStep::Failed(HttpConnError::Timeout)
    ));
    let mut send: HttpSend<u8> = HttpSend::new(&req, Some(100), 0);
    let _ = client.send(&mut send, &req, 0, HttpSendEvent::Start);
    let _ = client.send(&mut send, &req, 60, HttpSendEvent::Connected(Ok(2)));
    assert_eq!(send.timeout(), Some(40));
}

#[test]
fn no_connection_at_all() {
    let mut client: HttpClient<u8> = HttpClient::new();
    let req = request();
    let mut send: HttpSend<u8> = HttpSend::new(&req, None, 0);
    let _ = client.send(&mut send, &req, 0, HttpSendEvent::Start);
    let refused = Err(HttpConnError::IoError("refused".to_owned()));
    assert!(matches!(
        client.send(&mut send, &req, 0, HttpSendEvent::Connected(refused)),
        HttpSendStep::Failed(HttpConnError::IoError(_))
    ));
}
