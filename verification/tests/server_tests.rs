use webrs::request::Request;
use webrs::server::{keep_alive, read_step, ReadDirective, ReadEvent, WebrsHttp};

#[test]
fn configuration_is_reported_back() {
    let server = WebrsHttp::new(8080, (true, false, true), String::from("content"));
    assert_eq!(server.get_port(), 8080);
    assert_eq!(server.get_compression(), (true, false, true));
    assert_eq!(server.get_content_dir(), String::from("content"));
}

#[test]
fn reading_accumulates_until_the_terminator() {
    let mut acc: Vec<u8> = Vec::new();
    let d = read_step(&mut acc, ReadEvent::Data(b"GET / HTTP/1.1\r\n".to_vec()));
    assert_eq!(d, ReadDirective::NeedMore);
    let d = read_step(&mut acc, ReadEvent::Data(b"Host: h\r\n\r\n".to_vec()));
    assert_eq!(d, ReadDirective::FrameReady);
    assert_eq!(acc, b"GET / HTTP/1.1\r\nHost: h\r\n\r\n".to_vec());
}

#[test]
fn close_retry_and_failure_events_decide_the_connection() {
    let mut acc: Vec<u8> = b"partial".to_vec();
    assert_eq!(read_step(&mut acc, ReadEvent::Closed), ReadDirective::CloseNow);
    assert_eq!(read_step(&mut acc, ReadEvent::WouldBlock), ReadDirective::RetryLater);
    assert_eq!(read_step(&mut acc, ReadEvent::Failed), ReadDirective::CloseNow);
    assert_eq!(acc, b"partial".to_vec());
}

#[test]
fn connection_close_serves_one_request() {
    let req = Request::parse(b"GET / HTTP/1.1\r\nConnection: close\r\n\r\n").unwrap();
    assert!(!keep_alive(&req));
}

#[test]
fn keep_alive_holds_the_connection_open() {
    let req = Request::parse(b"GET / HTTP/1.1\r\nConnection: keep-alive\r\n\r\n").unwrap();
    assert!(keep_alive(&req));
}

#[test]
fn keep_alive_is_case_insensitive() {
    let req = Request::parse(b"GET / HTTP/1.1\r\nCONNECTION: Keep-Alive\r\n\r\n").unwrap();
    assert!(keep_alive(&req));
}

#[test]
fn a_missing_connection_header_closes() {
    let req = Request::parse(b"GET / HTTP/1.1\r\n\r\n").unwrap();
    assert!(!keep_alive(&req));
}
