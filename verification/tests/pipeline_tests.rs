use webrs::dispatch::{Handlers, Route};
use webrs::request::Request;
use webrs::response::Response;
use webrs::server::{keep_alive, WebrsHttp};

#[test]
fn a_request_flows_through_parse_negotiation_and_serialization() {
    let raw = b"GET /data HTTP/1.1\r\nAccept-Encoding: gzip, zstd\r\nConnection: keep-alive\r\n\r\n";
    let req = Request::parse(raw).unwrap();
    assert!(matches!(Handlers::route(&req), Route::StaticContent));

    let mut res = Response::new(200, "text/plain");
    res.set_data(b"payload payload payload payload".to_vec());

    let server = WebrsHttp::new(8080, (true, true, true), String::from("content"));
    let out = Handlers::handle_compression(&server, &req, res);
    let body = out.get_data();

    let wire = out.to_bytes();
    let split = wire.windows(4).position(|w| w == b"\r\n\r\n").unwrap();
    let head = String::from_utf8(wire[..split].to_vec()).unwrap();
    let sent_body = &wire[split + 4..];

    assert!(head.starts_with("HTTP/1.1 200 OK"));
    let lines: Vec<&str> = head.lines().collect();
    assert_eq!(lines.iter().filter(|l| l.starts_with("content-encoding:")).count(), 1);
    assert!(lines.contains(&"content-encoding: zstd"));
    assert_eq!(lines.iter().filter(|l| l.starts_with("content-type:")).count(), 1);
    let cl_line = lines.iter().find(|l| l.starts_with("content-length:")).unwrap();
    assert_eq!(*cl_line, format!("content-length: {}", body.len()).as_str());

    assert_eq!(sent_body, body.as_slice());
    let decoded = zstd::decode_all(sent_body).unwrap();
    assert_eq!(decoded, b"payload payload payload payload".to_vec());

    assert!(keep_alive(&req));
    let second = Request::parse(b"GET / HTTP/1.1\r\nConnection: close\r\n\r\n").unwrap();
    assert!(!keep_alive(&second));
}
