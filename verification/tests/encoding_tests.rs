use std::io::Read;

use webrs::dispatch::Handlers;
use webrs::request::Request;
use webrs::response::Response;
use webrs::server::WebrsHttp;

fn header_of(res: &Response, key: &[u8]) -> Option<Vec<u8>> {
    res.get_headers().into_iter().find(|(k, _)| k == key).map(|(_, v)| v)
}

fn request_with_accept(value: &str) -> Request {
    let raw = format!("GET / HTTP/1.1\r\nAccept-Encoding: {}\r\n\r\n", value);
    Request::parse(raw.as_bytes()).unwrap()
}

fn body_response() -> Response {
    let mut res = Response::new(200, "text/plain");
    res.set_data(b"hello hello hello hello hello".to_vec());
    res
}

#[test]
fn zstd_wins_over_gzip_and_round_trips() {
    let server = WebrsHttp::new(8080, (true, true, true), String::from("content"));
    let req = request_with_accept("gzip, zstd");
    let out = Handlers::handle_compression(&server, &req, body_response());
    assert_eq!(header_of(&out, b"content-encoding"), Some(b"zstd".to_vec()));
    let decoded = zstd::decode_all(out.get_data().as_slice()).unwrap();
    assert_eq!(decoded, b"hello hello hello hello hello".to_vec());
}

#[test]
fn disabled_zstd_applies_no_encoding() {
    let server = WebrsHttp::new(8080, (false, true, true), String::from("content"));
    let req = request_with_accept("zstd");
    let out = Handlers::handle_compression(&server, &req, body_response());
    assert_eq!(header_of(&out, b"content-encoding"), None);
    assert_eq!(out.get_data(), b"hello hello hello hello hello".to_vec());
}

#[test]
fn disabled_zstd_falls_back_to_next_offer() {
    let server = WebrsHttp::new(8080, (false, true, true), String::from("content"));
    let req = request_with_accept("zstd, gzip");
    let out = Handlers::handle_compression(&server, &req, body_response());
    assert_eq!(header_of(&out, b"content-encoding"), Some(b"gzip".to_vec()));
    let mut decoded: Vec<u8> = Vec::new();
    let data = out.get_data();
    let mut d = flate2::bufread::GzDecoder::new(data.as_slice());
    d.read_to_end(&mut decoded).unwrap();
    assert_eq!(decoded, b"hello hello hello hello hello".to_vec());
}

#[test]
fn brotli_is_preferred_over_gzip_and_round_trips() {
    let server = WebrsHttp::new(8080, (true, true, true), String::from("content"));
    let req = request_with_accept("gzip, br");
    let out = Handlers::handle_compression(&server, &req, body_response());
    assert_eq!(header_of(&out, b"content-encoding"), Some(b"br".to_vec()));
    let mut decoded: Vec<u8> = Vec::new();
    let data = out.get_data();
    let mut d = brotli::Decompressor::new(data.as_slice(), 4096);
    d.read_to_end(&mut decoded).unwrap();
    assert_eq!(decoded, b"hello hello hello hello hello".to_vec());
}

#[test]
fn unrecognized_tokens_are_skipped() {
    let server = WebrsHttp::new(8080, (true, true, true), String::from("content"));
    let req = request_with_accept("identity, gzip");
    let out = Handlers::handle_compression(&server, &req, body_response());
    assert_eq!(header_of(&out, b"content-encoding"), Some(b"gzip".to_vec()));
}

#[test]
fn only_unrecognized_tokens_apply_nothing() {
    let server = WebrsHttp::new(8080, (true, true, true), String::from("content"));
    let req = request_with_accept("identity, deflate");
    let out = Handlers::handle_compression(&server, &req, body_response());
    assert_eq!(header_of(&out, b"content-encoding"), None);
    assert_eq!(out.get_data(), b"hello hello hello hello hello".to_vec());
}

#[test]
fn absent_header_leaves_response_unchanged() {
    let server = WebrsHttp::new(8080, (true, true, true), String::from("content"));
    let req = Request::parse(b"GET / HTTP/1.1\r\n\r\n").unwrap();
    let out = Handlers::handle_compression(&server, &req, body_response());
    assert_eq!(header_of(&out, b"content-encoding"), None);
    assert_eq!(out.get_data(), b"hello hello hello hello hello".to_vec());
    assert_eq!(out.get_code(), 200);
}
