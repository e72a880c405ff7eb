use webrs::request::{ReqErrorKind, ReqTypes, Request};

fn lookup(map: &[(Vec<u8>, Vec<u8>)], key: &[u8]) -> Option<Vec<u8>> {
    map.iter().find(|(k, _)| k == key).map(|(_, v)| v.clone())
}

#[test]
fn parses_a_full_request_exactly() {
    let raw = b"GET /path?a=1&b=2 HTTP/1.1\r\nContent-Type: text/html\r\nAccept-Encoding: gzip, zstd\r\n\r\nBODY";
    let req = Request::parse(raw).unwrap();
    assert_eq!(req.get_type(), ReqTypes::GET);
    assert_eq!(req.get_endpoint(), b"/path".to_vec());
    assert_eq!(req.get_data(), b"BODY".to_vec());
    assert_eq!(req.get_content_type(), b"text/html".to_vec());
    let params = req.get_url_params();
    assert_eq!(lookup(&params, b"a"), Some(b"1".to_vec()));
    assert_eq!(lookup(&params, b"b"), Some(b"2".to_vec()));
    assert_eq!(lookup(&params, b"c"), None);
    let headers = req.get_headers();
    assert_eq!(lookup(&headers, b"content-type"), Some(b"text/html".to_vec()));
    assert_eq!(lookup(&headers, b"accept-encoding"), Some(b"gzip, zstd".to_vec()));
}

#[test]
fn header_names_are_case_folded() {
    let raw = b"POST /x HTTP/1.1\r\nX-CUSTOM-Header: Value\r\n\r\n";
    let req = Request::parse(raw).unwrap();
    assert_eq!(req.get_type(), ReqTypes::POST);
    let headers = req.get_headers();
    assert_eq!(lookup(&headers, b"x-custom-header"), Some(b"Value".to_vec()));
    assert_eq!(req.header_value(b"x-custom-header"), Some(b"Value".to_vec()));
}

#[test]
fn header_value_keeps_everything_after_first_separator() {
    let raw = b"GET / HTTP/1.1\r\nX-Note: a: b\r\n\r\n";
    let req = Request::parse(raw).unwrap();
    assert_eq!(req.header_value(b"x-note"), Some(b"a: b".to_vec()));
}

#[test]
fn header_lines_without_separator_are_dropped() {
    let raw = b"GET / HTTP/1.1\r\nnonsense-line\r\nReal: yes\r\n\r\n";
    let req = Request::parse(raw).unwrap();
    let headers = req.get_headers();
    assert_eq!(headers.len(), 1);
    assert_eq!(lookup(&headers, b"real"), Some(b"yes".to_vec()));
}

#[test]
fn later_duplicate_header_wins() {
    let raw = b"GET / HTTP/1.1\r\nX-D: one\r\nx-d: two\r\n\r\n";
    let req = Request::parse(raw).unwrap();
    let headers = req.get_headers();
    assert_eq!(headers.len(), 1);
    assert_eq!(lookup(&headers, b"x-d"), Some(b"two".to_vec()));
}

#[test]
fn malformed_query_pairs_are_dropped() {
    let raw = b"GET /p?good=1&bad&also=2 HTTP/1.1\r\n\r\n";
    let req = Request::parse(raw).unwrap();
    let params = req.get_url_params();
    assert_eq!(params.len(), 2);
    assert_eq!(lookup(&params, b"good"), Some(b"1".to_vec()));
    assert_eq!(lookup(&params, b"also"), Some(b"2".to_vec()));
}

#[test]
fn query_keys_are_plain_strings() {
    let raw = b"GET /x?a=1&A=2 HTTP/1.1\r\n\r\n";
    let req = Request::parse(raw).unwrap();
    let params = req.get_url_params();
    assert_eq!(params.len(), 2);
    assert_eq!(lookup(&params, b"a"), Some(b"1".to_vec()));
    assert_eq!(lookup(&params, b"A"), Some(b"2".to_vec()));
}

#[test]
fn later_duplicate_query_key_wins() {
    let raw = b"GET /x?k=1&k=2 HTTP/1.1\r\n\r\n";
    let req = Request::parse(raw).unwrap();
    let params = req.get_url_params();
    assert_eq!(params.len(), 1);
    assert_eq!(lookup(&params, b"k"), Some(b"2".to_vec()));
}

#[test]
fn content_type_defaults_to_text_plain() {
    let raw = b"GET / HTTP/1.1\r\n\r\n";
    let req = Request::parse(raw).unwrap();
    assert_eq!(req.get_content_type(), b"text/plain".to_vec());
}

#[test]
fn unknown_method_maps_to_501() {
    let raw = b"BREW /pot HTTP/1.1\r\n\r\n";
    let err = Request::parse(raw).unwrap_err();
    assert_eq!(err.kind, ReqErrorKind::UnsupportedMethod);
    assert_eq!(err.get_code(), 501);
    assert_eq!(err.get_description(), "Not Implemented");
}

#[test]
fn missing_terminator_maps_to_400() {
    let raw = b"GET / HTTP/1.1\r\nHeader: value\r\n";
    let err = Request::parse(raw).unwrap_err();
    assert_eq!(err.kind, ReqErrorKind::MalformedFraming);
    assert_eq!(err.get_code(), 400);
    assert_eq!(err.get_description(), "Bad Request");
}

#[test]
fn short_request_line_maps_to_400() {
    let raw = b"GET\r\n\r\n";
    let err = Request::parse(raw).unwrap_err();
    assert_eq!(err.kind, ReqErrorKind::MalformedRequestLine);
    assert_eq!(err.get_code(), 400);
}

#[test]
fn options_method_is_recognized() {
    let raw = b"OPTIONS /anything HTTP/1.1\r\n\r\n";
    let req = Request::parse(raw).unwrap();
    assert_eq!(req.get_type(), ReqTypes::OPTIONS);
}

#[test]
fn request_ids_are_distinct() {
    let a = Request::parse(b"GET / HTTP/1.1\r\n\r\n").unwrap();
    let b = Request::parse(b"GET / HTTP/1.1\r\n\r\n").unwrap();
    assert_ne!(a.get_id(), b.get_id());
}
