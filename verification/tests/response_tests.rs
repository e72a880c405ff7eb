use webrs::response::Response;

#[test]
fn basic_renders_code_and_description_as_html() {
    let res = Response::basic(404, "Not Found");
    assert_eq!(res.get_code(), 404);
    assert_eq!(res.get_content_type(), b"text/html".to_vec());
    let body = String::from_utf8(res.get_data()).unwrap();
    assert!(body.contains("404 Not Found"));
}

#[test]
fn serialization_injects_content_type_and_length() {
    let mut res = Response::new(200, "text/plain");
    res.set_data(b"hi".to_vec());
    let wire = res.to_bytes();
    assert_eq!(
        wire,
        b"HTTP/1.1 200 OK\r\ncontent-type: text/plain\r\ncontent-length: 2\r\n\r\nhi".to_vec()
    );
}

#[test]
fn serialization_keeps_a_handler_set_content_type() {
    let mut res = Response::new(200, "text/plain");
    res.add_header("Content-Type", "application/octet-stream");
    res.set_data(b"abc".to_vec());
    let wire = String::from_utf8(res.to_bytes()).unwrap();
    let head = wire.split("\r\n\r\n").next().unwrap();
    let ct_lines: Vec<&str> = head
        .lines()
        .filter(|l| l.to_ascii_lowercase().starts_with("content-type:"))
        .collect();
    assert_eq!(ct_lines, vec!["content-type: application/octet-stream"]);
}

#[test]
fn serialization_emits_each_injected_header_once() {
    let mut res = Response::new(204, "text/plain");
    res.add_header("allow", "GET, POST, OPTIONS");
    let wire = String::from_utf8(res.to_bytes()).unwrap();
    let head = wire.split("\r\n\r\n").next().unwrap();
    assert_eq!(head.lines().filter(|l| l.starts_with("content-type:")).count(), 1);
    assert_eq!(head.lines().filter(|l| l.starts_with("content-length:")).count(), 1);
    assert_eq!(head.lines().filter(|l| l.starts_with("allow:")).count(), 1);
    assert!(head.starts_with("HTTP/1.1 204 OK"));
}

#[test]
fn add_header_replaces_same_name_ignoring_case() {
    let mut res = Response::new(200, "text/plain");
    res.add_header("X-Tag", "one");
    res.add_header("x-tag", "two");
    let headers = res.get_headers();
    assert_eq!(headers.len(), 1);
    assert_eq!(headers[0].1, b"two".to_vec());
}

#[test]
fn setters_and_getters_agree() {
    let mut res = Response::new(200, "text/plain");
    res.set_code(503);
    res.set_content_type("application/json");
    res.set_data_as_slice(b"{}");
    assert_eq!(res.get_code(), 503);
    assert_eq!(res.get_content_type(), b"application/json".to_vec());
    assert_eq!(res.get_data(), b"{}".to_vec());
}

#[test]
fn with_description_keeps_the_status_code() {
    let res = Response::new(410, "text/plain");
    let page = res.with_description("Gone");
    assert_eq!(page.get_code(), 410);
    assert_eq!(page.get_content_type(), b"text/http".to_vec());
    let body = String::from_utf8(page.get_data()).unwrap();
    assert!(body.contains("410 Gone"));
}

#[test]
fn from_json_renders_the_value() {
    let mut map = serde_json::Map::new();
    map.insert(String::from("ok"), serde_json::Value::Bool(true));
    let value = serde_json::Value::Object(map);
    let expected = serde_json::to_string(&value).unwrap();
    let res = Response::from_json(201, value).unwrap();
    assert_eq!(res.get_code(), 201);
    assert_eq!(res.get_content_type(), b"application/json".to_vec());
    assert_eq!(res.get_data(), expected.into_bytes());
}
