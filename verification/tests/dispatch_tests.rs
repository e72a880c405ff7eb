use webrs::dispatch::{handle_options, normalize_path, static_response, Api, Handlers, Route};
use webrs::request::Request;

fn parse(raw: &[u8]) -> Request {
    Request::parse(raw).unwrap()
}

#[test]
fn api_paths_go_to_the_handler_scan() {
    let req = parse(b"GET /api/test HTTP/1.1\r\n\r\n");
    match Handlers::route(&req) {
        Route::ApiScan { remainder } => assert_eq!(remainder, b"/test".to_vec()),
        _ => panic!("expected the API scan"),
    }
}

#[test]
fn the_api_root_is_rejected() {
    let req = parse(b"POST /api HTTP/1.1\r\n\r\n");
    assert!(matches!(Handlers::route(&req), Route::ApiReject));
}

#[test]
fn non_api_get_serves_static_content() {
    let req = parse(b"GET /page HTTP/1.1\r\n\r\n");
    assert!(matches!(Handlers::route(&req), Route::StaticContent));
}

#[test]
fn non_api_post_is_method_not_allowed() {
    let req = parse(b"POST /page HTTP/1.1\r\n\r\n");
    assert!(matches!(Handlers::route(&req), Route::MethodNotAllowed));
}

#[test]
fn options_is_central_whatever_the_path() {
    for raw in [
        b"OPTIONS / HTTP/1.1\r\n\r\n".as_slice(),
        b"OPTIONS /api/test HTTP/1.1\r\n\r\n".as_slice(),
        b"OPTIONS /deep/path HTTP/1.1\r\n\r\n".as_slice(),
    ] {
        let req = parse(raw);
        assert!(matches!(Handlers::route(&req), Route::Options));
        let res = handle_options(&req).unwrap();
        assert_eq!(res.get_code(), 204);
        let headers = res.get_headers();
        assert_eq!(headers.len(), 1);
        assert_eq!(headers[0].0, b"allow".to_vec());
        assert_eq!(headers[0].1, b"GET, POST, OPTIONS".to_vec());
        assert_eq!(res.get_data(), Vec::<u8>::new());
    }
}

#[test]
fn first_registered_matching_prefix_wins() {
    let prefixes: Vec<Vec<u8>> = vec![b"/a".to_vec(), b"/ab".to_vec()];
    let order = Api::matching_methods(&prefixes, b"/ab/x");
    assert_eq!(order, vec![0, 1]);

    let reversed: Vec<Vec<u8>> = vec![b"/ab".to_vec(), b"/a".to_vec()];
    let order = Api::matching_methods(&reversed, b"/ab/x");
    assert_eq!(order, vec![0, 1]);
}

#[test]
fn only_matching_prefixes_are_scanned() {
    let prefixes: Vec<Vec<u8>> = vec![b"/test".to_vec(), b"/other".to_vec()];
    assert_eq!(Api::matching_methods(&prefixes, b"/test/go"), vec![0]);
    assert_eq!(Api::matching_methods(&prefixes, b"/other"), vec![1]);
    assert_eq!(Api::matching_methods(&prefixes, b"/none"), Vec::<usize>::new());
}

#[test]
fn paths_are_normalized_for_the_static_lookup() {
    assert_eq!(normalize_path(b"/dir/"), b"/dir/index.html".to_vec());
    assert_eq!(normalize_path(b"/page"), b"/page.html".to_vec());
    assert_eq!(normalize_path(b"/style.css"), b"/style.css".to_vec());
}

#[test]
fn found_static_content_is_served_with_its_mime_type() {
    let res = static_response(b"/page.html", Some(b"<p>hi</p>".to_vec()));
    assert_eq!(res.get_code(), 200);
    assert_eq!(res.get_content_type(), b"text/html".to_vec());
    assert_eq!(res.get_data(), b"<p>hi</p>".to_vec());
}

#[test]
fn unknown_extensions_fall_back_to_text_plain() {
    let res = static_response(b"/data.zzzunknown", Some(b"x".to_vec()));
    assert_eq!(res.get_code(), 200);
    assert_eq!(res.get_content_type(), b"text/plain".to_vec());
}

#[test]
fn a_missing_file_is_a_404_page() {
    let res = static_response(b"/gone.html", None);
    assert_eq!(res.get_code(), 404);
    assert_eq!(res.get_content_type(), b"text/html".to_vec());
    let body = String::from_utf8(res.get_data()).unwrap();
    assert!(body.contains("404 Not found"));
}
