use hearth::Response;

#[test]
fn ok_response_bytes_are_correct() {
    let resp = Response::ok().with_header("Content-Type", "text/plain").with_body(b"hi".to_vec());
    let bytes = resp.to_bytes(true);
    let s = String::from_utf8(bytes).unwrap();
    assert!(s.starts_with("HTTP/1.1 200 OK\r\n"));
    assert!(s.contains("Content-Type: text/plain\r\n"));
    assert!(s.contains("Content-Length: 2\r\n"));
    assert!(s.contains("Connection: keep-alive\r\n"));
    assert!(s.ends_with("\r\n\r\nhi"));
}

#[test]
fn connection_close_when_not_keep_alive() {
    let resp = Response::ok();
    let s = String::from_utf8(resp.to_bytes(false)).unwrap();
    assert!(s.contains("Connection: close\r\n"));
}

#[test]
fn not_found_has_404_status_line() {
    let resp = Response::not_found();
    let s = String::from_utf8(resp.to_bytes(true)).unwrap();
    assert!(s.starts_with("HTTP/1.1 404 Not Found\r\n"));
}
