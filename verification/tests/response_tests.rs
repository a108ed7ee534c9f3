use mini_http::http::{HttpResponse, HttpStatusCode};

fn contains(haystack: &[u8], needle: &[u8]) -> bool {
    haystack
        .windows(needle.len())
        .any(|w| w == needle)
}

#[test]
fn status_texts() {
    assert_eq!(HttpStatusCode::Okay.as_bytes(), b"200 OK".to_vec());
    assert_eq!(HttpStatusCode::NotFound.as_bytes(), b"404 Not Found".to_vec());
    assert_eq!(HttpStatusCode::Created.as_bytes(), b"201 Created".to_vec());
}

#[test]
fn encode_empty_ok_exact_bytes() {
    let wire = HttpResponse::new_ok().encode();
    assert_eq!(
        wire,
        b"HTTP/1.1 200 OK\r\nContent-Length: 0\r\nContent-Type: text/plain\r\n\r\n".to_vec()
    );
}

#[test]
fn encode_with_body_exact_bytes() {
    let wire = HttpResponse::new_ok().with_body(b"hello".to_vec()).encode();
    assert_eq!(
        wire,
        b"HTTP/1.1 200 OK\r\nContent-Length: 5\r\nContent-Type: text/plain\r\n\r\nhello".to_vec()
    );
}

#[test]
fn content_length_present_for_every_status() {
    let cases = [
        (HttpStatusCode::Okay, Some(b"abc".to_vec()), b"Content-Length: 3".to_vec()),
        (HttpStatusCode::NotFound, None, b"Content-Length: 0".to_vec()),
        (HttpStatusCode::Created, Some(b"0123456789".to_vec()), b"Content-Length: 10".to_vec()),
    ];
    for (status, body, needle) in cases {
        let mut resp = HttpResponse::new(status);
        if let Some(b) = body {
            resp = resp.with_body(b);
        }
        let wire = resp.encode();
        assert!(contains(&wire, &needle));
    }
}

#[test]
fn content_length_of_large_body() {
    let body = vec![120u8; 1024];
    let wire = HttpResponse::new_ok().with_body(body).encode();
    assert!(contains(&wire, b"Content-Length: 1024"));
}

#[test]
fn custom_header_suppresses_default_content_type() {
    let wire = HttpResponse::new_ok()
        .set_header(b"X-One", b"1")
        .encode();
    assert_eq!(
        wire,
        b"HTTP/1.1 200 OK\r\nContent-Length: 0\r\nX-One: 1\r\n\r\n".to_vec()
    );
}

#[test]
fn headers_are_emitted_in_key_order() {
    let wire = HttpResponse::new_ok()
        .set_header(b"Zed", b"z")
        .set_header(b"Alpha", b"a")
        .encode();
    assert_eq!(
        wire,
        b"HTTP/1.1 200 OK\r\nContent-Length: 0\r\nAlpha: a\r\nZed: z\r\n\r\n".to_vec()
    );
}

#[test]
fn setting_a_header_twice_keeps_the_last_value() {
    let wire = HttpResponse::new_ok()
        .set_header(b"A", b"1")
        .set_header(b"A", b"2")
        .encode();
    assert_eq!(
        wire,
        b"HTTP/1.1 200 OK\r\nContent-Length: 0\r\nA: 2\r\n\r\n".to_vec()
    );
}

#[test]
fn new_with_status_carries_that_status() {
    let resp = HttpResponse::new(HttpStatusCode::Created);
    assert!(matches!(resp.status_code, HttpStatusCode::Created));
    assert!(resp.body.is_none());
    assert!(resp.headers.is_none());
}

#[test]
fn three_headers_are_emitted_sorted() {
    let wire = HttpResponse::new_ok()
        .set_header(b"M", b"2")
        .set_header(b"Z", b"3")
        .set_header(b"A", b"1")
        .encode();
    assert_eq!(
        wire,
        b"HTTP/1.1 200 OK\r\nContent-Length: 0\r\nA: 1\r\nM: 2\r\nZ: 3\r\n\r\n".to_vec()
    );
}
