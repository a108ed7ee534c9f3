use mini_http::connection::{file_fetched, file_stored, handle_request, Exchange, HandleFailure};
use mini_http::error::HttpError;
use mini_http::router::RouteFailure;

#[test]
fn exchange_root_replies_ok() {
    match handle_request(b"GET / HTTP/1.1\r\n\r\n").unwrap() {
        Exchange::Reply(wire) => assert_eq!(
            wire,
            b"HTTP/1.1 200 OK\r\nContent-Length: 0\r\nContent-Type: text/plain\r\n\r\n".to_vec()
        ),
        _ => panic!("expected a reply"),
    }
}

#[test]
fn exchange_echo_replies_with_body() {
    match handle_request(b"GET /echo/hello HTTP/1.1\r\n\r\n").unwrap() {
        Exchange::Reply(wire) => assert_eq!(
            wire,
            b"HTTP/1.1 200 OK\r\nContent-Length: 5\r\nContent-Type: text/plain\r\n\r\nhello"
                .to_vec()
        ),
        _ => panic!("expected a reply"),
    }
}

#[test]
fn exchange_files_get_hands_the_name_up() {
    match handle_request(b"GET /files/a.txt HTTP/1.1\r\n\r\n").unwrap() {
        Exchange::FetchFile(name) => assert_eq!(name, b"a.txt".to_vec()),
        _ => panic!("expected a fetch"),
    }
}

#[test]
fn exchange_files_post_hands_name_and_bytes_up() {
    match handle_request(b"POST /files/a.txt HTTP/1.1\r\n\r\npayload\r\n").unwrap() {
        Exchange::StoreFile(name, data) => {
            assert_eq!(name, b"a.txt".to_vec());
            assert_eq!(data, b"payload".to_vec());
        }
        _ => panic!("expected a store"),
    }
}

#[test]
fn exchange_decode_failure_is_reported() {
    let err = handle_request(b"FOO / HTTP/1.1\r\n\r\n").unwrap_err();
    assert_eq!(err, HandleFailure::Decode(HttpError::MethodError));
}

#[test]
fn exchange_route_failure_is_reported() {
    let err = handle_request(b"GET /user-agent HTTP/1.1\r\n\r\n").unwrap_err();
    assert_eq!(err, HandleFailure::Route(RouteFailure::MissingUserAgent));
}

#[test]
fn fetched_file_is_served_as_octet_stream() {
    let wire = file_fetched(Some(b"file data".to_vec()));
    assert_eq!(
        wire,
        b"HTTP/1.1 200 OK\r\nContent-Length: 9\r\nContent-Type: application/octet-stream\r\n\r\nfile data"
            .to_vec()
    );
}

#[test]
fn missing_file_is_served_as_not_found() {
    let wire = file_fetched(None);
    assert_eq!(
        wire,
        b"HTTP/1.1 404 Not Found\r\nContent-Length: 0\r\nContent-Type: text/plain\r\n\r\n"
            .to_vec()
    );
}

#[test]
fn stored_file_is_answered_with_created() {
    let wire = file_stored();
    assert_eq!(
        wire,
        b"HTTP/1.1 201 Created\r\nContent-Length: 0\r\nContent-Type: text/plain\r\n\r\n".to_vec()
    );
}
