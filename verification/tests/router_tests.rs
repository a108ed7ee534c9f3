use mini_http::http::{HttpRequest, HttpStatusCode};
use mini_http::router::{route, RouteAction, RouteFailure};

fn decode(raw: &[u8]) -> HttpRequest {
    HttpRequest::decode(raw).unwrap()
}

#[test]
fn route_root_is_ok_empty() {
    let req = decode(b"GET / HTTP/1.1\r\n\r\n");
    match route(&req).unwrap() {
        RouteAction::Respond(resp) => {
            assert!(matches!(resp.status_code, HttpStatusCode::Okay));
            assert!(resp.body.is_none());
        }
        _ => panic!("expected a response"),
    }
}

#[test]
fn route_echo_returns_suffix_verbatim() {
    let req = decode(b"GET /echo/hello HTTP/1.1\r\n\r\n");
    match route(&req).unwrap() {
        RouteAction::Respond(resp) => {
            assert!(matches!(resp.status_code, HttpStatusCode::Okay));
            assert_eq!(resp.body, Some(b"hello".to_vec()));
        }
        _ => panic!("expected a response"),
    }
}

#[test]
fn route_echo_empty_suffix() {
    let req = decode(b"GET /echo/ HTTP/1.1\r\n\r\n");
    match route(&req).unwrap() {
        RouteAction::Respond(resp) => {
            assert_eq!(resp.body, Some(b"".to_vec()));
        }
        _ => panic!("expected a response"),
    }
}

#[test]
fn route_user_agent_returns_header_value() {
    let req = decode(b"GET /user-agent HTTP/1.1\r\nUser-Agent: curl/8.0\r\n\r\n");
    match route(&req).unwrap() {
        RouteAction::Respond(resp) => {
            assert!(matches!(resp.status_code, HttpStatusCode::Okay));
            assert_eq!(resp.body, Some(b"curl/8.0".to_vec()));
        }
        _ => panic!("expected a response"),
    }
}

#[test]
fn route_user_agent_duplicate_header_last_wins() {
    let req = decode(b"GET /user-agent HTTP/1.1\r\nUser-Agent: first\r\nUser-Agent: second\r\n\r\n");
    match route(&req).unwrap() {
        RouteAction::Respond(resp) => {
            assert_eq!(resp.body, Some(b"second".to_vec()));
        }
        _ => panic!("expected a response"),
    }
}

#[test]
fn route_user_agent_missing_header_fails() {
    let req = decode(b"GET /user-agent HTTP/1.1\r\n\r\n");
    let err = route(&req).unwrap_err();
    assert_eq!(err, RouteFailure::MissingUserAgent);
}

#[test]
fn route_files_get_asks_for_the_named_file() {
    let req = decode(b"GET /files/song.txt HTTP/1.1\r\n\r\n");
    match route(&req).unwrap() {
        RouteAction::ReadFile(name) => assert_eq!(name, b"song.txt".to_vec()),
        _ => panic!("expected a file read"),
    }
}

#[test]
fn route_files_post_carries_name_and_body() {
    let req = decode(b"POST /files/new.txt HTTP/1.1\r\n\r\ncontents\r\n");
    match route(&req).unwrap() {
        RouteAction::WriteFile(name, data) => {
            assert_eq!(name, b"new.txt".to_vec());
            assert_eq!(data, b"contents".to_vec());
        }
        _ => panic!("expected a file write"),
    }
}

#[test]
fn route_files_post_without_body_fails() {
    let req = decode(b"POST /files/new.txt HTTP/1.1\r\n\r\n");
    let err = route(&req).unwrap_err();
    assert_eq!(err, RouteFailure::MissingBody);
}

#[test]
fn route_files_other_method_falls_through_to_not_found() {
    let req = decode(b"PUT /files/song.txt HTTP/1.1\r\n\r\n");
    match route(&req).unwrap() {
        RouteAction::Respond(resp) => {
            assert!(matches!(resp.status_code, HttpStatusCode::NotFound));
            assert!(resp.body.is_none());
        }
        _ => panic!("expected a response"),
    }
}

#[test]
fn route_unmatched_url_is_not_found() {
    let req = decode(b"GET /missing HTTP/1.1\r\n\r\n");
    match route(&req).unwrap() {
        RouteAction::Respond(resp) => {
            assert!(matches!(resp.status_code, HttpStatusCode::NotFound));
            assert!(resp.body.is_none());
        }
        _ => panic!("expected a response"),
    }
}
