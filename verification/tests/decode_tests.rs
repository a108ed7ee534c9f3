use mini_http::error::HttpError;
use mini_http::http::{HttpMethod, HttpRequest};

#[test]
fn decode_minimal_get() {
    let req = HttpRequest::decode(b"GET / HTTP/1.1\r\n\r\n").unwrap();
    assert_eq!(req.method, HttpMethod::Get);
    assert_eq!(req.url, b"/".to_vec());
    assert!(req.headers.is_empty());
    assert!(req.body.is_none());
}

#[test]
fn decode_single_header() {
    let req = HttpRequest::decode(b"GET /x HTTP/1.1\r\nFoo: bar\r\n\r\n").unwrap();
    assert_eq!(req.method, HttpMethod::Get);
    assert_eq!(req.url, b"/x".to_vec());
    assert_eq!(req.headers, vec![(b"Foo".to_vec(), b"bar".to_vec())]);
    assert!(req.body.is_none());
}

#[test]
fn decode_missing_url_token_is_protocol_error() {
    let err = HttpRequest::decode(b"GET\r\n\r\n").unwrap_err();
    assert_eq!(err, HttpError::ProtocolError);
}

#[test]
fn decode_empty_input_is_protocol_error() {
    let err = HttpRequest::decode(b"").unwrap_err();
    assert_eq!(err, HttpError::ProtocolError);
}

#[test]
fn decode_unknown_method_is_method_error() {
    let err = HttpRequest::decode(b"FOO / HTTP/1.1\r\n\r\n").unwrap_err();
    assert_eq!(err, HttpError::MethodError);
}

#[test]
fn decode_invalid_utf8_url_is_url_error() {
    let err = HttpRequest::decode(b"GET /\xFF HTTP/1.1\r\n\r\n").unwrap_err();
    assert_eq!(err, HttpError::UrlError);
}

#[test]
fn decode_header_without_separator_is_header_error() {
    let err = HttpRequest::decode(b"GET / HTTP/1.1\r\nFoo bar\r\n\r\n").unwrap_err();
    assert_eq!(err, HttpError::HeaderError);
}

#[test]
fn decode_invalid_utf8_header_is_header_error() {
    let err = HttpRequest::decode(b"GET / HTTP/1.1\r\nFoo: b\xC3\x28r\r\n\r\n").unwrap_err();
    assert_eq!(err, HttpError::HeaderError);
}

#[test]
fn decode_body_line_after_blank_line() {
    let req = HttpRequest::decode(b"POST /files/a HTTP/1.1\r\n\r\nhello\r\n").unwrap();
    assert_eq!(req.method, HttpMethod::Post);
    assert_eq!(req.body, Some(b"hello".to_vec()));
}

#[test]
fn decode_tolerates_bare_lf_lines() {
    let req = HttpRequest::decode(b"GET /x HTTP/1.1\nFoo: bar\n\n").unwrap();
    assert_eq!(req.url, b"/x".to_vec());
    assert_eq!(req.headers, vec![(b"Foo".to_vec(), b"bar".to_vec())]);
    assert!(req.body.is_none());
}

#[test]
fn decode_keeps_both_pairs_of_a_duplicate_key() {
    let req = HttpRequest::decode(b"GET / HTTP/1.1\r\nA: 1\r\nA: 2\r\n\r\n").unwrap();
    assert_eq!(
        req.headers,
        vec![(b"A".to_vec(), b"1".to_vec()), (b"A".to_vec(), b"2".to_vec())]
    );
}

#[test]
fn decode_header_value_keeps_second_separator() {
    let req = HttpRequest::decode(b"GET / HTTP/1.1\r\nA: b: c\r\n\r\n").unwrap();
    assert_eq!(req.headers, vec![(b"A".to_vec(), b"b: c".to_vec())]);
}

#[test]
fn method_tokens_round_trip() {
    let methods = [
        (HttpMethod::Get, b"GET".to_vec()),
        (HttpMethod::Post, b"POST".to_vec()),
        (HttpMethod::Patch, b"PATCH".to_vec()),
        (HttpMethod::Put, b"PUT".to_vec()),
        (HttpMethod::Option, b"OPTION".to_vec()),
    ];
    for (m, tok) in methods {
        assert_eq!(m.as_bytes(), tok);
        assert_eq!(HttpMethod::encode(&tok).unwrap(), m);
    }
}

#[test]
fn method_options_with_final_s_is_rejected() {
    let err = HttpMethod::encode(b"OPTIONS").unwrap_err();
    assert_eq!(err, HttpError::MethodError);
}

#[test]
fn request_round_trip_concrete() {
    let req = HttpRequest {
        method: HttpMethod::Post,
        url: b"/files/song.txt".to_vec(),
        headers: vec![
            (b"Foo".to_vec(), b"bar".to_vec()),
            (b"User-Agent".to_vec(), b"curl/7.1".to_vec()),
        ],
        body: Some(b"la la la".to_vec()),
    };
    let wire = req.encode();
    let back = HttpRequest::decode(&wire).unwrap();
    assert_eq!(back.method, HttpMethod::Post);
    assert_eq!(back.url, b"/files/song.txt".to_vec());
    assert_eq!(back.body, Some(b"la la la".to_vec()));
    let mut got = back.headers.clone();
    got.sort();
    assert_eq!(
        got,
        vec![
            (b"Foo".to_vec(), b"bar".to_vec()),
            (b"User-Agent".to_vec(), b"curl/7.1".to_vec()),
        ]
    );
}

#[test]
fn request_encode_exact_bytes() {
    let req = HttpRequest {
        method: HttpMethod::Get,
        url: b"/x".to_vec(),
        headers: vec![(b"Foo".to_vec(), b"bar".to_vec())],
        body: None,
    };
    assert_eq!(req.encode(), b"GET /x HTTP/1.1\r\nFoo: bar\r\n\r\n".to_vec());
}

#[test]
fn decode_option_method_request() {
    let req = HttpRequest::decode(b"OPTION /x HTTP/1.1\r\n\r\n").unwrap();
    assert_eq!(req.method, HttpMethod::Option);
    assert_eq!(req.url, b"/x".to_vec());
}

#[test]
fn decode_ignores_the_version_token() {
    let req = HttpRequest::decode(b"PUT /y HTTP/0.9\r\n\r\n").unwrap();
    assert_eq!(req.method, HttpMethod::Put);
    assert_eq!(req.url, b"/y".to_vec());
}
