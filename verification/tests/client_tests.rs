use request::headers::Headers;
use request::method::{to_string, Method};
use request::response::{get_response, Response};
use request::url::{Protocol, Url};
use request::{
    get, head, next_step, options, post, read_step, request_bytes, serialize_head, HttpError,
    Outcome,
};

#[test]
fn it_works() {
}

#[test]
fn url_recovers_host_and_path() {
    let u = Url::new("http://example.com/a?b=c").unwrap();
    assert_eq!(u.protocol, Protocol::HTTP);
    assert_eq!(u.host, "example.com");
    assert_eq!(u.port, 80);
    assert_eq!(u.path, "/a?b=c");
}

#[test]
fn url_https_default_port() {
    let u = Url::new("https://example.com/x").unwrap();
    assert_eq!(u.protocol, Protocol::HTTPS);
    assert_eq!(u.port, 443);
    assert_eq!(u.host, "example.com");
    assert_eq!(u.path, "/x");
}

#[test]
fn url_explicit_port() {
    let u = Url::new("http://example.com:8080/x").unwrap();
    assert_eq!(u.port, 8080);
    assert_eq!(u.host, "example.com");
    assert_eq!(u.path, "/x");
}

#[test]
fn url_missing_path_is_slash() {
    let u = Url::new("http://example.com").unwrap();
    assert_eq!(u.path, "/");
}

#[test]
fn url_unsupported_scheme() {
    assert!(matches!(Url::new("ftp://example.com/"), Err(HttpError::UnsupportedScheme)));
    assert!(matches!(Url::new("gopher://x/"), Err(HttpError::UnsupportedScheme)));
}

#[test]
fn url_malformed() {
    assert!(matches!(Url::new("not a url"), Err(HttpError::MalformedUrl)));
    assert!(matches!(Url::new("://example.com/"), Err(HttpError::MalformedUrl)));
    assert!(matches!(Url::new("http://example.com:abc/"), Err(HttpError::MalformedUrl)));
    assert!(matches!(Url::new("http://example.com:99999/"), Err(HttpError::MalformedUrl)));
}

#[test]
fn url_invalid_host() {
    assert!(matches!(Url::new("http:///x"), Err(HttpError::InvalidHost)));
    assert!(matches!(Url::new("http://"), Err(HttpError::InvalidHost)));
}

#[test]
fn serializer_exact_output() {
    let u = Url::new("http://example.com/a?b=c").unwrap();
    let h = Headers::new();
    let out = serialize_head("GET", &u, &h);
    assert_eq!(out, "GET /a?b=c HTTP/1.1\r\nHost: example.com\r\n\r\n");
}

#[test]
fn serializer_host_with_port() {
    let u = Url::new("http://example.com:8080/").unwrap();
    let mut h = Headers::new();
    h.insert("Accept".to_string(), "*/*".to_string());
    let out = serialize_head("POST", &u, &h);
    assert_eq!(out, "POST / HTTP/1.1\r\nHost: example.com:8080\r\nAccept: */*\r\n\r\n");
}

#[test]
fn request_bytes_appends_body() {
    let wire = request_bytes("AB", &[1, 2, 3]);
    assert_eq!(wire, vec![65, 66, 1, 2, 3]);
}

#[test]
fn response_parse_basic() {
    let r = get_response("HTTP/1.1 200 OK\r\nContent-Type: text/plain\r\n\r\nhello").unwrap();
    assert_eq!(r.http_version, "HTTP/1.1");
    assert_eq!(r.status_code, 200);
    assert_eq!(r.status_message, "OK");
    assert_eq!(r.headers.get("Content-Type").map(|s| s.as_str()), Some("text/plain"));
    assert_eq!(r.body, "hello");
}

#[test]
fn response_dechunks_body() {
    let r = get_response("HTTP/1.1 200 OK\r\n\r\n5\r\nhello\r\n0\r\n").unwrap();
    assert_eq!(r.body, "hello");
}

#[test]
fn response_without_blank_line_is_invalid() {
    assert!(matches!(
        get_response("HTTP/1.1 200 OK\r\nContent-Type: text/plain"),
        Err(HttpError::InvalidResponse)
    ));
}

#[test]
fn response_status_line_defaults() {
    let r = Response::new("garbage", "b");
    assert_eq!(r.http_version, "");
    assert_eq!(r.status_code, 0);
    assert_eq!(r.status_message, "");
    assert_eq!(r.body, "b");
}

#[test]
fn response_two_token_status_line_uses_table() {
    let r = Response::new("HTTP/1.1 404", "");
    assert_eq!(r.status_code, 404);
    assert_eq!(r.status_message, "Not Found");
}

#[test]
fn response_literal_reason_phrase_wins() {
    let r = Response::new("HTTP/1.1 404 Nope Really", "");
    assert_eq!(r.status_code, 404);
    assert_eq!(r.status_message, "Nope Really");
}

#[test]
fn response_unparseable_code_is_zero() {
    let r = Response::new("HTTP/1.1 2x00 OK", "");
    assert_eq!(r.status_code, 0);
}

#[test]
fn response_skips_malformed_header_lines() {
    let r = Response::new("HTTP/1.1 200 OK\r\nbad line\r\nA: b\r\nC: d: e", "");
    assert_eq!(r.headers.get("A").map(|s| s.as_str()), Some("b"));
    assert_eq!(r.headers.get("bad line").map(|s| s.as_str()), None);
    assert_eq!(r.headers.get("C").map(|s| s.as_str()), None);
}

#[test]
fn status_message_table() {
    assert_eq!(Response::get_status_message(200), "OK");
    assert_eq!(Response::get_status_message(201), "Created");
    assert_eq!(Response::get_status_message(511), "Network Authentication Required");
    assert_eq!(Response::get_status_message(999), "");
}

#[test]
fn headers_last_write_wins() {
    let mut h = Headers::new();
    h.insert("K".to_string(), "one".to_string());
    h.insert("J".to_string(), "x".to_string());
    h.insert("K".to_string(), "two".to_string());
    assert_eq!(h.len(), 2);
    assert_eq!(h.get("K").map(|s| s.as_str()), Some("two"));
    assert_eq!(h.key_at(0).as_str(), "K");
    assert_eq!(h.key_at(1).as_str(), "J");
}

#[test]
fn method_names() {
    assert_eq!(to_string(Method::GET), "GET");
    assert_eq!(to_string(Method::OPTIONS), "OPTIONS");
    assert_eq!(to_string(Method::CONNECT), "CONNECT");
}

#[test]
fn builders_inject_content_length() {
    let mut h = Headers::new();
    let p = post("http://example.com/send", &mut h, b"abcd").unwrap();
    assert_eq!(h.get("Content-Length").map(|s| s.as_str()), Some("4"));
    assert_eq!(p.method, "POST");
    assert_eq!(p.body, b"abcd".to_vec());
    assert_eq!(p.hops, 0);
    assert!(p.head.starts_with("POST /send HTTP/1.1\r\nHost: example.com"));
    assert!(p.head.contains("Content-Length: 4"));
    assert!(p.head.ends_with("\r\n\r\n"));
}

#[test]
fn builders_reject_bad_urls() {
    let mut h = Headers::new();
    assert!(matches!(get("ftp://x/", &mut h), Err(HttpError::UnsupportedScheme)));
    assert_eq!(h.len(), 0);
}

#[test]
fn redirect_step_follows_location_once() {
    let mut h = Headers::new();
    let p = get("http://a.example/start", &mut h).unwrap();
    let raw = "HTTP/1.1 302 Found\r\nLocation: http://b.example/next\r\n\r\n";
    match next_step(&p, raw).unwrap() {
        Outcome::Redirect(q) => {
            assert_eq!(q.url.host, "b.example");
            assert_eq!(q.url.path, "/next");
            assert_eq!(q.method, "GET");
            assert_eq!(q.hops, 1);
            assert!(q.head.starts_with("GET /next HTTP/1.1\r\nHost: b.example"));
        },
        Outcome::Done(_) => panic!("a 3xx response with a Location must redirect"),
    }
}

#[test]
fn redirect_without_location_is_invalid() {
    let mut h = Headers::new();
    let p = get("http://a.example/start", &mut h).unwrap();
    let raw = "HTTP/1.1 301 Moved Permanently\r\n\r\n";
    assert!(matches!(next_step(&p, raw), Err(HttpError::InvalidRedirect)));
}

#[test]
fn non_redirect_is_done() {
    let mut h = Headers::new();
    let p = head("http://a.example/", &mut h).unwrap();
    let raw = "HTTP/1.1 204 No Content\r\n\r\n";
    match next_step(&p, raw).unwrap() {
        Outcome::Done(r) => assert_eq!(r.status_code, 204),
        Outcome::Redirect(_) => panic!("a 2xx response must not redirect"),
    }
}

#[test]
fn too_many_redirects() {
    let mut h = Headers::new();
    let mut p = options("http://a.example/", &mut h).unwrap();
    p.hops = 10;
    let raw = "HTTP/1.1 302 Found\r\nLocation: http://b.example/\r\n\r\n";
    assert!(matches!(next_step(&p, raw), Err(HttpError::TooManyRedirects)));
}

#[test]
fn round_trip_request_reply() {
    let mut h = Headers::new();
    h.insert("X-Tag".to_string(), "abc".to_string());
    let p = get("http://example.com/ping", &mut h).unwrap();
    let reply = format!(
        "HTTP/1.1 200 OK\r\nX-Tag: {}\r\n\r\npong",
        h.get("X-Tag").unwrap()
    );
    match next_step(&p, reply.as_str()).unwrap() {
        Outcome::Done(r) => {
            assert_eq!(r.status_code, 200);
            assert_eq!(r.headers.get("X-Tag").map(|s| s.as_str()), Some("abc"));
        },
        Outcome::Redirect(_) => panic!("a 200 response must not redirect"),
    }
}

#[test]
fn parse_twice_is_identical() {
    let raw = "HTTP/1.1 301 Moved Permanently\r\nLocation: http://x/\r\nA: b\r\n\r\n1\r\ntwo\r\n3";
    let r1 = get_response(raw).unwrap();
    let r2 = get_response(raw).unwrap();
    assert_eq!(r1.http_version, r2.http_version);
    assert_eq!(r1.status_code, r2.status_code);
    assert_eq!(r1.status_message, r2.status_message);
    assert_eq!(r1.body, r2.body);
    assert_eq!(r1.headers.len(), r2.headers.len());
    for i in 0..r1.headers.len() {
        assert_eq!(r1.headers.key_at(i), r2.headers.key_at(i));
        assert_eq!(r1.headers.value_at(i), r2.headers.value_at(i));
    }
}

#[test]
fn read_step_accumulates_and_stops() {
    let mut acc = String::new();
    assert_eq!(read_step(&mut acc, b"hello world", 5), Ok(true));
    assert_eq!(acc, "hello");
    assert_eq!(read_step(&mut acc, b"!", 1), Ok(true));
    assert_eq!(acc, "hello!");
    assert_eq!(read_step(&mut acc, b"ignored", 0), Ok(false));
    assert_eq!(acc, "hello!");
}

#[test]
fn read_step_decodes_multibyte_utf8() {
    let bytes = "héllo".as_bytes();
    let mut acc = String::new();
    assert_eq!(read_step(&mut acc, bytes, bytes.len()), Ok(true));
    assert_eq!(acc, "héllo");
}

#[test]
fn read_step_rejects_invalid_utf8() {
    let mut acc = String::from("keep");
    assert_eq!(read_step(&mut acc, &[0xff, 0xfe], 2), Err(HttpError::EncodingError));
    assert_eq!(acc, "keep");
}

#[test]
fn port_boundary_values() {
    let u = Url::new("http://h:65535/").unwrap();
    assert_eq!(u.port, 65535);
    assert!(matches!(Url::new("http://h:65536/"), Err(HttpError::MalformedUrl)));
    assert!(matches!(Url::new("http://h:/"), Err(HttpError::MalformedUrl)));
}

#[test]
fn content_length_of_empty_body_is_zero() {
    let mut h = Headers::new();
    let p = get("http://example.com/", &mut h).unwrap();
    assert_eq!(h.get("Content-Length").map(|s| s.as_str()), Some("0"));
    assert!(p.head.contains("Content-Length: 0"));
    assert_eq!(p.body, Vec::<u8>::new());
}

#[test]
fn round_trip_many_headers() {
    let raw = "HTTP/1.1 201 Created\r\nA: 1\r\nB: 2\r\nA: 3\r\n\r\ndone";
    let r = get_response(raw).unwrap();
    assert_eq!(r.status_code, 201);
    assert_eq!(r.status_message, "Created");
    assert_eq!(r.headers.get("A").map(|s| s.as_str()), Some("3"));
    assert_eq!(r.headers.get("B").map(|s| s.as_str()), Some("2"));
    assert_eq!(r.body, "done");
}
