use psionic::http::{HeaderMap, HttpRequest, HttpRequestHeader, HttpResponse, HttpResponseHeader,
    HttpStatus, HttpVerb, ParseError};
use psionic::codec::ResponseRead;

fn padded(bytes: &[u8]) -> Vec<u8> {
    let mut buf = vec![0u8; 4096];
    buf[..bytes.len()].copy_from_slice(bytes);
    buf
}

#[test]
fn request_header_round_trip() {
    let header = HttpRequestHeader::create(
        "/style.css".to_string(),
        HttpVerb::GET,
        "text/css".to_string(),
        HeaderMap::new(),
        0,
    );
    let bytes = header.to_bytes();
    let buf = padded(&bytes);
    let (parsed, body_start) = HttpRequestHeader::create_from_buffer(&buf).unwrap();
    assert_eq!(body_start, bytes.len());
    assert_eq!(parsed.route, "/style.css");
    assert_eq!(parsed.verb.get_str(), "GET");
    assert_eq!(parsed.http_version, "HTTP/1.1");
    assert_eq!(parsed.content_length, 0);
    assert_eq!(parsed.headers.get("SERVER").unwrap(), "Psionic 0.0.1");
    assert_eq!(parsed.headers.get("CONTENT-LENGTH").unwrap(), "0");
    assert_eq!(parsed.headers.get("CONNECTION").unwrap(), "Closed");
    assert_eq!(parsed.headers.get("CONTENT-TYPE").unwrap(), "text/css");
}

#[test]
fn request_body_round_trip() {
    let body: Vec<u8> = (0u8..=255).cycle().take(600).collect();
    let mut request = HttpRequest::create(
        "/upload".to_string(),
        HttpVerb::POST,
        "application/octet-stream".to_string(),
        HeaderMap::new(),
        Some(body.clone()),
    );
    assert_eq!(request.header.content_length, 600);
    let bytes = request.to_bytes();
    let buf = padded(&bytes);
    let parsed = HttpRequest::from_buffer(&buf).unwrap();
    assert_eq!(parsed.header.content_length, 600);
    assert_eq!(parsed.body.unwrap(), body);
}

#[test]
fn empty_body_round_trip() {
    let mut request = HttpRequest::create(
        "/ping".to_string(),
        HttpVerb::HEAD,
        "text/plain".to_string(),
        HeaderMap::new(),
        Some(Vec::new()),
    );
    assert_eq!(request.header.content_length, 0);
    assert!(request.body.is_none());
    let bytes = request.to_bytes();
    let parsed = HttpRequest::from_buffer(&padded(&bytes)).unwrap();
    assert!(parsed.body.is_none());
}

#[test]
fn header_too_large() {
    let buf = vec![b'a'; 4096];
    match HttpRequestHeader::create_from_buffer(&buf) {
        Err(e) => assert_eq!(e, ParseError::HeaderTooLarge),
        Ok(_) => panic!("a buffer without a blank line must not parse"),
    }
}

#[test]
fn unknown_verb() {
    let buf = padded(b"FOO / HTTP/1.1\r\nHost: x\r\n\r\n");
    match HttpRequestHeader::create_from_buffer(&buf) {
        Err(e) => assert_eq!(e, ParseError::UnknownVerb),
        Ok(_) => panic!("an unknown verb must not parse"),
    }
}

#[test]
fn malformed_status_line() {
    let buf = padded(b"GET /short\r\nHost: x\r\n\r\n");
    match HttpRequestHeader::create_from_buffer(&buf) {
        Err(e) => assert_eq!(e, ParseError::MalformedStatusLine),
        Ok(_) => panic!("a two-token status line must not parse"),
    }
}

#[test]
fn body_too_large() {
    let buf = padded(b"POST /u HTTP/1.1\r\nContent-Length: 5000\r\n\r\n");
    match HttpRequest::from_buffer(&buf) {
        Err(e) => assert_eq!(e, ParseError::BodyTooLarge),
        Ok(_) => panic!("a body beyond the buffer must be refused"),
    }
}

#[test]
fn verbs_parse_case_insensitively() {
    assert_eq!(HttpVerb::from_str("get").unwrap().get_str(), "GET");
    assert_eq!(HttpVerb::from_str("Post").unwrap().get_str(), "POST");
    assert_eq!(HttpVerb::from_str("DELETE").unwrap().get_str(), "DELETE");
    assert_eq!(HttpVerb::from_str("connect").unwrap().get_str(), "CONNECT");
    assert_eq!(HttpVerb::from_str("options").unwrap().get_str(), "OPTIONS");
    assert_eq!(HttpVerb::from_str("trace").unwrap().get_str(), "TRACE");
    assert_eq!(HttpVerb::from_str("patch").unwrap().get_str(), "PATCH");
    assert_eq!(HttpVerb::from_str("head").unwrap().get_str(), "HEAD");
    assert_eq!(HttpVerb::from_str("put").unwrap().get_str(), "PUT");
    assert_eq!(HttpVerb::from_str("brew").unwrap_err(), ParseError::UnknownVerb);
}

#[test]
fn status_codes_map_both_ways() {
    let cases: [(i16, &str); 7] = [
        (101, "Switching Protocols"),
        (200, "OK"),
        (400, "Bad Request"),
        (401, "Unauthorized"),
        (404, "Not Found"),
        (405, "Method Not Allowed"),
        (500, "Internal Error"),
    ];
    for (code, reason) in cases {
        let status = HttpStatus::from_code(code).unwrap();
        assert_eq!(status.get_code(), code);
        assert_eq!(status.get_str(), reason);
    }
    assert_eq!(HttpStatus::from_code(418).unwrap_err(), ParseError::UnknownStatus);
}

#[test]
fn parse_from_string_reads_headers() {
    let text = "GET /pic.png HTTP/1.0\r\nHost: here\r\nContent-Length: 10\r\nplain line".to_string();
    let h = HttpRequestHeader::parse_from_string(text).unwrap();
    assert_eq!(h.route, "/pic.png");
    assert_eq!(h.http_version, "HTTP/1.0");
    assert_eq!(h.content_length, 10);
    assert_eq!(h.headers.get("HOST").unwrap(), "here");
    assert!(h.headers.get("PLAIN LINE").is_none());
}

#[test]
fn malformed_content_length_defaults_to_zero() {
    let text = "GET / HTTP/1.1\r\nContent-Length: ten".to_string();
    let h = HttpRequestHeader::parse_from_string(text).unwrap();
    assert_eq!(h.content_length, 0);
    assert_eq!(h.headers.get("CONTENT-LENGTH").unwrap(), "ten");
}

#[test]
fn signed_content_length_parses_like_std() {
    let text = "GET / HTTP/1.1\r\nContent-Length: +42".to_string();
    let h = HttpRequestHeader::parse_from_string(text).unwrap();
    assert_eq!(h.content_length, 42);
}

#[test]
fn response_header_serializes_in_insertion_order() {
    let h = HttpResponseHeader::create(
        HttpStatus::Okay,
        "text/plain".to_string(),
        HeaderMap::new(),
        0,
    );
    let expected = "HTTP/1.1 200 OK\r\nServer: Psionic 0.0.1\r\nContent-Length: 0\r\n\
                    Connection: Closed\r\nContent-Type: text/plain\r\n\r\n";
    assert_eq!(h.get_string(), expected);
    assert_eq!(h.to_bytes(), expected.as_bytes());
}

#[test]
fn response_round_trip() {
    let mut resp = HttpResponse::create(
        HttpStatus::NotFound,
        "text/plain".to_string(),
        HeaderMap::new(),
        Some(b"Not found".to_vec()),
    );
    let bytes = resp.to_bytes();
    let buf = padded(&bytes);
    match HttpResponse::from_buffer(&buf, bytes.len()).unwrap() {
        ResponseRead::Complete(parsed) => {
            assert_eq!(parsed.header.status.get_code(), 404);
            assert_eq!(parsed.header.content_length, 9);
            assert_eq!(parsed.body.unwrap(), b"Not found".to_vec());
        },
        ResponseRead::NeedsBody(_) => panic!("the body was inside the first read"),
    }
}

#[test]
fn response_head_only_read_asks_for_body() {
    let head = b"HTTP/1.1 200 OK\r\nContent-Length: 5\r\n\r\n";
    let buf = padded(head);
    match HttpResponse::from_buffer(&buf, head.len()).unwrap() {
        ResponseRead::NeedsBody(header) => {
            assert_eq!(header.content_length, 5);
            let second = padded(b"hello");
            let resp = HttpResponse::with_body(header, &second);
            assert_eq!(resp.body.unwrap(), b"hello".to_vec());
        },
        ResponseRead::Complete(_) => panic!("the first read ended at the header boundary"),
    }
}

#[test]
fn response_unknown_status() {
    let buf = padded(b"HTTP/1.1 999 Strange\r\n\r\n");
    match HttpResponseHeader::create_from_buffer(&buf) {
        Err(e) => assert_eq!(e, ParseError::UnknownStatus),
        Ok(_) => panic!("an unknown status code must not parse"),
    }
}

#[test]
fn response_unparsable_status_code() {
    let buf = padded(b"HTTP/1.1 abc Strange\r\n\r\n");
    match HttpResponseHeader::create_from_buffer(&buf) {
        Err(e) => assert_eq!(e, ParseError::MalformedStatusLine),
        Ok(_) => panic!("a non-numeric status code must not parse"),
    }
}

#[test]
fn addition_headers_override_standard_ones() {
    let mut additions = HeaderMap::new();
    additions.insert("Content-Type".to_string(), "application/json".to_string());
    additions.insert("X-Extra".to_string(), "yes".to_string());
    let h = HttpResponseHeader::create(HttpStatus::Okay, "text/plain".to_string(), additions, 2);
    assert_eq!(h.headers.get("Content-Type").unwrap(), "application/json");
    assert_eq!(h.headers.get("X-Extra").unwrap(), "yes");
    assert_eq!(h.headers.get("Content-Length").unwrap(), "2");
    assert_eq!(h.headers.len(), 5);
}

#[test]
fn response_status_code_accepts_a_plus_sign() {
    let buf = padded(b"HTTP/1.1 +200 OK\r\n\r\n");
    let (h, _) = HttpResponseHeader::create_from_buffer(&buf).unwrap();
    assert_eq!(h.status.get_code(), 200);
}

#[test]
fn response_negative_status_code_is_unknown() {
    let buf = padded(b"HTTP/1.1 -1 Odd\r\n\r\n");
    match HttpResponseHeader::create_from_buffer(&buf) {
        Err(e) => assert_eq!(e, ParseError::UnknownStatus),
        Ok(_) => panic!("a negative code is not a status this server speaks"),
    }
}
