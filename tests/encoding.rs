use lrn2rust_httpserver::encoder::{create_text_response, encode_response};
use lrn2rust_httpserver::message::{Header, Response, Status, Version};
use lrn2rust_httpserver::parser::read_http_request;

#[test]
fn text_response_headers() {
    let r = create_text_response(Status::ok(), "Hello!");
    assert_eq!(r.status.code, 200);
    assert_eq!(r.headers.len(), 2);
    assert_eq!(r.headers[0].name, "Content-Type");
    assert_eq!(r.headers[0].value, "text/plain");
    assert_eq!(r.headers[1].name, "Content-Length");
    assert_eq!(r.headers[1].value, "8");
    assert_eq!(r.body, "Hello!");
}

#[test]
fn content_length_counts_bytes() {
    let r = create_text_response(Status::ok(), "\u{e9}\u{e9}");
    assert_eq!(r.headers[1].value, "6");
    let r = create_text_response(Status::ok(), "");
    assert_eq!(r.headers[1].value, "2");
    let long = "a".repeat(1234);
    let r = create_text_response(Status::ok(), &long);
    assert_eq!(r.headers[1].value, "1236");
}

#[test]
fn encode_ok_response() {
    let r = create_text_response(Status::ok(), "Hello!");
    let bytes = encode_response(Version::Http11, &r);
    assert_eq!(
        String::from_utf8(bytes).unwrap(),
        "HTTP/1.1 200 OK\r\nContent-Type: text/plain\r\nContent-Length: 8\r\n\r\nHello!\r\n"
    );
}

#[test]
fn encode_not_found_response() {
    let r = create_text_response(Status::not_found(), "Unrecognized path /x");
    let bytes = encode_response(Version::Http10, &r);
    assert_eq!(
        String::from_utf8(bytes).unwrap(),
        "HTTP/1.0 404 Not Found\r\nContent-Type: text/plain\r\nContent-Length: 22\r\n\r\nUnrecognized path /x\r\n"
    );
}

#[test]
fn encode_bad_request_response() {
    let r = create_text_response(Status::bad_request(), "no");
    let bytes = encode_response(Version::Http2, &r);
    assert_eq!(
        String::from_utf8(bytes).unwrap(),
        "HTTP/2.0 400 Bad Request\r\nContent-Type: text/plain\r\nContent-Length: 4\r\n\r\nno\r\n"
    );
}

#[test]
fn unregistered_code_has_empty_reason() {
    let r = Response { status: Status::from_u16(599).unwrap(), headers: vec![], body: String::new() };
    let bytes = encode_response(Version::Http09, &r);
    assert_eq!(String::from_utf8(bytes).unwrap(), "HTTP/0.9 599 \r\n\r\n\r\n");
}

#[test]
fn status_range() {
    assert!(Status::from_u16(99).is_none());
    assert!(Status::from_u16(1000).is_none());
    assert_eq!(Status::from_u16(100).unwrap().code, 100);
    assert_eq!(Status::from_u16(999).unwrap().code, 999);
}

#[test]
fn headers_encoded_in_order_with_repeats() {
    let r = Response {
        status: Status::ok(),
        headers: vec![
            Header { name: "B".to_string(), value: "1".to_string() },
            Header { name: "A".to_string(), value: "2".to_string() },
            Header { name: "B".to_string(), value: "3".to_string() },
        ],
        body: "x".to_string(),
    };
    let bytes = encode_response(Version::Http11, &r);
    assert_eq!(
        String::from_utf8(bytes).unwrap(),
        "HTTP/1.1 200 OK\r\nB: 1\r\nA: 2\r\nB: 3\r\n\r\nx\r\n"
    );
}

#[test]
fn parsed_headers_round_trip_through_encoder() {
    let req = read_http_request(&vec![b"GET / HTTP/1.1\r\nB: 1\r\nA: 2\r\nB: 3\r\n\r\n".to_vec()]).unwrap();
    let headers: Vec<Header> = req
        .headers
        .iter()
        .map(|h| Header { name: h.name.clone(), value: h.value.clone() })
        .collect();
    let r = Response { status: Status::ok(), headers, body: String::new() };
    let text = String::from_utf8(encode_response(req.version, &r)).unwrap();
    assert_eq!(text, "HTTP/1.1 200 OK\r\nB: 1\r\nA: 2\r\nB: 3\r\n\r\n\r\n");
}
