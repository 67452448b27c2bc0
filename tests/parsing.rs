use lrn2rust_httpserver::message::{Method, ParseError, Request, Version};
use lrn2rust_httpserver::parser::{read_http_request, RequestParser};

fn parse_one(input: &[u8]) -> Result<Request, ParseError> {
    read_http_request(&vec![input.to_vec()])
}

fn parse_split(parts: &[&[u8]]) -> Result<Request, ParseError> {
    let chunks: Vec<Vec<u8>> = parts.iter().map(|p| p.to_vec()).collect();
    read_http_request(&chunks)
}

fn header_pairs(r: &Request) -> Vec<(String, String)> {
    r.headers.iter().map(|h| (h.name.clone(), h.value.clone())).collect()
}

#[test]
fn simple_get_request() {
    let r = parse_one(b"GET /hello HTTP/1.1\r\nHost: x\r\n\r\n").unwrap();
    assert!(matches!(r.method, Method::Get));
    assert_eq!(r.path, "/hello");
    assert_eq!(r.version, Version::Http11);
    assert_eq!(header_pairs(&r), vec![("Host".to_string(), "x".to_string())]);
    assert_eq!(r.body, "");
}

#[test]
fn colon_in_second_chunk() {
    let r = parse_split(&[b"GET /hello HTTP/1.1\r\nHost", b": x\r\n\r\n"]).unwrap();
    assert!(matches!(r.method, Method::Get));
    assert_eq!(r.path, "/hello");
    assert_eq!(r.version, Version::Http11);
    assert_eq!(header_pairs(&r), vec![("Host".to_string(), "x".to_string())]);
    assert_eq!(r.body, "");
}

#[test]
fn every_split_point_gives_the_same_request() {
    let input: &[u8] = b"POST /a?b=c HTTP/1.0\r\nX-One: 1\r\nx-one: 2\r\n\r\nbody text";
    for cut in 0..=input.len() {
        let r = parse_split(&[&input[..cut], &input[cut..]]).unwrap();
        assert!(matches!(r.method, Method::Post));
        assert_eq!(r.path, "/a?b=c");
        assert_eq!(r.version, Version::Http10);
        assert_eq!(
            header_pairs(&r),
            vec![
                ("X-One".to_string(), "1".to_string()),
                ("x-one".to_string(), "2".to_string())
            ]
        );
        assert_eq!(r.body, "body text");
    }
}

#[test]
fn one_byte_chunks() {
    let input: &[u8] = b"PUT /p HTTP/2.0\r\nA: b c\r\n\r\nxyz";
    let parts: Vec<&[u8]> = input.chunks(1).collect();
    let r = parse_split(&parts).unwrap();
    assert!(matches!(r.method, Method::Put));
    assert_eq!(r.version, Version::Http2);
    assert_eq!(header_pairs(&r), vec![("A".to_string(), "b c".to_string())]);
    assert_eq!(r.body, "xyz");
}

#[test]
fn repeated_header_names_keep_both_in_order() {
    let r = parse_one(b"GET / HTTP/1.1\r\nAccept: a\r\nHost: h\r\nAccept: b\r\n\r\n").unwrap();
    assert_eq!(
        header_pairs(&r),
        vec![
            ("Accept".to_string(), "a".to_string()),
            ("Host".to_string(), "h".to_string()),
            ("Accept".to_string(), "b".to_string())
        ]
    );
}

#[test]
fn missing_space_after_method() {
    assert_eq!(parse_one(b"GET\r\nHost: x\r\n\r\n").err(), Some(ParseError::MalformedStartLine));
    assert_eq!(parse_one(b"GET").err(), Some(ParseError::MalformedStartLine));
    assert_eq!(parse_one(b"GET/hello\r\n\r\n").err(), Some(ParseError::MalformedStartLine));
}

#[test]
fn empty_input_is_a_malformed_start_line() {
    assert_eq!(parse_one(b"").err(), Some(ParseError::MalformedStartLine));
    assert_eq!(read_http_request(&vec![]).err(), Some(ParseError::MalformedStartLine));
}

#[test]
fn path_must_start_with_slash() {
    assert_eq!(parse_one(b"GET hello HTTP/1.1\r\n\r\n").err(), Some(ParseError::MalformedStartLine));
}

#[test]
fn missing_line_break_after_protocol() {
    assert_eq!(parse_one(b"GET / HTTP/1.1").err(), Some(ParseError::MalformedStartLine));
}

#[test]
fn body_ends_with_the_stream() {
    let r = parse_one(b"POST /x HTTP/1.1\r\n\r\nabc").unwrap();
    assert_eq!(r.body, "abc");
    let r = parse_split(&[b"POST /x HTTP/1.1\r\n\r\na", b"b", b"c"]).unwrap();
    assert_eq!(r.body, "abc");
}

#[test]
fn unknown_version_defaults_to_one_point_zero() {
    let r = parse_one(b"GET / HTTP/9.9\r\n\r\n").unwrap();
    assert_eq!(r.version, Version::Http10);
}

#[test]
fn known_versions() {
    let cases: [(&[u8], Version); 5] = [
        (b"GET / HTTP/0.9\r\n\r\n", Version::Http09),
        (b"GET / HTTP/1.0\r\n\r\n", Version::Http10),
        (b"GET / HTTP/1.1\r\n\r\n", Version::Http11),
        (b"GET / HTTP/2.0\r\n\r\n", Version::Http2),
        (b"GET / HTTP/3.0\r\n\r\n", Version::Http3),
    ];
    for (input, v) in cases.iter() {
        assert_eq!(parse_one(input).unwrap().version, *v);
    }
}

#[test]
fn bare_line_feeds_are_accepted() {
    let r = parse_one(b"GET /a HTTP/1.1\nHost: x\n\nbody").unwrap();
    assert_eq!(r.path, "/a");
    assert_eq!(header_pairs(&r), vec![("Host".to_string(), "x".to_string())]);
    assert_eq!(r.body, "body");
}

#[test]
fn carriage_return_split_from_line_feed() {
    let r = parse_split(&[b"GET /a HTTP/1.1\r", b"\nHost: x\r", b"\n\r", b"\nbody"]).unwrap();
    assert_eq!(header_pairs(&r), vec![("Host".to_string(), "x".to_string())]);
    assert_eq!(r.body, "body");
}

#[test]
fn header_without_colon() {
    assert_eq!(
        parse_one(b"GET / HTTP/1.1\r\nHost x\r\n\r\n").err(),
        Some(ParseError::MalformedHeader)
    );
}

#[test]
fn header_value_cut_off() {
    assert_eq!(parse_one(b"GET / HTTP/1.1\r\nHost: x").err(), Some(ParseError::MalformedHeader));
}

#[test]
fn headers_may_end_with_the_stream() {
    let r = parse_one(b"GET / HTTP/1.1\r\nHost: x\r\n").unwrap();
    assert_eq!(header_pairs(&r), vec![("Host".to_string(), "x".to_string())]);
    assert_eq!(r.body, "");
}

#[test]
fn invalid_utf8_body() {
    assert_eq!(
        parse_one(b"POST / HTTP/1.1\r\n\r\nab\xff").err(),
        Some(ParseError::InvalidEncoding)
    );
}

#[test]
fn invalid_utf8_path() {
    assert_eq!(parse_one(b"GET /\xc3 HTTP/1.1\r\n\r\n").err(), Some(ParseError::InvalidEncoding));
}

#[test]
fn multibyte_body_split_across_chunks() {
    let r = parse_split(&[b"POST / HTTP/1.1\r\n\r\n\xc3", b"\xa9"]).unwrap();
    assert_eq!(r.body, "\u{e9}");
}

#[test]
fn extension_method() {
    let r = parse_one(b"BREW /pot HTTP/1.1\r\n\r\n").unwrap();
    match r.method {
        Method::Extension(m) => assert_eq!(m, "BREW"),
        other => panic!("unexpected method {:?}", other),
    }
}

#[test]
fn standard_methods() {
    let r = parse_one(b"DELETE /x HTTP/1.1\r\n\r\n").unwrap();
    assert!(matches!(r.method, Method::Delete));
    let r = parse_one(b"OPTIONS /x HTTP/1.1\r\n\r\n").unwrap();
    assert!(matches!(r.method, Method::Options));
}

#[test]
fn invalid_method_token() {
    assert_eq!(parse_one(b"G(T / HTTP/1.1\r\n\r\n").err(), Some(ParseError::MalformedStartLine));
}

#[test]
fn extra_spaces_in_start_line_and_after_colon() {
    let r = parse_one(b"GET   /s   HTTP/1.1\r\nK:    v\r\n\r\n").unwrap();
    assert_eq!(r.path, "/s");
    assert_eq!(r.version, Version::Http11);
    assert_eq!(header_pairs(&r), vec![("K".to_string(), "v".to_string())]);
}

#[test]
fn parser_error_is_final() {
    let mut p = RequestParser::new();
    assert_eq!(p.feed(b"GET\r\nHost: x\r\n"), Err(ParseError::MalformedStartLine));
    assert_eq!(p.feed(b"GET / HTTP/1.1\r\n\r\n"), Err(ParseError::MalformedStartLine));
    assert_eq!(p.finish().err(), Some(ParseError::MalformedStartLine));
}

#[test]
fn parser_fed_by_hand() {
    let mut p = RequestParser::new();
    assert_eq!(p.feed(b"GET /he"), Ok(()));
    assert_eq!(p.feed(b"llo HTTP/1.1\r\nHo"), Ok(()));
    assert_eq!(p.feed(b"st: x\r\n\r\n"), Ok(()));
    let r = p.finish().unwrap();
    assert_eq!(r.path, "/hello");
    assert_eq!(header_pairs(&r), vec![("Host".to_string(), "x".to_string())]);
}

#[test]
fn invalid_utf8_version_token() {
    assert_eq!(
        parse_one(b"GET / HTTP/1.\xff\r\n\r\n").err(),
        Some(ParseError::InvalidEncoding)
    );
    assert_eq!(
        parse_split(&[b"GET / HTTP/1.\xff", b"\r\nHost: x\r\n\r\n"]).err(),
        Some(ParseError::InvalidEncoding)
    );
}

#[test]
fn invalid_utf8_header_value() {
    assert_eq!(
        parse_one(b"GET / HTTP/1.1\r\nK: \xfe\r\n\r\n").err(),
        Some(ParseError::InvalidEncoding)
    );
}

#[test]
fn unknown_version_keeps_the_rest_of_the_request() {
    let a = parse_one(b"POST /p HTTP/9.9\r\nK: v\r\n\r\nbody").unwrap();
    let b = parse_one(b"POST /p HTTP/1.0\r\nK: v\r\n\r\nbody").unwrap();
    assert_eq!(a.version, Version::Http10);
    assert_eq!(a.version, b.version);
    assert_eq!(a.path, b.path);
    assert_eq!(header_pairs(&a), header_pairs(&b));
    assert_eq!(a.body, b.body);
}

#[test]
fn error_messages() {
    assert_eq!(ParseError::MalformedStartLine.message(), "Failed to parse HTTP request start line");
    assert_eq!(ParseError::MalformedHeader.message(), "Failed to parse HTTP request header");
    assert_eq!(ParseError::InvalidEncoding.message(), "HTTP request text is not valid UTF-8");
}

#[test]
fn invalid_utf8_method() {
    assert_eq!(parse_one(b"\xff / HTTP/1.1\r\n\r\n").err(), Some(ParseError::InvalidEncoding));
    // a line break before the space still marks a malformed start line
    assert_eq!(parse_one(b"\xff\r\nA: b c\r\n\r\n").err(), Some(ParseError::MalformedStartLine));
}

#[test]
fn invalid_utf8_path_reported_before_later_errors() {
    assert_eq!(
        parse_one(b"GET /\xff HTTP/1.1\r\nbad\r\n\r\n").err(),
        Some(ParseError::InvalidEncoding)
    );
}

#[test]
fn invalid_utf8_header_name() {
    assert_eq!(
        parse_one(b"GET / HTTP/1.1\r\nN\xfe: v\r\nbad\r\n\r\n").err(),
        Some(ParseError::InvalidEncoding)
    );
}
