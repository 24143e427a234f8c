use rust_git::http::{
    parse_header, parse_message, parse_request_line, read_headers, split_path, HttpHeader,
    HttpMethod, MediaType,
};

#[test]
fn parse_preamble() {
    let input = b"GET /foo/bar HTTP/1.1\r\nContent-Type: text/*\r\nContent-Length: 1234\r\n\r\nblahblah";
    let res = parse_message(input);
    assert!(res.is_ok());
    let (rest, req) = res.unwrap();
    assert_eq!(b"blahblah", rest);
    assert_eq!("/foo/bar", req.path);
}

#[test]
fn http_test_parse_request_line() {
    let input = b"GET /foo/bar HTTP/1.1\r\n";
    let res = parse_request_line(input);
    assert!(res.is_ok());
    let (rest, (method, path, version)) = res.unwrap();
    assert!(rest.is_empty());
    assert_eq!("GET", method);
    assert_eq!("/foo/bar", path);
    assert_eq!("1.1", version);
}

#[test]
fn http_test_parse_header() {
    let input = b"Content-Type: text/*\r\n";
    let res = parse_header(input);
    assert!(res.is_ok());
    let (rest, header) = res.unwrap();
    assert!(rest.is_empty());
    assert_eq!(b"Content-Type", header.name);
    assert_eq!(b"text/*", header.value);
}

#[test]
fn http_test_read_headers() {
    let input = b"Content-Type: text/*\r\nContent-Length: 1234";
    let res = read_headers(input);
    assert!(res.is_ok());
    let (rest, headers) = res.unwrap();
    assert!(rest.is_empty());
    assert_eq!(2, headers.len());
    let h = &headers[0];
    assert_eq!(b"Content-Type", h.name);
    assert_eq!(b"text/*", h.value);

    let h = &headers[1];
    assert_eq!(b"Content-Length", h.name);
    assert_eq!(b"1234", h.value);
}

#[test]
fn message_fields() {
    let input = b"POST /upload HTTP/1.0\r\nHost: example\r\n\r\n";
    let (body, req) = parse_message(input).unwrap();
    assert!(body.is_empty());
    assert_eq!(req.method, HttpMethod::Post);
    assert_eq!(req.version, "1.0");
    assert_eq!(req.headers.len(), 1);
    assert_eq!(req.headers[0].name, b"Host");
}

#[test]
fn malformed_requests_are_refused() {
    assert!(parse_request_line(b"GET /foo HTTP/1.1").is_err());
    assert!(parse_request_line(b"GET /foo HTTX/1.1\r\n").is_err());
    assert!(parse_request_line(b" /foo HTTP/1.1\r\n").is_err());
    assert!(parse_header(b"Content-Type text\r\n").is_err());
    assert!(read_headers(b"Good: yes\r\n: no").is_err());
    assert!(parse_message(b"GET / HTTP/1.1\r\n").is_err());
    assert!(parse_message(b"FETCH / HTTP/1.1\r\n\r\n").is_err());
}

#[test]
fn methods_and_media_types() {
    assert_eq!(HttpMethod::parse("DELETE"), Some(HttpMethod::Delete));
    assert_eq!(HttpMethod::parse("OPTION"), Some(HttpMethod::Options));
    assert_eq!(HttpMethod::parse("get"), None);
    assert_eq!(MediaType::parse("text/plain"), Some(MediaType::TextPlain));
    assert_eq!(MediaType::parse("text/html"), None);
    assert_eq!(MediaType::ApplicationOctetStream.as_str(), "application/octet-stream");
    let h = HttpHeader::new(b"A", b"b");
    assert_eq!(h.name, b"A");
    assert_eq!(h.value, b"b");
}

#[test]
fn paths_split_at_the_first_inner_slash() {
    assert_eq!(split_path(""), ("", ""));
    assert_eq!(split_path("/"), ("", ""));
    assert_eq!(split_path("/foo"), ("foo", ""));
    assert_eq!(split_path("/foo/bar/baz"), ("foo", "bar/baz"));
    assert_eq!(split_path("foo/bar"), ("foo/bar", ""));
}

#[test]
fn parser_test_parse_request_line() {
    let input = b"GET /foo/bar HTTP/1.1\r\n";
    let res = parse_request_line(input);
    assert!(res.is_ok());
    let (rest, (method, path, version)) = res.unwrap();
    assert!(rest.is_empty());
    assert_eq!("GET", method);
    assert_eq!("/foo/bar", path);
    assert_eq!("1.1", version);
}

#[test]
fn parser_test_parse_header() {
    let input = b"Content-Type: text/*\r\n";
    let res = parse_header(input);
    assert!(res.is_ok());
    let (rest, header) = res.unwrap();
    assert!(rest.is_empty());
    assert_eq!(b"Content-Type", header.name);
    assert_eq!(b"text/*", header.value);
}

#[test]
fn from_str_matches_parse() {
    assert_eq!("HEAD".parse::<HttpMethod>(), Ok(HttpMethod::Head));
    assert_eq!("head".parse::<HttpMethod>(), Err(()));
    assert_eq!("application/octet-stream".parse::<MediaType>(), Ok(MediaType::ApplicationOctetStream));
}

#[test]
fn parser_test_read_headers() {
    let input = b"Content-Type: text/*\r\nContent-Length: 1234\r\n\r\n";
    let res = rust_git::parser::read_headers(input);
    assert!(res.is_ok());
    let (rest, headers) = res.unwrap();
    assert_eq!(b"\r\n\r\n", rest);
    assert_eq!(2, headers.len());
    let (h, v) = headers[0];
    assert_eq!(b"Content-Type", h);
    assert_eq!(b"text/*", v);

    let (h, v) = headers[1];
    assert_eq!(b"Content-Length", h);
    assert_eq!(b"1234", v);
}

#[test]
fn header_block_needs_a_blank_line() {
    assert!(rust_git::parser::read_headers(b"Content-Type: text/*\r\n").is_err());
    assert!(rust_git::parser::read_headers(b"Bad header\r\n\r\n").is_err());
}
