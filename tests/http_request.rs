use std::collections::HashMap;

use http::http_request::{
    process_header_line, process_req_line, HttpRequest, Method, RequestError, Resource, Version,
};

fn header_map(req: &HttpRequest) -> HashMap<String, String> {
    let mut m = HashMap::new();
    for (k, v) in req.headers.iter() {
        m.insert(k.clone(), v.clone());
    }
    m
}

#[test]
fn test_read_http() {
    let s = String::from("GET /greeting HTTP/1.1\r\nHost: localhost\r\nAccept: */*\r\nUser-Agent: curl/7.79.1\r\n\r\ntest");
    let mut headers_expected = HashMap::new();
    headers_expected.insert("User-Agent".into(), "curl/7.79.1".into());
    headers_expected.insert("Host".into(), "localhost".into());
    headers_expected.insert("Accept".into(), "*/*".into());
    let req: HttpRequest = HttpRequest::parse(&s).unwrap();

    assert_eq!(Method::Get, req.method);
    assert_eq!(Version::V1_1, req.version);
    assert_eq!(Resource::Path("/greeting".to_string()), req.resource);
    assert_eq!(headers_expected, header_map(&req));
    assert_eq!("test", req.msg_body);
}

#[test]
fn test_request_header_split() {
    let (key, value) = process_header_line("Host: localhost");
    assert_eq!(key, "Host");
    assert_eq!(value, "localhost");
}

#[test]
fn test_version_into() {
    let m: Version = "HTTP/1.1".into();
    assert_eq!(m, Version::V1_1);
}

#[test]
fn test_method_into() {
    let m: Method = "GET".into();
    assert_eq!(m, Method::Get);
}

#[test]
fn test_string_push_format_macros() {
    let mut str: String = String::from("");

    let k: String = "key".into();
    let v: String = "value".into();
    str.push_str(&format!("{}: {}\r\n", k, v));

    assert_eq!(str, "key: value\r\n");
}

#[test]
fn method_tokens() {
    assert_eq!(Method::from("POST"), Method::Post);
    assert_eq!(Method::from("DELETE"), Method::Uninitialized);
    assert_eq!(Method::from(""), Method::Uninitialized);
    assert_eq!(Method::from("get"), Method::Uninitialized);
}

#[test]
fn version_tokens() {
    assert_eq!(Version::from("HTTP/2.0"), Version::V2_0);
    assert_eq!(Version::from("HTTP/1.0"), Version::Uninitialized);
    assert_eq!(Version::from(""), Version::Uninitialized);
}

#[test]
fn request_line_words() {
    let (m, r, v) = process_req_line("POST /form HTTP/2.0").unwrap();
    assert_eq!(m, Method::Post);
    assert_eq!(r, Resource::Path("/form".to_string()));
    assert_eq!(v, Version::V2_0);
    let (m, r, v) = process_req_line("  PUT\t/x   HTTP/1.1 extra").unwrap();
    assert_eq!(m, Method::Uninitialized);
    assert_eq!(r, Resource::Path("/x".to_string()));
    assert_eq!(v, Version::V1_1);
}

#[test]
fn request_line_too_short() {
    assert_eq!(process_req_line("GET HTTP/1.1"), Err(RequestError::MalformedRequestLine));
    assert_eq!(HttpRequest::parse("GET HTTP/1.1\r\n"), Err(RequestError::MalformedRequestLine));
}

#[test]
fn header_value_keeps_later_colons() {
    let (key, value) = process_header_line("Host: localhost:8080 ");
    assert_eq!(key, "Host");
    assert_eq!(value, "localhost:8080 ");
}

#[test]
fn header_key_untrimmed() {
    let (key, value) = process_header_line(" Key :\u{3000}\tv");
    assert_eq!(key, " Key ");
    assert_eq!(value, "v");
}

#[test]
fn header_line_without_colon() {
    let (key, value) = process_header_line("abc");
    assert_eq!(key, "abc");
    assert_eq!(value, "");
}

#[test]
fn repeated_header_overwrites() {
    let req = HttpRequest::parse("A: 1\nB: 2\nA: 3\n").unwrap();
    assert_eq!(req.headers, vec![("A".to_string(), "3".to_string()), ("B".to_string(), "2".to_string())]);
}

#[test]
fn last_body_line_wins() {
    let req = HttpRequest::parse("GET / HTTP/1.1\n\na\nb").unwrap();
    assert_eq!(req.msg_body, "b");
    assert_eq!(req.resource, Resource::Path("/".to_string()));
}

#[test]
fn empty_input_gives_defaults() {
    let req = HttpRequest::parse("").unwrap();
    assert_eq!(req.method, Method::Uninitialized);
    assert_eq!(req.version, Version::V1_1);
    assert_eq!(req.resource, Resource::Path(String::new()));
    assert!(req.headers.is_empty());
    assert_eq!(req.msg_body, "");
}

#[test]
fn no_request_line_keeps_defaults() {
    let req = HttpRequest::parse("Host: x\r\nhello\r\n").unwrap();
    assert_eq!(req.method, Method::Uninitialized);
    assert_eq!(req.version, Version::V1_1);
    assert_eq!(req.resource, Resource::Path(String::new()));
    assert_eq!(req.msg_body, "hello");
}

#[test]
fn unknown_tokens_on_request_line() {
    let req = HttpRequest::parse("DELETE /item HTTP/3\r\n").unwrap();
    assert_eq!(req.method, Method::Uninitialized);
    assert_eq!(req.version, Version::Uninitialized);
    assert_eq!(req.resource, Resource::Path("/item".to_string()));
}

#[test]
fn carriage_return_only_stripped_before_newline() {
    let req = HttpRequest::parse("body\r").unwrap();
    assert_eq!(req.msg_body, "body\r");
    let req = HttpRequest::parse("body\r\n").unwrap();
    assert_eq!(req.msg_body, "body");
}

#[test]
fn parsing_is_deterministic() {
    let text = "POST /a HTTP/2.0\r\nX: y\r\n\r\nz";
    assert_eq!(HttpRequest::parse(text), HttpRequest::parse(text));
}
