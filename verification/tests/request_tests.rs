use httpx::method::Method;
use httpx::request::{HttpRequest, ParseError, Rescues, Version};

#[test]
fn test_version() {
    assert_eq!(Version::from("HTTP/1.1"), Version::V1_1);
    assert_eq!(Version::from("HTTP/2.0"), Version::V2_0);
    assert_eq!(Version::from("HTTP/3.0"), Version::NoSupport);
}

#[test]
fn test_method() {
    assert_eq!(Method::from("GET"), Method::GET);
    assert_eq!(Method::from("POST"), Method::POST);
    assert_eq!(Method::from("PUT"), Method::PUT);
    assert_eq!(Method::from("DELETE"), Method::DELETE);
}

#[test]
fn method_names() {
    assert_eq!(Method::GET.as_str(), "GET");
    assert_eq!(Method::POST.as_str(), "POST");
    assert_eq!(Method::PUT.as_lower_str(), "put");
    assert_eq!(Method::DELETE.as_lower_str(), "delete");
}

#[test]
fn test_rescues() {
    assert_eq!(Rescues::from("/"), Rescues::Path("/".to_string()));
    assert_eq!(
        Rescues::from("/index.html"),
        Rescues::Path("/index.html".to_string())
    );
}

#[test]
fn test_parse_request() {
    let request_str = "GET / HTTP/1.1\r\n";
    let request = HttpRequest::from(request_str.to_string()).unwrap();
    assert_eq!(request.method, Method::GET);
    assert_eq!(request.uri, "/".to_string());
    assert_eq!(request.version, Version::V1_1);
    assert!(request.headers.is_empty());
    assert_eq!(request.body, None);
}

#[test]
fn test_parse_request_header_and_body() {
    let request_str = "GET / HTTP/1.1\r\nContent-Type: text/html\r\n\r\nbody";
    let request = HttpRequest::from(request_str.to_string()).unwrap();
    assert_eq!(request.method, Method::GET);
    assert_eq!(request.uri, "/".to_string());
    assert_eq!(request.version, Version::V1_1);
    assert_eq!(request.headers.len(), 1);
    assert_eq!(request.get_header("Content-Type"), Some("text/html"));
    assert_eq!(request.body, Some("body".to_string()));
}

#[test]
fn parse_full_request_line_query_header_body() {
    let request = HttpRequest::from("GET /a?x=1 HTTP/1.1\r\nH: v\r\n\r\nBODY".to_string()).unwrap();
    assert_eq!(request.get_method(), Method::GET);
    assert_eq!(request.get_uri(), "/a");
    assert_eq!(request.get_params(), Some("x=1"));
    assert_eq!(request.headers.len(), 1);
    assert_eq!(request.get_header("H"), Some("v"));
    assert_eq!(request.get_body(), Some("BODY"));
}

#[test]
fn parse_request_line_with_repeated_blanks() {
    let request = HttpRequest::from("GET   /x \t HTTP/1.1\r\n".to_string()).unwrap();
    assert_eq!(request.get_method(), Method::GET);
    assert_eq!(request.get_uri(), "/x");
    assert_eq!(request.version, Version::V1_1);
}

#[test]
fn parse_query_splits_at_first_question_mark() {
    let request = HttpRequest::from("GET /a?x=1?y=2 HTTP/1.1\r\n".to_string()).unwrap();
    assert_eq!(request.get_uri(), "/a");
    assert_eq!(request.get_params(), Some("x=1?y=2"));
}

#[test]
fn final_line_without_newline_keeps_its_carriage_return() {
    let request = HttpRequest::from("GET / HTTP/1.1\r\n\r\nbody\r".to_string()).unwrap();
    assert_eq!(request.get_body(), Some("body\r"));
}

#[test]
fn request_line_splits_on_unicode_whitespace() {
    let request = HttpRequest::from("GET\u{a0}/n\u{2003}HTTP/1.1\r\n".to_string()).unwrap();
    assert_eq!(request.get_method(), Method::GET);
    assert_eq!(request.get_uri(), "/n");
    assert_eq!(request.version, Version::V1_1);
}

#[test]
fn header_values_trim_unicode_whitespace() {
    let request =
        HttpRequest::from("GET / HTTP/1.1\r\nA:\u{2009}v\u{a0}\r\n\r\n".to_string()).unwrap();
    assert_eq!(request.get_header("A"), Some("v"));
}

#[test]
fn parse_without_marker_gives_default_request() {
    let request = HttpRequest::from("just some noise".to_string()).unwrap();
    assert_eq!(request.method, Method::GET);
    assert_eq!(request.uri, "/");
    assert_eq!(request.version, Version::V1_1);
    assert_eq!(request.get_header("Content-Type"), Some("text/html"));
    assert_eq!(request.body, None);
    assert_eq!(request.get_params(), Some(""));
}

#[test]
fn parse_short_request_line_is_error() {
    let r = HttpRequest::from("GET HTTP/1.1\r\n".to_string());
    assert_eq!(r.err(), Some(ParseError::BadRequestLine));
}

#[test]
fn parse_header_without_colon_is_error() {
    let r = HttpRequest::from("GET / HTTP/1.1\r\nbroken header\r\n\r\n".to_string());
    assert_eq!(r.err(), Some(ParseError::BadHeaderLine));
}

#[test]
fn parse_unknown_method_token_defaults_to_get() {
    let request = HttpRequest::from("BREW /pot HTTP/1.1\r\n".to_string()).unwrap();
    assert_eq!(request.method, Method::GET);
    assert_eq!(request.uri, "/pot");
}

#[test]
fn parse_trims_header_values_and_keeps_last_duplicate() {
    let request =
        HttpRequest::from("GET / HTTP/1.1\r\nA:  one \r\nA: two\r\nB:\tb\r\n\r\n".to_string())
            .unwrap();
    assert_eq!(request.get_header("A"), Some("two"));
    assert_eq!(request.get_header("B"), Some("b"));
    assert_eq!(request.get_header("C"), None);
    assert_eq!(request.headers.len(), 2);
}

#[test]
fn parse_joins_body_lines_without_separator() {
    let request = HttpRequest::from("GET / HTTP/1.1\r\n\r\nab\r\ncd".to_string()).unwrap();
    assert_eq!(request.get_body(), Some("abcd"));
}

#[test]
fn remote_addr_round_trip() {
    let mut request = HttpRequest::from("GET / HTTP/1.1\r\n".to_string()).unwrap();
    assert_eq!(request.get_remote_addr(), "".to_string());
    request.set_remote_addr("127.0.0.1:9999");
    assert_eq!(request.get_remote_addr(), "127.0.0.1:9999".to_string());
}
