use raw_http::address::{select_ipv4, Ipv4Target, ResolvedAddress};
use raw_http::decoder::decode_response;
use raw_http::request::{Request, RequestMethod};
use raw_http::response::{HTTPVersion, Response};
use raw_http::url::UrlParts;
use raw_http::RequestError;

fn no_path() -> UrlParts {
    UrlParts { subdomain: None, domain: None, top_level_domain: None, port: None, path: None }
}

#[test]
fn header_keys_are_lowercased_and_collide() {
    let mut r = Request::new("http://www.example.com:80/", RequestMethod::GET);
    r.add_header("Content-Length", "3");
    r.add_header("content-length", "7");
    assert_eq!(r.get_header("content-length").map(|s| s.as_str()), Some("7"));
    assert_eq!(r.get_header("Content-Length"), None);
    let text = r.encode_with(&no_path());
    assert_eq!(text, "GET / HTTP/1.1\r\ncontent-length: 7\r\n\r\n");
}

#[test]
fn encode_single_host_header() {
    let mut r = Request::new("http://example.com/", RequestMethod::GET);
    r.add_header("Host", "example.com");
    r.set_body(String::new());
    assert_eq!(
        r.encode_with(&no_path()),
        "GET / HTTP/1.1\r\nhost: example.com\r\ncontent-length: 0\r\n\r\n"
    );
}

#[test]
fn encode_post_counts_body_bytes() {
    let mut r = Request::new("http://example.com/", RequestMethod::POST);
    r.set_body("héllo".to_string());
    let parts = UrlParts {
        subdomain: None,
        domain: None,
        top_level_domain: None,
        port: None,
        path: Some(vec!["a".to_string(), "b".to_string()]),
    };
    assert_eq!(r.encode_with(&parts), "POST a/b HTTP/1.1\r\ncontent-length: 6\r\n\r\nhéllo");
}

#[test]
fn encode_empty_path_becomes_slash() {
    let r = Request::new("x", RequestMethod::GET);
    let parts = UrlParts {
        subdomain: None,
        domain: None,
        top_level_domain: None,
        port: None,
        path: Some(vec![]),
    };
    assert_eq!(r.encode_with(&parts), "GET / HTTP/1.1\r\ncontent-length: 0\r\n\r\n");
}

#[test]
fn encode_through_url_parser() {
    let r = Request::new("https://www.example.co.uk:443/blog/article/search", RequestMethod::GET);
    assert_eq!(
        r.encode().unwrap(),
        "GET blog/article/search HTTP/1.1\r\ncontent-length: 0\r\n\r\n"
    );
    assert_eq!(r.dns_target().unwrap(), "www.example.co.uk:443");
}

#[test]
fn url_without_port_takes_scheme_default() {
    let r = Request::new("http://www.example.com/", RequestMethod::GET);
    assert_eq!(r.encode().unwrap(), "GET / HTTP/1.1\r\ncontent-length: 0\r\n\r\n");
    assert_eq!(r.dns_target().unwrap(), "www.example.com:80");
    let r = Request::new("https://www.example.co.uk/blog/post", RequestMethod::GET);
    assert_eq!(r.encode().unwrap(), "GET blog/post HTTP/1.1\r\ncontent-length: 0\r\n\r\n");
    assert_eq!(r.dns_target().unwrap(), "www.example.co.uk:443");
}

#[test]
fn ipv4_host_without_port_encodes() {
    let r = Request::new("http://127.0.0.1/status", RequestMethod::GET);
    assert_eq!(r.encode().unwrap(), "GET status HTTP/1.1\r\ncontent-length: 0\r\n\r\n");
}

#[test]
fn unsupported_url_shapes_are_refused() {
    let r = Request::new("foo://www.example.com/", RequestMethod::GET);
    assert_eq!(r.encode(), Err(RequestError::ParseUrlError));
    assert_eq!(r.dns_target(), Err(RequestError::ParseUrlError));
    let r = Request::new("http://www.example.com:80/a#b", RequestMethod::GET);
    assert_eq!(r.encode(), Err(RequestError::ParseUrlError));
}

#[test]
fn encode_root_path_through_url_parser() {
    let r = Request::new("http://www.example.com:80/", RequestMethod::GET);
    assert_eq!(r.encode().unwrap(), "GET / HTTP/1.1\r\ncontent-length: 0\r\n\r\n");
    assert_eq!(r.dns_target().unwrap(), "www.example.com:80");
}

#[test]
fn remove_header_drops_entry() {
    let mut r = Request::new("x", RequestMethod::GET);
    r.add_header("Accept", "*/*");
    r.add_header("Host", "h");
    r.remove_header("accept".to_string());
    assert_eq!(r.get_header("accept"), None);
    assert_eq!(r.encode_with(&no_path()), "GET / HTTP/1.1\r\nhost: h\r\ncontent-length: 0\r\n\r\n");
}

#[test]
fn decode_content_length_with_odd_case_and_spacing() {
    let input = b"HTTP/1.1 200 OK\ncontent-LENGTH:   5\n\nHello".to_vec();
    let r = decode_response(&input).unwrap();
    assert_eq!(r.get_content_length(), 5);
    assert_eq!(r.get_body(), "Hello");
    assert_eq!(r.get_header("content-LENGTH").map(|s| s.as_str()), Some("5"));
}

#[test]
fn decode_blank_line_before_header_ends_block() {
    let input = b"HTTP/1.1 200 OK\n\nContent-Length: 5\n\nHello".to_vec();
    let r = decode_response(&input).unwrap();
    assert_eq!(r.get_content_length(), 0);
    assert_eq!(r.get_body(), "");
}

#[test]
fn decode_no_headers() {
    let input = b"HTTP/1.1 200 OK\n\r\n".to_vec();
    let r = decode_response(&input).unwrap();
    assert_eq!(r.get_content_length(), 0);
    assert_eq!(r.get_body(), "");
    assert_eq!(r.get_status_code(), 200);
    assert_eq!(r.get_reason(), "OK");
    assert_eq!(r.get_http_version(), HTTPVersion::HTTP1_1);
}

#[test]
fn decode_two_token_status_line_fails() {
    let input = b"HTTP/1.1 200\n".to_vec();
    assert_eq!(
        decode_response(&input).err(),
        Some(RequestError::ParseHeaderError("HTTP/1.1 200\n".to_string()))
    );
}

#[test]
fn decode_header_without_colon_fails() {
    let input = b"HTTP/1.1 200 OK\r\nBadHeader\n".to_vec();
    assert_eq!(
        decode_response(&input).err(),
        Some(RequestError::ParseHeaderError("BadHeader\n".to_string()))
    );
}

#[test]
fn decode_reason_keeps_rest_of_line() {
    let input = b"HTTP/1.0 404 Not Found\r\nX-A: 1 \r\n\r\n".to_vec();
    let r = decode_response(&input).unwrap();
    assert_eq!(r.get_http_version(), HTTPVersion::HTTP1_0);
    assert_eq!(r.get_status_code(), 404);
    assert_eq!(r.get_reason(), "Not Found");
    assert_eq!(r.get_header("X-A").map(|s| s.as_str()), Some("1"));
}

#[test]
fn decode_non_numeric_status_is_zero() {
    let input = b"HTTP/2 abc fine\r\n\r\n".to_vec();
    let r = decode_response(&input).unwrap();
    assert_eq!(r.get_status_code(), 0);
    assert_eq!(r.get_http_version(), HTTPVersion::UnknownVersion);
}

#[test]
fn decode_short_body_is_io_error() {
    let input = b"HTTP/1.1 200 OK\r\nContent-Length: 10\r\n\r\nabc".to_vec();
    assert!(matches!(decode_response(&input), Err(RequestError::IOError(_))));
}

#[test]
fn decode_invalid_utf8_body() {
    let mut input = b"HTTP/1.1 200 OK\r\nContent-Length: 2\r\n\r\n".to_vec();
    input.push(0xff);
    input.push(0xfe);
    assert_eq!(decode_response(&input).err(), Some(RequestError::Utf8DecodeError));
}

#[test]
fn decode_reads_exactly_content_length() {
    let input = b"HTTP/1.1 201 Created\r\nContent-Length: 3\r\n\r\nabcdef".to_vec();
    let r = decode_response(&input).unwrap();
    assert_eq!(r.get_body(), "abc");
    assert_eq!(r.get_status_code(), 201);
}

#[test]
fn empty_lookup_is_no_address_found() {
    assert_eq!(select_ipv4(&vec![]), Err(RequestError::NoAddressFound));
    assert_eq!(select_ipv4(&vec![ResolvedAddress::V6]), Err(RequestError::NoAddressFound));
}

#[test]
fn lookup_picks_first_ipv4() {
    let a = Ipv4Target { ip: 0x7f000001, port: 80 };
    let b = Ipv4Target { ip: 0x0a000001, port: 80 };
    let addrs = vec![ResolvedAddress::V6, ResolvedAddress::V4(a), ResolvedAddress::V4(b)];
    assert_eq!(select_ipv4(&addrs), Ok(a));
}

#[test]
fn response_status_code_parsing() {
    let mut r = Response::new();
    r.set_status_code(" 204 ");
    assert_eq!(r.get_status_code(), 204);
    r.set_status_code("abc");
    assert_eq!(r.get_status_code(), 204);
    r.set_status_code("40000");
    assert_eq!(r.get_status_code(), 204);
    r.set_status_code("-12");
    assert_eq!(r.get_status_code(), -12);
}

#[test]
fn response_content_length_follows_header() {
    let mut r = Response::new();
    r.add_header("Content-Length".to_string(), "12 ".to_string());
    assert_eq!(r.get_content_length(), 12);
    assert_eq!(r.get_header("Content-Length").map(|s| s.as_str()), Some("12"));
    r.add_header("CONTENT-LENGTH".to_string(), "nope".to_string());
    assert_eq!(r.get_content_length(), 12);
    r.set_content_length(3);
    assert_eq!(r.get_content_length(), 3);
    assert_eq!(r.get_headers().len(), 2);
}

#[test]
fn response_to_string_exact() {
    let mut r = Response::new();
    r.set_http_version("HTTP/1.1");
    r.set_status_code("200");
    r.set_reason("OK");
    r.add_header("Content-Length".to_string(), "2".to_string());
    r.set_body("hi".to_string());
    assert_eq!(r.to_string(), "HTTP/1.1 200 OK\r\nContent-Length: 2\r\n\r\nhi");
}

#[test]
fn response_round_trip() {
    let mut r = Response::new();
    r.set_http_version("HTTP/1.0");
    r.set_status_code("404");
    r.set_reason("Not Found");
    r.add_header("Server".to_string(), "demo".to_string());
    r.add_header("Content-Length".to_string(), "6".to_string());
    r.set_body("gone!\n".to_string());
    let wire = r.to_string().into_bytes();
    let d = decode_response(&wire).unwrap();
    assert_eq!(d.get_status_code(), 404);
    assert_eq!(d.get_reason(), "Not Found");
    assert_eq!(d.get_body(), "gone!\n");
    let mut a: Vec<(String, String)> = r.get_headers().clone();
    let mut b: Vec<(String, String)> = d.get_headers().clone();
    a.sort();
    b.sort();
    assert_eq!(a, b);
    assert_eq!(d.get_header("Server").map(|s| s.as_str()), Some("demo"));
}

#[test]
fn response_round_trip_utf8() {
    let mut r = Response::new();
    r.set_http_version("HTTP/1.1");
    r.set_status_code("200");
    r.set_reason("Très bien");
    r.add_header("X-Note".to_string(), "café ☕".to_string());
    r.add_header("Content-Length".to_string(), "7".to_string());
    r.set_body("naïve\n".to_string());
    let wire = r.to_string().into_bytes();
    let d = decode_response(&wire).unwrap();
    assert_eq!(d.get_status_code(), 200);
    assert_eq!(d.get_reason(), "Très bien");
    assert_eq!(d.get_body(), "naïve\n");
    assert_eq!(d.get_content_length(), 7);
    assert_eq!(d.get_header("X-Note").map(|s| s.as_str()), Some("café ☕"));
    assert_eq!(d.get_headers().len(), 2);
}
