use workpool::http::HttpError;
use workpool::http::Request;
use workpool::http::Route;
use workpool::http::file_name;
use workpool::http::format_response;
use workpool::http::parse_header_line;
use workpool::http::parse_request_line;
use workpool::http::route;
use workpool::http::status_bytes;

#[test]
fn request_line_splits_into_three_parts() {
    let r = parse_request_line("GET / HTTP/1.1").unwrap();
    assert_eq!(r.0, "GET");
    assert_eq!(r.1, "/");
    assert_eq!(r.2, "HTTP/1.1");
}

#[test]
fn request_line_with_wrong_space_count_is_invalid() {
    assert_eq!(
        parse_request_line("GET /"),
        Err(HttpError::InvalidRequestLine)
    );
    assert_eq!(
        parse_request_line("GET  / HTTP/1.1"),
        Err(HttpError::InvalidRequestLine)
    );
    assert_eq!(parse_request_line(""), Err(HttpError::InvalidRequestLine));
}

#[test]
fn request_line_keeps_empty_parts() {
    // two spaces split an empty method, path and version out of "  "
    let r = parse_request_line("  ").unwrap();
    assert_eq!(r.0, "");
    assert_eq!(r.1, "");
    assert_eq!(r.2, "");
}

#[test]
fn header_line_splits_on_single_separator() {
    let h = parse_header_line("Host: localhost:7990").unwrap();
    assert_eq!(h.0, "Host");
    assert_eq!(h.1, "localhost:7990");
}

#[test]
fn header_line_without_one_separator_is_skipped() {
    assert_eq!(parse_header_line("no separator here"), None);
    assert_eq!(parse_header_line("a: b: c"), None);
    assert_eq!(parse_header_line(""), None);
}

#[test]
fn request_new_reads_headers_until_blank() {
    let lines: Vec<String> = vec![
        "GET /index.html HTTP/1.1".to_string(),
        "Host: example".to_string(),
        "odd line".to_string(),
        "Accept: text/html".to_string(),
        "".to_string(),
        "Ignored: yes".to_string(),
    ];
    let req = Request::new(&lines).unwrap();
    assert_eq!(req.method, "GET");
    assert_eq!(req.path, "/index.html");
    assert_eq!(req.version, "HTTP/1.1");
    assert_eq!(
        req.headers,
        vec![
            ("Host".to_string(), "example".to_string()),
            ("Accept".to_string(), "text/html".to_string()),
        ]
    );
}

#[test]
fn later_duplicate_header_wins() {
    let lines: Vec<String> = vec![
        "GET / HTTP/1.1".to_string(),
        "Host: first".to_string(),
        "Host: second".to_string(),
        "".to_string(),
    ];
    let req = Request::new(&lines).unwrap();
    assert_eq!(req.header(&"Host".to_string()), Some(&"second".to_string()));
    assert_eq!(req.header(&"Accept".to_string()), None);
}

#[test]
fn request_from_no_lines_is_empty_input() {
    let lines: Vec<String> = Vec::new();
    assert!(matches!(
        Request::new(&lines),
        Err(HttpError::EmptyInput)
    ));
}

#[test]
fn request_with_bad_first_line_is_invalid() {
    let lines: Vec<String> = vec!["nonsense".to_string(), "Host: x".to_string()];
    assert!(matches!(
        Request::new(&lines),
        Err(HttpError::InvalidRequestLine)
    ));
}

#[test]
fn routes_of_the_known_paths() {
    assert_eq!(route(&"/".to_string()), Route::Root);
    assert_eq!(route(&"/sleep".to_string()), Route::Sleep);
    assert_eq!(route(&"/missing".to_string()), Route::NotFound);
    assert_eq!(route(&"".to_string()), Route::NotFound);
}

#[test]
fn status_and_file_for_each_route() {
    assert_eq!(status_bytes(Route::Root), b"HTTP/1.1 200 OK".to_vec());
    assert_eq!(status_bytes(Route::Sleep), b"HTTP/1.1 200 OK".to_vec());
    assert_eq!(
        status_bytes(Route::NotFound),
        b"HTTP/1.1 404 NOT FOUND".to_vec()
    );
    assert_eq!(file_name(Route::Root), "hello.html");
    assert_eq!(file_name(Route::Sleep), "hello.html");
    assert_eq!(file_name(Route::NotFound), "404.html");
}

#[test]
fn response_carries_exact_content_length() {
    let r = format_response(b"HTTP/1.1 200 OK", b"hello");
    assert_eq!(r, b"HTTP/1.1 200 OK\r\nContent-Length: 5\r\n\r\nhello".to_vec());
}

#[test]
fn response_length_has_all_decimal_digits() {
    let body = vec![b'x'; 123];
    let r = format_response(b"HTTP/1.1 200 OK", &body);
    let mut expect = b"HTTP/1.1 200 OK\r\nContent-Length: 123\r\n\r\n".to_vec();
    expect.extend_from_slice(&body);
    assert_eq!(r, expect);
}

#[test]
fn empty_body_has_length_zero() {
    let r = format_response(b"HTTP/1.1 404 NOT FOUND", b"");
    assert_eq!(
        r,
        b"HTTP/1.1 404 NOT FOUND\r\nContent-Length: 0\r\n\r\n".to_vec()
    );
}
