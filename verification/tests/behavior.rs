use web_server::{page_path, response, worker_count, HttpVersion, Request, Response};

#[test]
fn empty_buffer_is_malformed() {
    assert!(Request::new(b"").parse().is_none());
}

#[test]
fn short_request_line_is_malformed() {
    assert!(Request::new(b"GET /\nHost: a\n").parse().is_none());
    assert!(Request::new(b"GET\n").parse().is_none());
}

#[test]
fn bad_version_is_malformed() {
    assert!(Request::new(b"GET / HTTP/1.x\n").parse().is_none());
    assert!(Request::new(b"GET / FOO/1.1\n").parse().is_none());
    assert!(Request::new(b"GET / HTTP/\n").parse().is_none());
    assert!(Request::new(b"GET / HTTP/1.\n").parse().is_none());
    assert!(Request::new(b"GET / HTTP/.5\n").parse().is_none());
}

#[test]
fn version_variants_parse() {
    let two = Request::new(b"GET / HTTP/2\n").parse().unwrap();
    assert_eq!(two.http_version, HttpVersion { major: 2, minor: 0 });

    // Without the prefix, a numeric token still counts as a version.
    let bare = Request::new(b"GET / 1.1\n").parse().unwrap();
    assert_eq!(bare.http_version, HttpVersion { major: 1, minor: 1 });
}

#[test]
fn duplicate_header_overwrites_in_place() {
    let parsed = Request::new(b"GET / HTTP/1.1\nA: 1\nB: 2\nA: 3\n")
        .parse()
        .unwrap();
    assert_eq!(parsed.headers.len(), 2);
    assert_eq!(parsed.headers.key_at(0).as_str(), "A");
    assert_eq!(parsed.headers.value_at(0).as_str(), "3");
    assert_eq!(parsed.headers.key_at(1).as_str(), "B");
    assert_eq!(parsed.headers.value_at(1).as_str(), "2");
    assert_eq!(parsed.headers.get("A").unwrap().as_str(), "3");
    assert!(parsed.headers.get("C").is_none());
}

#[test]
fn header_value_keeps_later_colons() {
    let parsed = Request::new(b"GET / HTTP/1.1\nHost: 127.0.0.1:3000\n")
        .parse()
        .unwrap();
    assert_eq!(parsed.headers.get("Host").unwrap().as_str(), "127.0.0.1:3000");
}

#[test]
fn empty_header_parts_are_dropped() {
    let parsed = Request::new(b"GET / HTTP/1.1\nX-Empty: \n: anonymous\nplain line\n")
        .parse()
        .unwrap();
    assert_eq!(parsed.headers.len(), 0);
}

#[test]
fn body_follows_first_blank_line() {
    let parsed = Request::new(b"GET / HTTP/1.1\nHost: a\n\n  hi\x00 there  \n\nlater\n")
        .parse()
        .unwrap();
    assert_eq!(parsed.body.as_str(), "hi there");
}

#[test]
fn blank_final_line_gives_empty_body() {
    let parsed = Request::new(b"GET / HTTP/1.1\nHost: a\n\n").parse().unwrap();
    assert_eq!(parsed.body.as_str(), "");
}

#[test]
fn null_padding_is_harmless() {
    let mut buffer = [0u8; 1024];
    let data = b"GET /about HTTP/1.1\nHost: a\n";
    buffer[..data.len()].copy_from_slice(data);
    let parsed = Request::new(&buffer).parse().unwrap();
    assert_eq!(parsed.method.as_str(), "GET");
    assert_eq!(parsed.uri.as_str(), "/about");
    assert_eq!(parsed.headers.get("Host").unwrap().as_str(), "a");
}

#[test]
fn invalid_bytes_become_replacement_characters() {
    let parsed = Request::new(b"GET /\xff HTTP/1.1\n").parse().unwrap();
    assert_eq!(parsed.uri.as_str(), "/\u{fffd}");
}

#[test]
fn page_path_maps_uris() {
    assert_eq!(page_path("/"), "frontend/index.html");
    assert_eq!(page_path("/about"), "frontend/about.html");
    assert_eq!(page_path("/about.html"), "frontend/about.html");
    assert_eq!(page_path("/a/b"), "frontend/a/b.html");
    assert_eq!(page_path("/x.html.y"), "frontend/x.html.y");
}

#[test]
fn malformed_request_gets_exact_400() {
    let res = Response::new(b"oops");
    assert_eq!(
        res.get_page(None, None).unwrap(),
        "HTTP/1.1 400 Bad ass Request\r\n\r\n\r\n"
    );
    // The reads play no part in the 400 answer.
    let page = String::from("ignored");
    assert_eq!(
        res.get_page(Some(&page), Some(&page)).unwrap(),
        "HTTP/1.1 400 Bad ass Request\r\n\r\n\r\n"
    );
}

#[test]
fn found_page_gets_content_length() {
    let res = Response::new(b"GET / HTTP/1.1\n");
    let page = String::from("h\u{e9}llo");
    assert_eq!(
        res.get_page(Some(&page), None).unwrap(),
        "HTTP/1.1 200 OK\r\nContent-Length: 6\r\n\r\nh\u{e9}llo"
    );
}

#[test]
fn missing_page_falls_back_with_200() {
    let res = Response::new(b"GET /not-found HTTP/1.1\n");
    let not_found = String::from("<html>404</html>");
    assert_eq!(
        res.get_page(None, Some(&not_found)).unwrap(),
        "HTTP/1.1 200 OK\r\n\r\n\r\n<html>404</html>"
    );
}

#[test]
fn missing_fallback_is_fatal() {
    let res = Response::new(b"GET /gone HTTP/1.1\n");
    assert!(res.get_page(None, None).is_none());
}

#[test]
fn resolving_twice_is_byte_identical() {
    let buffer = b"GET /about HTTP/1.1\nHost: a\n";
    let res = Response::new(buffer);
    let page = String::from("<html>about</html>");
    let first = res.get_page(Some(&page), None).unwrap();
    let second = res.get_page(Some(&page), None).unwrap();
    assert_eq!(first, second);

    let again = Response::new(buffer);
    assert_eq!(again.get_page(Some(&page), None).unwrap(), first);
}

#[test]
fn formatting_is_deterministic() {
    let body = "{ logged_in: true }";
    assert_eq!(
        response(200, "OK", "Content-Type: application/json", body),
        format!("HTTP/1.1 200 OK\r\nContent-Type: application/json\r\n\r\n{}", body)
    );
    assert_eq!(
        response(-12, "Odd", "", ""),
        "HTTP/1.1 -12 Odd\r\n\r\n\r\n"
    );
    assert_eq!(
        response(1024, "Big", "", ""),
        "HTTP/1.1 1024 Big\r\n\r\n\r\n"
    );
}

#[test]
fn long_content_length_is_rendered() {
    let res = Response::new(b"GET / HTTP/1.1\n");
    let page = "x".repeat(150);
    let out = res.get_page(Some(&page), None).unwrap();
    assert!(out.starts_with("HTTP/1.1 200 OK\r\nContent-Length: 150\r\n\r\n"));
}

#[test]
fn worker_count_scales_down() {
    assert_eq!(worker_count(10), 8);
    assert_eq!(worker_count(5), 4);
    assert_eq!(worker_count(4), 3);
    assert_eq!(worker_count(1), 1);
    assert_eq!(worker_count(0), 1);
}
