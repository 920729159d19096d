use web_server::{response, HttpVersion, Request, Response};

const SAMPLE_REQ_STR: &str = "GET / HTTP/1.1
Host: 127.0.0.1:3000
User-Agent: Mozilla/5.0 (Windows NT 10.0; Win64; x64; rv:97.0) Gecko/20100101 Firefox/97.0
Accept: text/html,application/xhtml+xml,application/xml;q=0.9,image/avif,image/webp,*/*;q=0.8
Accept-Language: en-US,en;q=0.5
Accept-Encoding: gzip, deflate
Connection: keep-alive
Upgrade-Insecure-Requests: 1
Sec-Fetch-Dest: document
Sec-Fetch-Mode: navigate
Sec-Fetch-Site: none
Sec-Fetch-User: ?1
Cache-Control: max-age=0";

#[test]
fn it_parses_request_buffer() {
    let req = Request::new(SAMPLE_REQ_STR.as_bytes());

    let parsed = req.parse().unwrap();
    assert_eq!(parsed.method.as_str(), "GET");
    assert_eq!(parsed.uri.as_str(), "/");
    assert_eq!(parsed.http_version, HttpVersion { major: 1, minor: 1 });
    assert_eq!(parsed.body.as_str(), "");

    let expected = vec![
        ("Host", "127.0.0.1:3000"),
        (
            "User-Agent",
            "Mozilla/5.0 (Windows NT 10.0; Win64; x64; rv:97.0) Gecko/20100101 Firefox/97.0",
        ),
        (
            "Accept",
            "text/html,application/xhtml+xml,application/xml;q=0.9,image/avif,image/webp,*/*;q=0.8",
        ),
        ("Accept-Language", "en-US,en;q=0.5"),
        ("Accept-Encoding", "gzip, deflate"),
        ("Connection", "keep-alive"),
        ("Upgrade-Insecure-Requests", "1"),
        ("Sec-Fetch-Dest", "document"),
        ("Sec-Fetch-Mode", "navigate"),
        ("Sec-Fetch-Site", "none"),
        ("Sec-Fetch-User", "?1"),
        ("Cache-Control", "max-age=0"),
    ];
    assert_eq!(parsed.headers.len(), expected.len());
    for (i, (k, v)) in expected.iter().enumerate() {
        assert_eq!(parsed.headers.key_at(i).as_str(), *k);
        assert_eq!(parsed.headers.value_at(i).as_str(), *v);
    }
}

#[test]
fn it_responds_correctly() {
    let res = Response::new(SAMPLE_REQ_STR.as_bytes());

    let index = String::from("<html><body>home</body></html>");
    let _ = res
        .get_page(Some(&index), None)
        .unwrap()
        .starts_with("HTTP/1.1 200 OK\r\n");
}

#[test]
fn it_refuses_invalid_requests() {
    let req_str = SAMPLE_REQ_STR.replace("/ HTTP/1.1", "/not-found HTTP/1.1");
    let res = Response::new(req_str.as_bytes());

    let not_found = String::from("<html><body>missing</body></html>");
    let _ = res
        .get_page(None, Some(&not_found))
        .unwrap()
        .starts_with("HTTP/1.1 400 Bad ass Request\r\n");
}

#[test]
fn it_formats_response_correctly() {
    assert_eq!(
        response(
            200,
            "OK",
            "Content-Type: application/json",
            "{ logged_in: true }"
        ),
        "HTTP/1.1 200 OK\r\nContent-Type: application/json\r\n\r\n{ logged_in: true }"
    );

    assert_eq!(
        response(400, "Bad ass", "", ""),
        "HTTP/1.1 400 Bad ass\r\n\r\n\r\n"
    );
}
