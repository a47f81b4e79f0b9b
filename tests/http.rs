use webcore::http::{Error, Method, Request, Response};
use webcore::url::URL;

#[test]
fn post_with_body() {
    let bytes = b"POST /x HTTP/1.1\r\nContent-Length: 5\r\n\r\nhello".to_vec();
    let (req, used) = Request::decode(&bytes).unwrap();
    assert_eq!(req.verb(), Method::POST);
    assert_eq!(req.url().resource(), &vec!["x".to_string()]);
    assert_eq!(req.body(), &b"hello".to_vec());
    assert_eq!(req.body().len(), 5);
    assert_eq!(used, bytes.len());
    assert_eq!(req.header("Content-Length"), Some("5"));
}

#[test]
fn method_is_case_insensitive() {
    assert_eq!(Method::try_from("get"), Ok(Method::GET));
    assert_eq!(Method::try_from("PaTcH"), Ok(Method::PATCH));
    assert_eq!(Method::try_from("FETCH"), Err(()));
    let (req, _) = Request::decode(&b"delete /a HTTP/1.1\r\n\r\n".to_vec()).unwrap();
    assert_eq!(req.verb(), Method::DELETE);
}

#[test]
fn header_values_are_trimmed() {
    let bytes = b"GET /a HTTP/1.1\r\nHost:   example.org \t\r\nX-Empty:\r\nX-Two: a: b\r\n\r\n".to_vec();
    let (req, used) = Request::decode(&bytes).unwrap();
    assert_eq!(req.header("Host"), Some("example.org"));
    assert_eq!(req.header("X-Empty"), Some(""));
    assert_eq!(req.header("X-Two"), Some("a: b"));
    assert_eq!(req.body().len(), 0);
    assert_eq!(used, bytes.len());
}

#[test]
fn pipelined_requests_decode_one_at_a_time() {
    let bytes = b"GET /a HTTP/1.1\r\n\r\nGET /b HTTP/1.1\r\n\r\n".to_vec();
    let (first, used) = Request::decode(&bytes).unwrap();
    assert_eq!(first.url().resource(), &vec!["a".to_string()]);
    let (second, _) = Request::decode(&bytes[used..].to_vec()).unwrap();
    assert_eq!(second.url().resource(), &vec!["b".to_string()]);
}

#[test]
fn decoding_errors() {
    assert!(matches!(Request::decode(&b"".to_vec()), Err(Error::ConnectionClosed)));
    assert!(matches!(Request::decode(&b"GET / HTTP/1.1\r\nHost: x\r\n".to_vec()), Err(Error::ConnectionClosed)));
    assert!(matches!(Request::decode(&b"\r\n".to_vec()), Err(Error::RequestParse)));
    assert!(matches!(Request::decode(&b"FETCH / HTTP/1.1\r\n\r\n".to_vec()), Err(Error::RequestParse)));
    assert!(matches!(Request::decode(&b"GET\r\n\r\n".to_vec()), Err(Error::RequestParse)));
    assert!(matches!(Request::decode(&b"GET /%zz HTTP/1.1\r\n\r\n".to_vec()), Err(Error::URLParse)));
    assert!(matches!(Request::decode(&b"GET / HTTP/1.1\r\nNoColon\r\n\r\n".to_vec()), Err(Error::InvalidHeader)));
    assert!(matches!(
        Request::decode(&b"GET / HTTP/1.1\r\nContent-Length: five\r\n\r\n".to_vec()),
        Err(Error::InvalidHeader)
    ));
    assert!(matches!(
        Request::decode(&b"GET / HTTP/1.1\r\nContent-Length: 9\r\n\r\nshort".to_vec()),
        Err(Error::IOError(_))
    ));
    assert!(matches!(
        Request::decode(&b"GET / HTTP/1.1\r\nX: \xff\r\n\r\n".to_vec()),
        Err(Error::IOError(_))
    ));
}

#[test]
fn only_a_closed_peer_is_quiet() {
    assert!(Error::ConnectionClosed.closes_silently());
    assert!(!Error::RequestParse.closes_silently());
    assert!(!Error::IOError(std::io::ErrorKind::BrokenPipe.into()).closes_silently());
}

#[test]
fn head_lines_then_body() {
    let lines = vec![b"PUT /doc HTTP/1.1".to_vec(), b"Content-Length: 3".to_vec()];
    let req = Request::from_head(&lines).unwrap();
    assert_eq!(req.verb(), Method::PUT);
    assert_eq!(req.content_length().unwrap(), 3);
    let req = req.with_body(b"abc".to_vec());
    assert_eq!(req.body(), &b"abc".to_vec());
}

#[test]
fn response_wire_form() {
    let r = Response::from_text(200, "text/plain", "hi");
    assert_eq!(
        r.as_bytes(),
        b"HTTP/1.1 200\r\nContent-Type: text/plain\r\nContent-Length: 2\r\n\r\nhi".to_vec()
    );
    let r = Response::new(204);
    assert_eq!(r.as_bytes(), b"HTTP/1.1 204\r\nContent-Length: 0\r\n\r\n".to_vec());
}

#[test]
fn content_length_follows_body() {
    let r = Response::new(200)
        .with_header("X-A", "1")
        .with_body("text/plain", b"hello".to_vec())
        .with_header("Content-Length", "99")
        .with_body("application/octet-stream", vec![0u8; 1234]);
    assert_eq!(r.header().get_first("Content-Length"), Some("1234"));
    assert_eq!(r.header().get_all("Content-Length"), vec!["1234"]);
    assert_eq!(r.header().get_all("Content-Type"), vec!["application/octet-stream"]);
    assert_eq!(r.body().len(), 1234);
    assert_eq!(Response::from_text(200, "text/plain", "h\u{e9}").header().get_first("Content-Length"), Some("3"));
}

#[test]
fn not_found_page() {
    let r = Response::not_found();
    assert_eq!(r.code(), 404);
    assert_eq!(r.header().get_first("Content-Type"), Some("text/html"));
}

#[test]
fn redirect_sets_location() {
    let url = URL::from_string("https://example.org/next").unwrap();
    let r = Response::redirect(302, &url);
    assert_eq!(r.code(), 302);
    assert_eq!(r.header().get_first("Location"), Some("https://example.org/next"));
    assert_eq!(r.header().get_first("Content-Length"), Some("0"));
}

#[test]
fn response_round_trips_through_the_decoder() {
    let r = Response::from_text(200, "text/html", "<p>hi</p>").with_header("X-Trace", "a b c");
    let mut bytes = b"GET /x ".to_vec();
    bytes.extend(r.as_bytes());
    let (req, used) = Request::decode(&bytes).unwrap();
    assert_eq!(used, bytes.len());
    assert_eq!(req.body(), r.body());
    let got: Vec<(String, String)> = req
        .headers()
        .entries()
        .iter()
        .map(|e| (e.key().to_string(), e.value().to_string()))
        .collect();
    let want: Vec<(String, String)> = r
        .header()
        .entries()
        .iter()
        .map(|e| (e.key().to_string(), e.value().to_string()))
        .collect();
    assert_eq!(got, want);
}

#[test]
fn request_with_a_response_head_round_trips() {
    let r = Response::from_text(200, "text/plain", "hello").with_header("X-Id", "7");
    let wire = r.as_bytes();
    let status_end = wire.windows(2).position(|w| w == b"\r\n").unwrap() + 2;
    let mut bytes = b"PUT /doc HTTP/1.1\r\n".to_vec();
    bytes.extend_from_slice(&wire[status_end..]);
    let (req, used) = Request::decode(&bytes).unwrap();
    assert_eq!(used, bytes.len());
    assert_eq!(req.verb(), Method::PUT);
    assert_eq!(req.body(), r.body());
    assert_eq!(req.header("X-Id"), Some("7"));
    assert_eq!(req.headers().entries().len(), r.header().entries().len());
}

#[test]
fn duplicate_is_equal() {
    let bytes = b"POST /a/b?x=1 HTTP/1.1\r\nK: v\r\nContent-Length: 2\r\n\r\nhi".to_vec();
    let (req, _) = Request::decode(&bytes).unwrap();
    let d = req.duplicate();
    assert_eq!(d.verb(), req.verb());
    assert_eq!(d.url().as_string(), req.url().as_string());
    assert_eq!(d.header("K"), Some("v"));
    assert_eq!(d.body(), req.body());
}

#[test]
fn header_values_lose_unicode_whitespace() {
    let bytes = "GET / HTTP/1.1\r\nX-A: \u{a0}v a\u{3000}\r\nX-B:\u{2009}\r\n\r\n".as_bytes().to_vec();
    let (req, _) = Request::decode(&bytes).unwrap();
    assert_eq!(req.header("X-A"), Some("v a"));
    assert_eq!(req.header("X-B"), Some(""));
}
