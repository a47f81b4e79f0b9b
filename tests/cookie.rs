use webcore::cookie::Cookie;
use webcore::http::Response;
use webcore::pool::{choose_worker, Dispatch};

#[test]
fn cookie_text() {
    let c = Cookie::new("id", "42");
    assert_eq!(c.as_string(), "id=42");
    let c = c.with_http_only(true).with_secure(true);
    assert_eq!(c.as_string(), "id=42; HttpOnly; Secure");
    let c = Cookie::new("a", "b").with_expiration(0);
    assert_eq!(c.as_string(), "a=b; Expire=Thu, 1 Jan 1970 00:00:00 +0000");
    let c = Cookie::new("a", "b").with_secure(true);
    assert_eq!(c.text_with_date(Some("D".to_string())), "a=b; Expire=D; Secure");
}

#[test]
fn set_cookie_keeps_content_length() {
    let r = Response::from_text(200, "text/plain", "abc").with_cookie(&Cookie::new("k", "v").with_secure(true));
    assert_eq!(r.header().get_first("Set-Cookie"), Some("k=v; Secure"));
    assert_eq!(r.header().get_first("Content-Length"), Some("3"));
}

#[test]
fn worker_choice() {
    assert_eq!(choose_worker(&vec![true, false, false], Some(3), 5), Dispatch::Idle(1));
    assert_eq!(choose_worker(&vec![true, true], None, 5), Dispatch::Spawn);
    assert_eq!(choose_worker(&vec![true, true], Some(3), 5), Dispatch::Spawn);
    assert_eq!(choose_worker(&vec![true, true, true], Some(3), 5), Dispatch::Any(2));
    assert_eq!(choose_worker(&vec![], Some(0), 5), Dispatch::Spawn);
}
