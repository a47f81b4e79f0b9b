use webcore::http::{Error, Method, Request, Response};
use webcore::route::{Endpoint, Tree, URLSegment};
use webcore::service::{dispatch, respond, EndpointFunction};
use webcore::url::URL;

fn table(routes: &[(Method, &str, u32)]) -> Tree<u32> {
    let mut t = Tree::new();
    for (m, p, h) in routes {
        t.add(Endpoint::new(*m, p).unwrap(), *h).unwrap();
    }
    t
}

#[test]
fn static_wins() {
    let t = table(&[(Method::GET, "/a/<x>", 1), (Method::GET, "/a/b", 2)]);
    let (h, b) = t.find_match(Method::GET, &URL::from_string("/a/b").unwrap()).unwrap();
    assert_eq!(*h, 2);
    assert_eq!(b.len(), 0);
    let (h, b) = t.find_match(Method::GET, &URL::from_string("/a/c").unwrap()).unwrap();
    assert_eq!(*h, 1);
    assert_eq!(b.get("x"), Some("c"));
    assert_eq!(b.len(), 1);
}

#[test]
fn static_wins_whatever_the_order() {
    let t = table(&[(Method::GET, "/a/b", 2), (Method::GET, "/a/<x>", 1)]);
    let (h, _) = t.find_match(Method::GET, &URL::from_string("/a/b").unwrap()).unwrap();
    assert_eq!(*h, 2);
}

#[test]
fn earlier_static_outranks_later_static() {
    let t = table(&[(Method::GET, "/<a>/x", 1), (Method::GET, "/p/<b>", 2)]);
    let (h, b) = t.find_match(Method::GET, &URL::from_string("/p/x").unwrap()).unwrap();
    assert_eq!(*h, 2);
    assert_eq!(b.get("b"), Some("x"));
}

#[test]
fn multi_segment_capture() {
    let t = table(&[(Method::GET, "/print/<color>/<text>", 7)]);
    let (h, b) = t.find_match(Method::GET, &URL::from_string("/print/red/hi").unwrap()).unwrap();
    assert_eq!(*h, 7);
    assert_eq!(b.get("color"), Some("red"));
    assert_eq!(b.get("text"), Some("hi"));
    assert_eq!(b.len(), 2);
}

#[test]
fn method_and_length_must_match() {
    let t = table(&[(Method::GET, "/a/<x>", 1)]);
    assert!(t.find_match(Method::POST, &URL::from_string("/a/b").unwrap()).is_none());
    assert!(t.find_match(Method::GET, &URL::from_string("/a").unwrap()).is_none());
    assert!(t.find_match(Method::GET, &URL::from_string("/a/b/c").unwrap()).is_none());
    assert!(t.find_match(Method::GET, &URL::from_string("/").unwrap()).is_none());
}

#[test]
fn interior_node_of_higher_priority_means_no_match() {
    let t = table(&[(Method::GET, "/a/<x>", 1), (Method::GET, "/a/b/c", 2)]);
    assert!(t.find_match(Method::GET, &URL::from_string("/a/b").unwrap()).is_none());
    let (h, _) = t.find_match(Method::GET, &URL::from_string("/a/z").unwrap()).unwrap();
    assert_eq!(*h, 1);
}

#[test]
fn duplicate_registration() {
    let mut t = Tree::new();
    t.add(Endpoint::new(Method::GET, "/a/<x>").unwrap(), 1).unwrap();
    let second = t.add(Endpoint::new(Method::GET, "/a/<y>").unwrap(), 2);
    assert!(matches!(second, Err(Error::DuplicateEndpoint)));
    assert!(t.add(Endpoint::new(Method::POST, "/a/<y>").unwrap(), 3).is_ok());
    let (h, b) = t.find_match(Method::GET, &URL::from_string("/a/q").unwrap()).unwrap();
    assert_eq!(*h, 1);
    assert_eq!(b.get("x"), Some("q"));
}

#[test]
fn template_grammar() {
    let e = Endpoint::new(Method::GET, "/print/<color>/text").unwrap();
    assert_eq!(e.verb(), Method::GET);
    assert!(matches!(&e.resource()[0], URLSegment::Static(s) if s == "print"));
    assert!(matches!(&e.resource()[1], URLSegment::Dynamic(s) if s == "color"));
    assert!(matches!(&e.resource()[2], URLSegment::Static(s) if s == "text"));
    for bad in ["", "print", "/", "/a//b", "/a/", "/<x", "/<>", "/<a<b>", "/\u{e9}"] {
        assert!(matches!(Endpoint::new(Method::GET, bad), Err(Error::InvalidEndpoint)), "{}", bad);
    }
}

struct Echo;

impl EndpointFunction for Echo {
    fn handle(&self, _: Request, bindings: webcore::route::Bindings) -> Option<Response> {
        Some(Response::from_text(200, "text/plain", bindings.get("text").unwrap()))
    }
}

fn get(target: &str) -> Request {
    let text = format!("GET {} HTTP/1.1\r\n\r\n", target);
    Request::decode(&text.into_bytes()).unwrap().0
}

#[test]
fn not_found_without_route() {
    let mut t = Tree::new();
    t.add(Endpoint::new(Method::GET, "/print/<text>").unwrap(), Echo).unwrap();
    let r = respond(&t, &get("/nope"));
    assert_eq!(r.code(), 404);
    assert!(r.as_bytes().starts_with(b"HTTP/1.1 404\r\n"));
    assert_eq!(r.header().get_first("Content-Length"), Some(r.body().len().to_string().as_str()));
    assert_eq!(r.body(), &b"<html><body><h1>Not Found</h1></body></html>".to_vec());
    assert!(dispatch(&t, &get("/nope")).is_none());
    let r = respond(&t, &get("/print/hi"));
    assert_eq!(r.code(), 200);
    assert_eq!(r.body(), &b"hi".to_vec());
}
