use webcore::header::Header;

#[test]
fn keeps_order_and_duplicates() {
    let mut h = Header::new();
    h.add("Set-Cookie", "a=1");
    h.add("Host", "x");
    h.add("Set-Cookie", "b=2");
    assert_eq!(h.get_first("Set-Cookie"), Some("a=1"));
    assert_eq!(h.get_all("Set-Cookie"), vec!["a=1", "b=2"]);
    assert_eq!(h.get_first("set-cookie"), None);
    let keys: Vec<&str> = h.entries().iter().map(|e| e.key()).collect();
    assert_eq!(keys, vec!["Set-Cookie", "Host", "Set-Cookie"]);
}

#[test]
fn replace_and_remove() {
    let mut h = Header::new();
    h.add("A", "1");
    h.add("B", "2");
    h.add("A", "3");
    h.replace("A", "4");
    assert_eq!(h.get_all("A"), vec!["4"]);
    let keys: Vec<&str> = h.entries().iter().map(|e| e.key()).collect();
    assert_eq!(keys, vec!["B", "A"]);
    h.remove("B");
    assert_eq!(h.get_first("B"), None);
    assert_eq!(h.entries().len(), 1);
}

#[test]
fn cookie_lookup() {
    let mut h = Header::new();
    h.add("Cookie", "theme=dark");
    h.add("Cookie", "session=abc=def");
    h.add("Cookie", "session=second");
    assert_eq!(h.cookie("session"), Some("abc=def"));
    assert_eq!(h.cookie("theme"), Some("dark"));
    assert_eq!(h.cookie("missing"), None);
}
