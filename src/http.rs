//! HTTP methods, errors, requests and responses.
use vstd::prelude::*;
use vstd::utf8::{
    decode_utf8, encode_scalar, encode_utf8, encode_utf8_decode_utf8, encode_utf8_valid_utf8,
    valid_utf8,
};
use crate::cookie::{cookie_text, expiry_ok, Cookie};
use crate::header::{first_value, Header};
use crate::text::{
    append_bytes, ascii_bytes, lemma_ascii_round_trip, ascii_string, bytes_as_chars, decimal, decimal_bytes,
    decimal_string, find_from, find_pattern, parse_bounded, parse_unsigned, slice_of, split_all,
    split_bytes, string_from_utf8, trim, trim_str, utf8_bytes, views, white_space,
};
use crate::url::{url_of, UrlView, URL};

verus! {

#[verifier::external_type_specification]
#[verifier::external_body]
pub struct ExIoError(std::io::Error);

/// The request methods of HTTP/1.1.
#[derive(Debug, PartialEq, Eq, Structural, Copy, Clone)]
pub enum Method {
    GET,
    HEAD,
    POST,
    PUT,
    DELETE,
    CONNECT,
    OPTIONS,
    TRACE,
    PATCH,
}

/// An ASCII letter in upper case; any other character unchanged.
pub open spec fn upper(c: char) -> char {
    if 'a' <= c && c <= 'z' {
        ((c as u32) - 32) as char
    } else {
        c
    }
}

/// `s` with its ASCII letters in upper case.
pub open spec fn upper_all(s: Seq<char>) -> Seq<char> {
    Seq::new(s.len(), |i: int| upper(s[i]))
}

/// The method whose name is `s`, in upper case.
pub open spec fn method_named(s: Seq<char>) -> Option<Method> {
    if s == seq!['G', 'E', 'T'] {
        Some(Method::GET)
    } else if s == seq!['H', 'E', 'A', 'D'] {
        Some(Method::HEAD)
    } else if s == seq!['P', 'O', 'S', 'T'] {
        Some(Method::POST)
    } else if s == seq!['P', 'U', 'T'] {
        Some(Method::PUT)
    } else if s == seq!['D', 'E', 'L', 'E', 'T', 'E'] {
        Some(Method::DELETE)
    } else if s == seq!['C', 'O', 'N', 'N', 'E', 'C', 'T'] {
        Some(Method::CONNECT)
    } else if s == seq!['O', 'P', 'T', 'I', 'O', 'N', 'S'] {
        Some(Method::OPTIONS)
    } else if s == seq!['T', 'R', 'A', 'C', 'E'] {
        Some(Method::TRACE)
    } else if s == seq!['P', 'A', 'T', 'C', 'H'] {
        Some(Method::PATCH)
    } else {
        None
    }
}

fn upper_string(s: &str) -> (r: Vec<char>)
    ensures
        r@ == upper_all(s@),
{
    let n = s.unicode_len();
    let mut out: Vec<char> = Vec::new();
    let mut i: usize = 0;
    while i < n
        invariant
            0 <= i <= n,
            n == s@.len(),
            out@ == upper_all(s@.subrange(0, i as int)),
        decreases n - i,
    {
        let c = s.get_char(i);
        let u = if 'a' <= c && c <= 'z' {
            ((c as u32) - 32) as u8 as char
        } else {
            c
        };
        proof {
            if 'a' <= c && c <= 'z' {
                assert(((c as u32) - 32) as u8 as char == ((c as u32) - 32) as char);
            }
        }
        out.push(u);
        proof {
            assert(out@ =~= upper_all(s@.subrange(0, i + 1)));
        }
        i = i + 1;
    }
    proof {
        assert(s@.subrange(0, n as int) =~= s@);
    }
    out
}

fn chars_eq(a: &Vec<char>, b: &[char]) -> (r: bool)
    ensures
        r == (a@ == b@),
{
    if a.len() != b.len() {
        return false;
    }
    let mut i: usize = 0;
    while i < a.len()
        invariant
            0 <= i <= a@.len(),
            a@.len() == b@.len(),
            forall|k: int| 0 <= k < i ==> a@[k] == b@[k],
        decreases a@.len() - i,
    {
        if a[i] != b[i] {
            return false;
        }
        i = i + 1;
    }
    proof {
        assert(a@ =~= b@);
    }
    true
}

impl Method {
    /// The method named `from`, ignoring the case of ASCII letters.
    pub fn try_from(from: &str) -> (r: Result<Method, ()>)
        ensures
            r is Ok <==> method_named(upper_all(from@)) is Some,
            r is Ok ==> r->Ok_0 == method_named(upper_all(from@)).unwrap(),
    {
        let u = upper_string(from);
        let get = ['G', 'E', 'T'];
        let head = ['H', 'E', 'A', 'D'];
        let post = ['P', 'O', 'S', 'T'];
        let put = ['P', 'U', 'T'];
        let delete = ['D', 'E', 'L', 'E', 'T', 'E'];
        let connect = ['C', 'O', 'N', 'N', 'E', 'C', 'T'];
        let options = ['O', 'P', 'T', 'I', 'O', 'N', 'S'];
        let trace = ['T', 'R', 'A', 'C', 'E'];
        let patch = ['P', 'A', 'T', 'C', 'H'];
        assert(get@ =~= seq!['G', 'E', 'T']);
        assert(head@ =~= seq!['H', 'E', 'A', 'D']);
        assert(post@ =~= seq!['P', 'O', 'S', 'T']);
        assert(put@ =~= seq!['P', 'U', 'T']);
        assert(delete@ =~= seq!['D', 'E', 'L', 'E', 'T', 'E']);
        assert(connect@ =~= seq!['C', 'O', 'N', 'N', 'E', 'C', 'T']);
        assert(options@ =~= seq!['O', 'P', 'T', 'I', 'O', 'N', 'S']);
        assert(trace@ =~= seq!['T', 'R', 'A', 'C', 'E']);
        assert(patch@ =~= seq!['P', 'A', 'T', 'C', 'H']);
        if chars_eq(&u, &get) {
            Ok(Method::GET)
        } else if chars_eq(&u, &head) {
            Ok(Method::HEAD)
        } else if chars_eq(&u, &post) {
            Ok(Method::POST)
        } else if chars_eq(&u, &put) {
            Ok(Method::PUT)
        } else if chars_eq(&u, &delete) {
            Ok(Method::DELETE)
        } else if chars_eq(&u, &connect) {
            Ok(Method::CONNECT)
        } else if chars_eq(&u, &options) {
            Ok(Method::OPTIONS)
        } else if chars_eq(&u, &trace) {
            Ok(Method::TRACE)
        } else if chars_eq(&u, &patch) {
            Ok(Method::PATCH)
        } else {
            Err(())
        }
    }
}

/// What can go wrong while serving HTTP or registering endpoints.
#[derive(Debug)]
pub enum Error {
    /// A malformed request line or an unknown method.
    RequestParse,
    /// A header that cannot be read, such as a non-numeric `Content-Length`.
    InvalidHeader,
    /// The underlying stream failed.
    IOError(std::io::Error),
    /// A route template that does not follow the template grammar.
    InvalidEndpoint,
    /// A handler is already registered for the pattern.
    DuplicateEndpoint,
    /// The request target is not a valid URL.
    URLParse,
    /// The peer closed the connection before a request could be read.
    ConnectionClosed,
}

impl Error {
    /// Whether a connection ending with this error ends quietly: only a peer
    /// that closed before a request is no fault to report.
    pub fn closes_silently(&self) -> (r: bool)
        ensures
            r == (*self is ConnectionClosed),
    {
        match self {
            Error::ConnectionClosed => true,
            _ => false,
        }
    }
}

/// `Content-Length`.
pub open spec fn content_length_key() -> Seq<char> {
    seq!['C', 'o', 'n', 't', 'e', 'n', 't', '-', 'L', 'e', 'n', 'g', 't', 'h']
}

/// `Content-Type`.
pub open spec fn content_type_key() -> Seq<char> {
    seq!['C', 'o', 'n', 't', 'e', 'n', 't', '-', 'T', 'y', 'p', 'e']
}

/// The text of the 404 page.
pub open spec fn not_found_text() -> Seq<char> {
    seq![
        '<', 'h', 't', 'm', 'l', '>', '<', 'b', 'o', 'd', 'y', '>', '<', 'h', '1', '>', 'N', 'o',
        't', ' ', 'F', 'o', 'u', 'n', 'd', '<', '/', 'h', '1', '>', '<', '/', 'b', 'o', 'd', 'y',
        '>', '<', '/', 'h', 't', 'm', 'l', '>',
    ]
}

/// The 404 page: status 404, an HTML body, its type and length in the header.
pub open spec fn not_found_view() -> ResponseView {
    ResponseView {
        code: 404,
        header: seq![
            (content_type_key(), seq!['t', 'e', 'x', 't', '/', 'h', 't', 'm', 'l']),
            (content_length_key(), bytes_as_chars(decimal(encode_utf8(not_found_text()).len()))),
        ],
        body: encode_utf8(not_found_text()),
    }
}

/// A response as a value.
pub struct ResponseView {
    pub code: nat,
    pub header: Seq<(Seq<char>, Seq<char>)>,
    pub body: Seq<u8>,
}

/// The header lines of a message: `key: value` and CR LF for each entry.
pub open spec fn header_bytes(h: Seq<(Seq<char>, Seq<char>)>) -> Seq<u8>
    decreases h.len(),
{
    if h.len() == 0 {
        seq![]
    } else {
        header_bytes(h.drop_last()) + encode_utf8(h.last().0) + seq![58u8, 32u8] + encode_utf8(
            h.last().1,
        ) + seq![13u8, 10u8]
    }
}

/// `HTTP/1.1 `.
pub open spec fn status_prefix() -> Seq<u8> {
    seq![72u8, 84u8, 84u8, 80u8, 47u8, 49u8, 46u8, 49u8, 32u8]
}

/// The wire form of a response: status line, header lines, a blank line and
/// the body.
pub open spec fn response_bytes(r: ResponseView) -> Seq<u8> {
    status_prefix() + decimal(r.code) + seq![13u8, 10u8] + header_bytes(r.header) + seq![
        13u8,
        10u8,
    ] + r.body
}

/// An HTTP response: status code, header and body.
#[derive(Debug, Clone)]
pub struct Response {
    code: usize,
    header: Header,
    body: Vec<u8>,
}

impl View for Response {
    type V = ResponseView;

    closed spec fn view(&self) -> ResponseView {
        ResponseView { code: self.code as nat, header: self.header@, body: self.body@ }
    }
}

impl Response {
    /// The first `Content-Length` entry gives the body's length in decimal.
    pub open spec fn length_consistent(&self) -> bool {
        first_value(self@.header, content_length_key()) == Some(
            bytes_as_chars(decimal(self@.body.len())),
        )
    }

    /// A response with `code`, the header `Content-Length: 0` and no body.
    pub fn new(code: usize) -> (r: Self)
        ensures
            r@ == (ResponseView {
                code: code as nat,
                header: seq![(content_length_key(), seq!['0'])],
                body: seq![],
            }),
            r.length_consistent(),
    {
        let mut header = Header::new();
        header.add("Content-Length", "0");
        proof {
            reveal_strlit("Content-Length");
            reveal_strlit("0");
            assert("Content-Length"@ =~= content_length_key());
            assert("0"@ =~= seq!['0']);
        }
        let r = Response { code, header, body: Vec::new() };
        proof {
            assert(r@.body =~= Seq::<u8>::empty());
            assert(decimal(0) =~= seq![48u8]);
            assert(bytes_as_chars(decimal(0)) =~= seq!['0']);
            let h = r@.header;
            assert(h.len() == 1);
            assert(h.drop_last() =~= Seq::<(Seq<char>, Seq<char>)>::empty());
            assert(h.last() == (content_length_key(), seq!['0']));
            assert(crate::header::values_of(h.drop_last(), content_length_key()) =~= Seq::<
                Seq<char>,
            >::empty());
            assert(crate::header::values_of(h, content_length_key()) =~= seq![seq!['0']]);
        }
        r
    }

    pub fn code(&self) -> (r: usize)
        ensures
            r as nat == self@.code,
    {
        self.code
    }

    pub fn header(&self) -> (r: &Header)
        ensures
            r@ == self@.header,
    {
        &self.header
    }

    pub fn body(&self) -> (r: &Vec<u8>)
        ensures
            r@ == self@.body,
    {
        &self.body
    }

    /// Appends the header entry `key: value`.
    pub fn with_header(self, key: &str, value: &str) -> (r: Self)
        ensures
            r@ == (ResponseView { header: self@.header.push((key@, value@)), ..self@ }),
            self.length_consistent() ==> r.length_consistent(),
            key@ != content_length_key() ==> crate::header::values_of(
                r@.header,
                content_length_key(),
            ) == crate::header::values_of(self@.header, content_length_key()),
            crate::header::values_of(r@.header, key@) == crate::header::values_of(
                self@.header,
                key@,
            ).push(value@),
    {
        let mut s = self;
        let ghost h = s.header@;
        s.header.add(key, value);
        proof {
            crate::header::lemma_first_value_push(h, key@, value@, content_length_key());
            assert(s.header@.drop_last() =~= h);
        }
        s
    }

    /// Sets the body, and with it `Content-Type` and `Content-Length`, each
    /// replacing earlier entries of its key.
    pub fn with_body(self, content_type: &str, body: Vec<u8>) -> (r: Self)
        ensures
            r@ == (ResponseView {
                header: crate::header::without_key(
                    crate::header::without_key(self@.header, content_type_key()).push(
                        (content_type_key(), content_type@),
                    ),
                    content_length_key(),
                ).push((content_length_key(), bytes_as_chars(decimal(body@.len())))),
                body: body@,
                ..self@
            }),
            r.length_consistent(),
            crate::header::values_of(r@.header, content_length_key()) == seq![
                bytes_as_chars(decimal(body@.len())),
            ],
            crate::header::values_of(r@.header, content_type_key()) == seq![content_type@],
            forall|q: Seq<char>|
                q != content_length_key() && q != content_type_key() ==> #[trigger] crate::header::values_of(
                    r@.header,
                    q,
                ) == crate::header::values_of(self@.header, q),
    {
        let mut s = self;
        let ghost h0 = s.header@;
        let len = decimal_string(body.len() as u64);
        proof {
            reveal_strlit("Content-Type");
            reveal_strlit("Content-Length");
            assert("Content-Type"@ =~= content_type_key());
            assert("Content-Length"@ =~= content_length_key());
        }
        s.header.replace("Content-Type", content_type);
        let ghost h = s.header@;
        s.header.replace("Content-Length", len.as_str());
        s.body = body;
        proof {
            crate::header::lemma_first_value_replaced(h, content_length_key(), len@);
            let cl = content_length_key();
            let ct = content_type_key();
            assert(cl != ct) by {
                assert(cl[8] != ct[8]);
            }
            let h1 = crate::header::without_key(h0, ct);
            assert forall|q: Seq<char>| #[trigger]
                crate::header::values_of(s@.header, q) == (if q == cl {
                    seq![len@]
                } else if q == ct {
                    seq![content_type@]
                } else {
                    crate::header::values_of(h0, q)
                }) by {
                crate::header::lemma_values_without(h0, ct, q);
                crate::header::lemma_values_push(h1, ct, content_type@, q);
                crate::header::lemma_values_without(h, cl, q);
                crate::header::lemma_values_push(
                    crate::header::without_key(h, cl),
                    cl,
                    len@,
                    q,
                );
                assert(Seq::<Seq<char>>::empty().push(len@) =~= seq![len@]);
                assert(Seq::<Seq<char>>::empty().push(content_type@) =~= seq![content_type@]);
            }
            assert(crate::header::values_of(s@.header, cl) == seq![len@]);
            assert(crate::header::values_of(s@.header, ct) == seq![content_type@]);
        }
        s
    }

    /// A response with `code` whose body is the UTF-8 text `text` of type `mime`.
    pub fn from_text(code: usize, mime: &str, text: &str) -> (r: Self)
        ensures
            r@.code == code as nat,
            r@.body == encode_utf8(text@),
            r@.header == seq![
                (content_type_key(), mime@),
                (content_length_key(), bytes_as_chars(decimal(encode_utf8(text@).len()))),
            ],
            r.length_consistent(),
    {
        let r = Response::new(code).with_body(mime, utf8_bytes(text));
        proof {
            let h0: Seq<(Seq<char>, Seq<char>)> = seq![(content_length_key(), seq!['0'])];
            assert(h0.drop_last() =~= Seq::<(Seq<char>, Seq<char>)>::empty());
            assert(content_length_key() != content_type_key()) by {
                assert(content_length_key()[8] != content_type_key()[8]);
            }
            let e = Seq::<(Seq<char>, Seq<char>)>::empty();
            assert(crate::header::without_key(e, content_type_key()) =~= e);
            assert(crate::header::without_key(e, content_length_key()) =~= e);
            assert(h0.last().0 != content_type_key());
            assert(e.push(h0.last()) =~= h0);
            assert(crate::header::without_key(h0, content_type_key()) =~= h0);
            let h1 = h0.push((content_type_key(), mime@));
            assert(h1.drop_last() =~= h0);
            assert(crate::header::without_key(h1, content_length_key()) =~= seq![
                (content_type_key(), mime@),
            ]) by {
                assert(crate::header::without_key(h0, content_length_key()) =~= e);
                assert(e.push((content_type_key(), mime@)) =~= seq![(content_type_key(), mime@)]);
            }
            assert(r@.header =~= seq![
                (content_type_key(), mime@),
                (content_length_key(), bytes_as_chars(decimal(encode_utf8(text@).len()))),
            ]);
        }
        r
    }

    /// A response with `code` that sends the client to `url`.
    pub fn redirect(code: usize, url: &URL) -> (r: Self)
        ensures
            r@ == (ResponseView {
                code: code as nat,
                header: seq![
                    (content_length_key(), seq!['0']),
                    (seq!['L', 'o', 'c', 'a', 't', 'i', 'o', 'n'], bytes_as_chars(crate::url::serialize(url@))),
                ],
                body: seq![],
            }),
            r.length_consistent(),
    {
        let location = match url.as_string() {
            Ok(s) => s,
            Err(_) => String::new(),
        };
        proof {
            reveal_strlit("Location");
            assert("Location"@ =~= seq!['L', 'o', 'c', 'a', 't', 'i', 'o', 'n']);
        }
        let r = Response::new(code).with_header("Location", location.as_str());
        proof {
            assert(r@.header =~= seq![
                (content_length_key(), seq!['0']),
                (seq!['L', 'o', 'c', 'a', 't', 'i', 'o', 'n'], bytes_as_chars(crate::url::serialize(url@))),
            ]);
        }
        r
    }

    /// Appends a `Set-Cookie` entry carrying `cookie`.
    pub fn with_cookie(self, cookie: &Cookie) -> (r: Self)
        requires
            expiry_ok(cookie@),
        ensures
            r@ == (ResponseView {
                header: self@.header.push(
                    (seq!['S', 'e', 't', '-', 'C', 'o', 'o', 'k', 'i', 'e'], cookie_text(cookie@)),
                ),
                ..self@
            }),
            self.length_consistent() ==> r.length_consistent(),
    {
        proof {
            reveal_strlit("Set-Cookie");
            assert("Set-Cookie"@ =~= seq!['S', 'e', 't', '-', 'C', 'o', 'o', 'k', 'i', 'e']);
        }
        let text = cookie.as_string();
        self.with_header("Set-Cookie", text.as_str())
    }

    /// The 404 page served where no handler and no fallback answers.
    pub fn not_found() -> (r: Self)
        ensures
            r@ == not_found_view(),
            r.length_consistent(),
    {
        proof {
            reveal_strlit("text/html");
            reveal_strlit("<html><body><h1>Not Found</h1></body></html>");
            assert("text/html"@ =~= seq!['t', 'e', 'x', 't', '/', 'h', 't', 'm', 'l']);
            assert("<html><body><h1>Not Found</h1></body></html>"@ =~= not_found_text());
        }
        Response::from_text(404, "text/html", "<html><body><h1>Not Found</h1></body></html>")
    }

    /// The wire form of the response.
    pub fn as_bytes(&self) -> (r: Vec<u8>)
        ensures
            r@ == response_bytes(self@),
    {
        let mut out: Vec<u8> = Vec::new();
        append_bytes(&mut out, &[72u8, 84u8, 84u8, 80u8, 47u8, 49u8, 46u8, 49u8, 32u8]);
        let digits = decimal_bytes(self.code as u64);
        append_bytes(&mut out, digits.as_slice());
        out.push(13);
        out.push(10);
        let ghost start = out@;
        let entries = self.header.entries();
        let mut i: usize = 0;
        while i < entries.len()
            invariant
                0 <= i <= entries@.len(),
                crate::header::entry_views(entries@) == self@.header,
                out@ == start + header_bytes(
                    crate::header::entry_views(entries@).subrange(0, i as int),
                ),
            decreases entries@.len() - i,
        {
            let e = &entries[i];
            append_bytes(&mut out, utf8_bytes(e.key()).as_slice());
            out.push(58);
            out.push(32);
            append_bytes(&mut out, utf8_bytes(e.value()).as_slice());
            out.push(13);
            out.push(10);
            proof {
                let hs = crate::header::entry_views(entries@);
                assert(hs.subrange(0, i + 1).drop_last() =~= hs.subrange(0, i as int));
                assert(hs[i as int] == e.spec_pair());
                assert(out@ =~= start + header_bytes(hs.subrange(0, i + 1)));
            }
            i = i + 1;
        }
        out.push(13);
        out.push(10);
        append_bytes(&mut out, self.body.as_slice());
        proof {
            let hs = crate::header::entry_views(entries@);
            assert(hs.subrange(0, hs.len() as int) =~= hs);
            assert(out@ =~= response_bytes(self@));
        }
        out
    }
}

/// Kinds of decoding failure, as values.
pub enum Failure {
    RequestParse,
    InvalidHeader,
    IOError,
    URLParse,
    ConnectionClosed,
}

/// Whether `e` is an error of the kind `f`.
pub open spec fn fails_with(e: Error, f: Failure) -> bool {
    match f {
        Failure::RequestParse => e is RequestParse,
        Failure::InvalidHeader => e is InvalidHeader,
        Failure::IOError => e is IOError,
        Failure::URLParse => e is URLParse,
        Failure::ConnectionClosed => e is ConnectionClosed,
    }
}

/// The lines of a message head from `pos` on, each without its CR LF, up to
/// the first empty line, and where the body starts after it.
pub open spec fn head_lines(b: Seq<u8>, pos: int) -> Option<(Seq<Seq<u8>>, int)>
    decreases b.len() - pos,
{
    if pos < 0 || pos > b.len() {
        None
    } else {
        match find_from(b, seq![13u8, 10u8], pos) {
            None => None,
            Some(i) => if i == pos {
                Some((seq![], i + 2))
            } else if pos < i && i + 2 <= b.len() {
                match head_lines(b, i + 2) {
                    Some(r) => Some((seq![b.subrange(pos, i)] + r.0, r.1)),
                    None => None,
                }
            } else {
                None
            },
        }
    }
}

/// A request as a value.
pub struct RequestView {
    pub verb: Method,
    pub url: UrlView,
    pub header: Seq<(Seq<char>, Seq<char>)>,
    pub body: Seq<u8>,
}

/// Method and target of a request line: split on spaces, the first token
/// names the method, the second is the target; the rest is ignored.
pub open spec fn request_line(line: Seq<u8>) -> Result<(Method, UrlView), Failure> {
    let toks = split_all(line, 32u8);
    if toks.len() < 2 || !ascii_bytes(toks[0]) || method_named(
        upper_all(bytes_as_chars(toks[0])),
    ) is None {
        Err(Failure::RequestParse)
    } else if !ascii_bytes(toks[1]) || url_of(bytes_as_chars(toks[1])) is None {
        Err(Failure::URLParse)
    } else {
        Ok(
            (
                method_named(upper_all(bytes_as_chars(toks[0]))).unwrap(),
                url_of(bytes_as_chars(toks[1])).unwrap(),
            ),
        )
    }
}

/// A header line split at its first `:`, the value trimmed.
pub open spec fn header_line(line: Seq<u8>) -> Result<(Seq<char>, Seq<char>), Failure> {
    match crate::text::find(line, seq![58u8]) {
        None => Err(Failure::InvalidHeader),
        Some(i) => {
            let k = line.subrange(0, i);
            let v = line.subrange(i + 1, line.len() as int);
            if valid_utf8(k) && valid_utf8(v) {
                Ok((decode_utf8(k), trim(decode_utf8(v))))
            } else {
                Err(Failure::IOError)
            }
        },
    }
}

/// The entries of header lines; the first failing line decides.
pub open spec fn header_lines(ls: Seq<Seq<u8>>) -> Result<Seq<(Seq<char>, Seq<char>)>, Failure>
    decreases ls.len(),
{
    if ls.len() == 0 {
        Ok(seq![])
    } else {
        match header_lines(ls.drop_last()) {
            Ok(h) => match header_line(ls.last()) {
                Ok(kv) => Ok(h.push(kv)),
                Err(e) => Err(e),
            },
            Err(e) => Err(e),
        }
    }
}

/// The body length a header announces: its first `Content-Length`, 0 without one.
pub open spec fn content_length(h: Seq<(Seq<char>, Seq<char>)>) -> Result<nat, Failure> {
    match first_value(h, content_length_key()) {
        None => Ok(0),
        Some(v) => match parse_unsigned(encode_utf8(v)) {
            Some(n) => if n <= usize::MAX {
                Ok(n)
            } else {
                Err(Failure::InvalidHeader)
            },
            None => Err(Failure::InvalidHeader),
        },
    }
}

/// A request head: the request line, then header lines.
pub open spec fn parse_head(ls: Seq<Seq<u8>>) -> Result<RequestView, Failure> {
    if ls.len() == 0 {
        Err(Failure::RequestParse)
    } else {
        match request_line(ls[0]) {
            Err(e) => Err(e),
            Ok(mu) => match header_lines(ls.drop_first()) {
                Err(e) => Err(e),
                Ok(h) => match content_length(h) {
                    Err(e) => Err(e),
                    Ok(_) => Ok(RequestView { verb: mu.0, url: mu.1, header: h, body: seq![] }),
                },
            },
        }
    }
}

/// The request at the start of `b`, and where it ends.
pub open spec fn decode_request(b: Seq<u8>) -> Result<(RequestView, int), Failure> {
    match head_lines(b, 0) {
        None => Err(Failure::ConnectionClosed),
        Some(hl) => match parse_head(hl.0) {
            Err(e) => Err(e),
            Ok(r) => {
                let n = content_length(r.header)->Ok_0;
                if hl.1 + n <= b.len() {
                    Ok((RequestView { body: b.subrange(hl.1, hl.1 + n), ..r }, hl.1 + n))
                } else {
                    Err(Failure::IOError)
                }
            },
        },
    }
}

/// Relies on `std::io::Error::from`: an error of the kind `InvalidData`.
#[verifier::external_body]
fn invalid_data() -> std::io::Error {
    std::io::Error::from(std::io::ErrorKind::InvalidData)
}

/// Relies on `std::io::Error::from`: an error of the kind `UnexpectedEof`.
#[verifier::external_body]
pub(crate) fn unexpected_eof() -> std::io::Error {
    std::io::Error::from(std::io::ErrorKind::UnexpectedEof)
}

/// The head lines of `b`, and where the body starts.
pub fn split_head(b: &Vec<u8>) -> (r: Option<(Vec<Vec<u8>>, usize)>)
    ensures
        r.is_some() == (head_lines(b@, 0) is Some),
        r.is_some() ==> views(r.unwrap().0@) == head_lines(b@, 0).unwrap().0 && r.unwrap().1 as int
            == head_lines(b@, 0).unwrap().1,
        r.is_some() ==> r.unwrap().1 <= b@.len(),
{
    let n = b.len();
    let crlf = [13u8, 10u8];
    assert(crlf@ =~= seq![13u8, 10u8]);
    let mut lines: Vec<Vec<u8>> = Vec::new();
    let mut pos: usize = 0;
    loop
        invariant
            pos <= b@.len(),
            n == b@.len(),
            crlf@ == seq![13u8, 10u8],
            head_lines(b@, 0) == (match head_lines(b@, pos as int) {
                Some(r) => Some((views(lines@) + r.0, r.1)),
                None => None,
            }),
        decreases b@.len() - pos,
    {
        match find_pattern(b, pos, &crlf) {
            None => {
                return None;
            },
            Some(i) => {
                if i == pos {
                    proof {
                        assert(views(lines@) + Seq::<Seq<u8>>::empty() =~= views(lines@));
                    }
                    return Some((lines, i + 2));
                }
                let line = slice_of(b, pos, i);
                let ghost before = views(lines@);
                lines.push(line);
                proof {
                    assert(views(lines@) =~= before.push(line@));
                    match head_lines(b@, i + 2) {
                        Some(r) => {
                            assert(views(lines@) + r.0 =~= before + (seq![line@] + r.0));
                        },
                        None => {},
                    }
                }
                pos = i + 2;
            },
        }
    }
}

fn request_line_parts(line: &Vec<u8>) -> (r: Result<(Method, URL), Error>)
    ensures
        r is Ok <==> request_line(line@) is Ok,
        r is Ok ==> r->Ok_0.0 == request_line(line@)->Ok_0.0 && r->Ok_0.1@ == request_line(
            line@,
        )->Ok_0.1,
        r is Err ==> fails_with(r->Err_0, request_line(line@)->Err_0),
{
    let toks = split_bytes(line, 32);
    if toks.len() < 2 || !all_ascii(&toks[0]) {
        return Err(Error::RequestParse);
    }
    proof {
        assert(views(toks@)[0] == toks@[0]@);
        assert(views(toks@)[1] == toks@[1]@);
    }
    let name = ascii_string(slice_of(&toks[0], 0, toks[0].len()));
    proof {
        assert(toks@[0]@.subrange(0, toks@[0]@.len() as int) =~= toks@[0]@);
    }
    let verb = match Method::try_from(name.as_str()) {
        Ok(m) => m,
        Err(_) => {
            return Err(Error::RequestParse);
        },
    };
    if !all_ascii(&toks[1]) {
        return Err(Error::URLParse);
    }
    let target = ascii_string(slice_of(&toks[1], 0, toks[1].len()));
    proof {
        assert(toks@[1]@.subrange(0, toks@[1]@.len() as int) =~= toks@[1]@);
    }
    match URL::from_string(target.as_str()) {
        Ok(u) => Ok((verb, u)),
        Err(_) => Err(Error::URLParse),
    }
}

fn all_ascii(b: &Vec<u8>) -> (r: bool)
    ensures
        r == ascii_bytes(b@),
{
    let mut i: usize = 0;
    while i < b.len()
        invariant
            0 <= i <= b@.len(),
            forall|k: int| 0 <= k < i ==> #[trigger] b@[k] < 128,
        decreases b@.len() - i,
    {
        if b[i] >= 128 {
            return false;
        }
        i = i + 1;
    }
    true
}

fn header_line_parts(line: &Vec<u8>) -> (r: Result<(String, String), Error>)
    ensures
        r is Ok <==> header_line(line@) is Ok,
        r is Ok ==> (r->Ok_0.0@, r->Ok_0.1@) == header_line(line@)->Ok_0,
        r is Err ==> fails_with(r->Err_0, header_line(line@)->Err_0),
{
    let colon = [58u8];
    assert(colon@ =~= seq![58u8]);
    match find_pattern(line, 0, &colon) {
        None => Err(Error::InvalidHeader),
        Some(i) => {
            let n = line.len();
            let k = slice_of(line, 0, i);
            let v = slice_of(line, i + 1, n);
            match (string_from_utf8(k), string_from_utf8(v)) {
                (Some(ks), Some(vs)) => Ok((ks, trim_str(vs.as_str()))),
                _ => Err(Error::IOError(invalid_data())),
            }
        },
    }
}

fn header_entries(ls: &Vec<Vec<u8>>, from: usize) -> (r: Result<Header, Error>)
    requires
        from <= ls@.len(),
    ensures
        r is Ok <==> header_lines(views(ls@).subrange(from as int, ls@.len() as int)) is Ok,
        r is Ok ==> r->Ok_0@ == header_lines(
            views(ls@).subrange(from as int, ls@.len() as int),
        )->Ok_0,
        r is Err ==> fails_with(
            r->Err_0,
            header_lines(views(ls@).subrange(from as int, ls@.len() as int))->Err_0,
        ),
{
    let ghost all = views(ls@).subrange(from as int, ls@.len() as int);
    let mut h = Header::new();
    let mut i: usize = from;
    while i < ls.len()
        invariant
            from <= i <= ls@.len(),
            all == views(ls@).subrange(from as int, ls@.len() as int),
            header_lines(views(ls@).subrange(from as int, i as int)) == Ok::<
                Seq<(Seq<char>, Seq<char>)>,
                Failure,
            >(h@),
        decreases ls@.len() - i,
    {
        proof {
            assert(views(ls@).subrange(from as int, i + 1).drop_last() =~= views(ls@).subrange(
                from as int,
                i as int,
            ));
            assert(views(ls@).subrange(from as int, i + 1).last() == ls@[i as int]@);
        }
        match header_line_parts(&ls[i]) {
            Ok((k, v)) => {
                h.add(k.as_str(), v.as_str());
            },
            Err(e) => {
                proof {
                    lemma_header_lines_err(views(ls@), from as int, (i + 1) as int);
                }
                return Err(e);
            },
        }
        i = i + 1;
    }
    proof {
        assert(views(ls@).subrange(from as int, i as int) =~= all);
    }
    Ok(h)
}

proof fn lemma_header_lines_err(ls: Seq<Seq<u8>>, from: int, k: int)
    requires
        0 <= from <= k <= ls.len(),
        header_lines(ls.subrange(from, k)) is Err,
    ensures
        header_lines(ls.subrange(from, ls.len() as int)) == header_lines(ls.subrange(from, k)),
    decreases ls.len() - k,
{
    if k < ls.len() {
        assert(ls.subrange(from, k + 1).drop_last() =~= ls.subrange(from, k));
        lemma_header_lines_err(ls, from, k + 1);
    }
}

fn content_length_of(h: &Header) -> (r: Result<usize, Error>)
    ensures
        r is Ok <==> content_length(h@) is Ok,
        r is Ok ==> r->Ok_0 as nat == content_length(h@)->Ok_0,
        r is Err ==> fails_with(r->Err_0, content_length(h@)->Err_0),
{
    proof {
        reveal_strlit("Content-Length");
        assert("Content-Length"@ =~= content_length_key());
    }
    match h.get_first("Content-Length") {
        None => Ok(0),
        Some(v) => {
            let b = utf8_bytes(v);
            match parse_bounded(&b, usize::MAX as u64) {
                Some(n) => Ok(n as usize),
                None => Err(Error::InvalidHeader),
            }
        },
    }
}

/// An HTTP request: method, target URL, header and body.
#[derive(Debug, Clone)]
pub struct Request {
    verb: Method,
    url: URL,
    header: Header,
    body: Vec<u8>,
}

impl View for Request {
    type V = RequestView;

    closed spec fn view(&self) -> RequestView {
        RequestView { verb: self.verb, url: self.url@, header: self.header@, body: self.body@ }
    }
}

impl Request {
    /// The request of the head lines `lines`, each without its CR LF, with
    /// an empty body.
    pub fn from_head(lines: &Vec<Vec<u8>>) -> (r: Result<Request, Error>)
        ensures
            r is Ok <==> parse_head(views(lines@)) is Ok,
            r is Ok ==> r->Ok_0@ == parse_head(views(lines@))->Ok_0,
            r is Err ==> fails_with(r->Err_0, parse_head(views(lines@))->Err_0),
    {
        if lines.len() == 0 {
            return Err(Error::RequestParse);
        }
        proof {
            assert(views(lines@)[0] == lines@[0]@);
            assert(views(lines@).drop_first() =~= views(lines@).subrange(1, lines@.len() as int));
        }
        let (verb, url) = request_line_parts(&lines[0])?;
        let header = header_entries(lines, 1)?;
        let _ = content_length_of(&header)?;
        let r = Request { verb, url, header, body: Vec::new() };
        proof {
            assert(r@.body =~= Seq::<u8>::empty());
        }
        Ok(r)
    }

    /// A copy of the request.
    pub fn duplicate(&self) -> (r: Request)
        ensures
            r@ == self@,
    {
        let body = slice_of(&self.body, 0, self.body.len());
        proof {
            assert(body@ =~= self.body@);
        }
        Request {
            verb: self.verb,
            url: self.url.duplicate(),
            header: self.header.duplicate(),
            body,
        }
    }

    /// The body length the header announces.
    pub fn content_length(&self) -> (r: Result<usize, Error>)
        ensures
            r is Ok <==> content_length(self@.header) is Ok,
            r is Ok ==> r->Ok_0 as nat == content_length(self@.header)->Ok_0,
            r is Err ==> r->Err_0 is InvalidHeader,
    {
        content_length_of(&self.header)
    }

    /// The request with `body` as its body.
    pub fn with_body(self, body: Vec<u8>) -> (r: Request)
        ensures
            r@ == (RequestView { body: body@, ..self@ }),
    {
        Request { body, ..self }
    }

    /// The request at the start of `bytes` and the number of bytes it takes.
    pub fn decode(bytes: &Vec<u8>) -> (r: Result<(Request, usize), Error>)
        ensures
            r is Ok <==> decode_request(bytes@) is Ok,
            r is Ok ==> r->Ok_0.0@ == decode_request(bytes@)->Ok_0.0 && r->Ok_0.1 as int
                == decode_request(bytes@)->Ok_0.1,
            r is Err ==> fails_with(r->Err_0, decode_request(bytes@)->Err_0),
    {
        let (lines, start) = match split_head(bytes) {
            None => {
                return Err(Error::ConnectionClosed);
            },
            Some(p) => p,
        };
        let req = Request::from_head(&lines)?;
        let n = match req.content_length() {
            Ok(n) => n,
            Err(e) => {
                return Err(e);
            },
        };
        if n > bytes.len() - start {
            return Err(Error::IOError(unexpected_eof()));
        }
        let body = slice_of(bytes, start, start + n);
        Ok((req.with_body(body), start + n))
    }

    pub fn verb(&self) -> (r: Method)
        ensures
            r == self@.verb,
    {
        self.verb
    }

    pub fn url(&self) -> (r: &URL)
        ensures
            r@ == self@.url,
    {
        &self.url
    }

    /// Value of the first header entry whose key is `key`.
    pub fn header(&self, key: &str) -> (r: Option<&str>)
        ensures
            r.is_some() == (first_value(self@.header, key@) is Some),
            r.is_some() ==> r.unwrap()@ == first_value(self@.header, key@).unwrap(),
    {
        self.header.get_first(key)
    }

    /// The whole header.
    pub fn headers(&self) -> (r: &Header)
        ensures
            r@ == self@.header,
    {
        &self.header
    }

    pub fn body(&self) -> (r: &Vec<u8>)
        ensures
            r@ == self@.body,
    {
        &self.body
    }
}

proof fn lemma_encode_concat(a: Seq<char>, b: Seq<char>)
    ensures
        encode_utf8(a + b) == encode_utf8(a) + encode_utf8(b),
    decreases a.len(),
{
    if a.len() > 0 {
        assert((a + b).drop_first() =~= a.drop_first() + b);
        lemma_encode_concat(a.drop_first(), b);
        assert((a + b)[0] == a[0]);
        assert(encode_utf8(a + b) =~= encode_utf8(a) + encode_utf8(b));
    } else {
        assert(a + b =~= b);
    }
}

/// The bytes that encode one character: the character itself where it is
/// ASCII, bytes of 128 and above where it is not.
proof fn lemma_scalar_bytes(c: char)
    ensures
        encode_scalar(c as u32).len() >= 1,
        (c as u32) < 128 ==> encode_scalar(c as u32) == seq![(c as u32) as u8],
        (c as u32) >= 128 ==> forall|j: int|
            0 <= j < encode_scalar(c as u32).len() ==> #[trigger] encode_scalar(c as u32)[j] >= 128,
{
    let v = c as u32;
    assert(forall|x: u8| #[trigger] (0x80u8 | x) >= 128) by (bit_vector);
    assert(forall|x: u8| #[trigger] (0xC0u8 | x) >= 128) by (bit_vector);
    assert(forall|x: u8| #[trigger] (0xE0u8 | x) >= 128) by (bit_vector);
    assert(forall|x: u8| #[trigger] (0xF0u8 | x) >= 128) by (bit_vector);
    if v < 128 {
        assert((v & 0x7F) == v) by (bit_vector)
            requires
                v < 128,
        ;
    }
}

/// An ASCII byte that no character of `s` equals is no byte of its encoding.
proof fn lemma_utf8_byte_absent(s: Seq<char>, b: u8)
    requires
        b < 128,
        forall|i: int| 0 <= i < s.len() ==> (#[trigger] s[i]) as u32 != b as u32,
    ensures
        forall|j: int| 0 <= j < encode_utf8(s).len() ==> #[trigger] encode_utf8(s)[j] != b,
    decreases s.len(),
{
    if s.len() > 0 {
        let t = s.drop_first();
        assert forall|i: int| 0 <= i < t.len() implies (#[trigger] t[i]) as u32 != b as u32 by {
            assert(t[i] == s[i + 1]);
        }
        lemma_utf8_byte_absent(t, b);
        lemma_scalar_bytes(s[0]);
        let e0 = encode_scalar(s[0] as u32);
        let e = encode_utf8(s);
        assert(e == e0 + encode_utf8(t));
        assert forall|j: int| 0 <= j < e.len() implies #[trigger] e[j] != b by {
            if j < e0.len() {
                assert(e[j] == e0[j]);
            } else {
                assert(e[j] == encode_utf8(t)[j - e0.len()]);
            }
        }
    }
}

/// A header value that neither starts nor ends with whitespace.
pub open spec fn trimmed(v: Seq<char>) -> bool {
    v.len() == 0 || (!white_space(v[0]) && !white_space(v.last()))
}

/// A header entry that reads back as it was written: no `:` in the key, no
/// carriage return in either part, the value trimmed.
pub open spec fn plain_entry(e: (Seq<char>, Seq<char>)) -> bool {
    &&& forall|i: int| 0 <= i < e.0.len() ==> (#[trigger] e.0[i] as u32) != 58 && (e.0[i] as u32) != 13
    &&& forall|i: int| 0 <= i < e.1.len() ==> (#[trigger] e.1[i] as u32) != 13
    &&& trimmed(e.1)
}

/// The line of a header entry, without its CR LF.
pub open spec fn entry_line(e: (Seq<char>, Seq<char>)) -> Seq<u8> {
    encode_utf8(e.0) + seq![58u8, 32u8] + encode_utf8(e.1)
}

/// Lines, each followed by CR LF.
pub open spec fn lines_bytes(ls: Seq<Seq<u8>>) -> Seq<u8>
    decreases ls.len(),
{
    if ls.len() == 0 {
        seq![]
    } else {
        lines_bytes(ls.drop_last()) + ls.last() + seq![13u8, 10u8]
    }
}

pub open spec fn entry_lines(h: Seq<(Seq<char>, Seq<char>)>) -> Seq<Seq<u8>> {
    h.map_values(|e: (Seq<char>, Seq<char>)| entry_line(e))
}

proof fn lemma_header_bytes_lines(h: Seq<(Seq<char>, Seq<char>)>)
    ensures
        header_bytes(h) == lines_bytes(entry_lines(h)),
    decreases h.len(),
{
    if h.len() > 0 {
        lemma_header_bytes_lines(h.drop_last());
        assert(entry_lines(h).drop_last() =~= entry_lines(h.drop_last()));
        assert(header_bytes(h) =~= lines_bytes(entry_lines(h)));
    }
}

proof fn lemma_lines_front(ls: Seq<Seq<u8>>)
    requires
        ls.len() > 0,
    ensures
        lines_bytes(ls) == ls[0] + seq![13u8, 10u8] + lines_bytes(ls.drop_first()),
    decreases ls.len(),
{
    if ls.len() > 1 {
        lemma_lines_front(ls.drop_last());
        assert(ls.drop_last().drop_first() =~= ls.drop_first().drop_last());
        assert(lines_bytes(ls) =~= ls[0] + seq![13u8, 10u8] + lines_bytes(ls.drop_first()));
    } else {
        assert(lines_bytes(ls.drop_last()) == Seq::<u8>::empty());
        assert(lines_bytes(ls.drop_first()) == Seq::<u8>::empty());
        assert(ls.last() == ls[0]);
        assert(lines_bytes(ls) =~= ls[0] + seq![13u8, 10u8] + lines_bytes(ls.drop_first()));
    }
}

/// The first occurrence of the byte `d` from `i` on is at `j` where none
/// comes before it.
proof fn lemma_find_byte(s: Seq<u8>, d: u8, i: int, j: int)
    requires
        0 <= i <= j < s.len(),
        s[j] == d,
        forall|k: int| i <= k < j ==> #[trigger] s[k] != d,
    ensures
        find_from(s, seq![d], i) == Some(j),
    decreases j - i,
{
    if i < j {
        assert(s.subrange(i, i + 1)[0] == s[i]);
        lemma_find_byte(s, d, i + 1, j);
    } else {
        assert(s.subrange(i, i + 1) =~= seq![d]);
    }
}

/// The first CR LF from `i` on is at `j` where no CR comes before it.
proof fn lemma_find_crlf(s: Seq<u8>, i: int, j: int)
    requires
        0 <= i <= j,
        j + 2 <= s.len(),
        s[j] == 13 && s[j + 1] == 10,
        forall|k: int| i <= k < j ==> #[trigger] s[k] != 13,
    ensures
        find_from(s, seq![13u8, 10u8], i) == Some(j),
    decreases j - i,
{
    if i < j {
        assert(s.subrange(i, i + 2)[0] == s[i]);
        lemma_find_crlf(s, i + 1, j);
    } else {
        assert(s.subrange(i, i + 2) =~= seq![13u8, 10u8]);
    }
}

/// Lines with no CR, none empty, followed by an empty line, read back as the
/// head lines.
proof fn lemma_head_lines(b: Seq<u8>, pos: int, ls: Seq<Seq<u8>>)
    requires
        0 <= pos,
        pos + lines_bytes(ls).len() + 2 <= b.len(),
        b.subrange(pos, pos + lines_bytes(ls).len() + 2) == lines_bytes(ls) + seq![13u8, 10u8],
        forall|i: int| 0 <= i < ls.len() ==> (#[trigger] ls[i]).len() > 0,
        forall|i: int, k: int| 0 <= i < ls.len() && 0 <= k < ls[i].len() ==> #[trigger] ls[i][k] != 13,
    ensures
        head_lines(b, pos) == Some((ls, pos + lines_bytes(ls).len() + 2)),
    decreases ls.len(),
{
    let lb = lines_bytes(ls);
    let w = b.subrange(pos, pos + lb.len() + 2);
    if ls.len() == 0 {
        assert(w =~= seq![13u8, 10u8]);
        assert(b[pos] == w[0] && b[pos + 1] == w[1]);
        lemma_find_crlf(b, pos, pos);
    } else {
        lemma_lines_front(ls);
        let l0 = ls[0];
        let rest = ls.drop_first();
        let n0 = l0.len() as int;
        assert(w =~= l0 + seq![13u8, 10u8] + (lines_bytes(rest) + seq![13u8, 10u8]));
        assert forall|k: int| pos <= k < pos + n0 implies #[trigger] b[k] != 13 by {
            assert(b[k] == w[k - pos]);
            assert(w[k - pos] == l0[k - pos]);
            assert(ls[0][k - pos] != 13);
        }
        assert(b[pos + n0] == w[n0]);
        assert(b[pos + n0 + 1] == w[n0 + 1]);
        lemma_find_crlf(b, pos, pos + n0);
        let after = pos + n0 + 2;
        assert(b.subrange(after, after + lines_bytes(rest).len() + 2) =~= lines_bytes(rest) + seq![
            13u8,
            10u8,
        ]) by {
            assert forall|k: int| 0 <= k < lines_bytes(rest).len() + 2 implies b.subrange(
                after,
                after + lines_bytes(rest).len() + 2,
            )[k] == (lines_bytes(rest) + seq![13u8, 10u8])[k] by {
                assert(b[after + k] == w[n0 + 2 + k]);
            }
        }
        assert forall|i: int| 0 <= i < rest.len() implies (#[trigger] rest[i]).len() > 0 by {
            assert(rest[i] == ls[i + 1]);
        }
        assert forall|i: int, k: int| 0 <= i < rest.len() && 0 <= k < rest[i].len() implies #[trigger] rest[i][k]
            != 13 by {
            assert(rest[i] == ls[i + 1]);
        }
        lemma_head_lines(b, after, rest);
        assert(b.subrange(pos, pos + n0) =~= l0) by {
            assert forall|k: int| 0 <= k < n0 implies b.subrange(pos, pos + n0)[k] == l0[k] by {
                assert(b[pos + k] == w[k]);
            }
        }
        assert(seq![l0] + rest =~= ls);
    }
}

proof fn lemma_trim_plain(v: Seq<char>)
    requires
        trimmed(v),
    ensures
        trim(seq![' '] + v) == v,
{
    let s = seq![' '] + v;
    assert(s.drop_first() =~= v);
    assert(white_space(' '));
    assert(crate::text::trim_start(s) == crate::text::trim_start(v));
}

proof fn lemma_entry_line(e: (Seq<char>, Seq<char>))
    requires
        plain_entry(e),
    ensures
        header_line(entry_line(e)) == Ok::<(Seq<char>, Seq<char>), Failure>(e),
        entry_line(e).len() > 0,
        forall|k: int| 0 <= k < entry_line(e).len() ==> #[trigger] entry_line(e)[k] != 13,
{
    let ek = encode_utf8(e.0);
    let ev = encode_utf8(e.1);
    let line = entry_line(e);
    lemma_utf8_byte_absent(e.0, 58u8);
    lemma_utf8_byte_absent(e.0, 13u8);
    lemma_utf8_byte_absent(e.1, 13u8);
    assert(line == ek + seq![58u8, 32u8] + ev);
    assert forall|k: int| 0 <= k < ek.len() implies #[trigger] line[k] != 58u8 by {
        assert(line[k] == ek[k]);
    }
    lemma_find_byte(line, 58u8, 0, ek.len() as int);
    assert(line.subrange(0, ek.len() as int) =~= ek);
    assert(line.subrange(ek.len() as int + 1, line.len() as int) =~= seq![32u8] + ev);
    let sv = seq![' '] + e.1;
    lemma_scalar_bytes(' ');
    assert(encode_utf8(seq![' ']) =~= seq![32u8]) by {
        let sp = seq![' '];
        assert(sp.drop_first() =~= Seq::<char>::empty());
        assert(sp[0] == ' ');
        assert((' ' as u32) == 32);
        assert(encode_scalar(' ' as u32) == seq![32u8]);
        assert(encode_utf8(sp) == encode_scalar(sp[0] as u32) + encode_utf8(sp.drop_first()));
        assert(encode_utf8(sp.drop_first()) == Seq::<u8>::empty());
    }
    lemma_encode_concat(seq![' '], e.1);
    lemma_trim_plain(e.1);
    encode_utf8_valid_utf8(e.0);
    encode_utf8_valid_utf8(sv);
    encode_utf8_decode_utf8(e.0);
    encode_utf8_decode_utf8(sv);
    assert forall|k: int| 0 <= k < line.len() implies #[trigger] line[k] != 13 by {
        if k < ek.len() {
            assert(line[k] == ek[k]);
        } else if k >= ek.len() + 2 {
            assert(line[k] == ev[k - ek.len() - 2]);
        }
    }
}

proof fn lemma_header_lines_plain(h: Seq<(Seq<char>, Seq<char>)>)
    requires
        forall|i: int| 0 <= i < h.len() ==> plain_entry(#[trigger] h[i]),
    ensures
        header_lines(entry_lines(h)) == Ok::<Seq<(Seq<char>, Seq<char>)>, Failure>(h),
    decreases h.len(),
{
    if h.len() > 0 {
        assert(entry_lines(h).drop_last() =~= entry_lines(h.drop_last()));
        assert forall|i: int| 0 <= i < h.drop_last().len() implies plain_entry(
            #[trigger] h.drop_last()[i],
        ) by {
            assert(h.drop_last()[i] == h[i]);
        }
        lemma_header_lines_plain(h.drop_last());
        assert(plain_entry(h[h.len() - 1]));
        lemma_entry_line(h.last());
        assert(entry_lines(h).last() == entry_line(h.last()));
        assert(entry_lines(h).len() > 0);
        assert(header_lines(entry_lines(h).drop_last()) == Ok::<
            Seq<(Seq<char>, Seq<char>)>,
            Failure,
        >(h.drop_last()));
        assert(header_line(entry_lines(h).last()) == Ok::<(Seq<char>, Seq<char>), Failure>(
            h.last(),
        ));
        assert(h.drop_last().push(h.last()) =~= h);
    } else {
        assert(entry_lines(h).len() == 0);
        assert(h =~= Seq::<(Seq<char>, Seq<char>)>::empty());
    }
}

proof fn lemma_decimal_digits(n: nat)
    ensures
        decimal(n).len() > 0,
        forall|i: int| 0 <= i < decimal(n).len() ==> crate::text::is_digit(#[trigger] decimal(n)[i]),
        crate::text::digits_value(decimal(n)) == n,
    decreases n,
{
    if n >= 10 {
        lemma_decimal_digits(n / 10);
        let d = decimal(n);
        assert(d.drop_last() =~= decimal(n / 10));
        assert((n / 10) * 10 + n % 10 == n) by (nonlinear_arith);
        assert(d.last() == (48 + n % 10) as u8);
        assert(d.last() - 48 == n % 10);
        assert(crate::text::digits_value(d) == crate::text::digits_value(decimal(n / 10)) * 10 + (
        d.last() - 48) as nat);
        assert forall|i: int| 0 <= i < d.len() implies crate::text::is_digit(#[trigger] d[i]) by {
            if i < d.len() - 1 {
                assert(d[i] == decimal(n / 10)[i]);
            }
        }
    } else {
        let d = decimal(n);
        assert(d.drop_last() =~= Seq::<u8>::empty());
        assert(d.last() == (48 + n) as u8);
        assert(crate::text::digits_value(d) == crate::text::digits_value(d.drop_last()) * 10 + (
        d.last() - 48) as nat);
    }
}

proof fn lemma_parse_decimal(n: nat)
    ensures
        parse_unsigned(decimal(n)) == Some(n),
        ascii_bytes(decimal(n)),
{
    lemma_decimal_digits(n);
    assert(crate::text::unsigned_digits(decimal(n)) == decimal(n));
    assert forall|i: int| 0 <= i < decimal(n).len() implies #[trigger] decimal(n)[i] < 128 by {
        assert(crate::text::is_digit(decimal(n)[i]));
    }
}

/// The request line `method target tail`.
pub open spec fn first_line(method: Seq<u8>, target: Seq<u8>, tail: Seq<u8>) -> Seq<u8> {
    method + seq![32u8] + target + seq![32u8] + tail
}

/// A request whose line is `method target tail`, whose header lines are those
/// of `r`'s header, and whose body is `r`'s body.
pub open spec fn request_text(
    method: Seq<u8>,
    target: Seq<u8>,
    tail: Seq<u8>,
    r: ResponseView,
) -> Seq<u8> {
    first_line(method, target, tail) + seq![13u8, 10u8] + header_bytes(r.header) + seq![
        13u8,
        10u8,
    ] + r.body
}

/// A method and a target that can stand in a request line.
pub open spec fn line_parts(method: Seq<u8>, target: Seq<u8>) -> bool {
    &&& ascii_bytes(method)
    &&& method_named(upper_all(bytes_as_chars(method))) is Some
    &&& ascii_bytes(target)
    &&& url_of(bytes_as_chars(target)) is Some
    &&& forall|i: int| 0 <= i < method.len() ==> #[trigger] method[i] != 32 && method[i] != 13
    &&& forall|i: int| 0 <= i < target.len() ==> #[trigger] target[i] != 32 && target[i] != 13
}

proof fn lemma_first_line(method: Seq<u8>, target: Seq<u8>, tail: Seq<u8>)
    requires
        line_parts(method, target),
        forall|i: int| 0 <= i < tail.len() ==> #[trigger] tail[i] != 13,
    ensures
        first_line(method, target, tail).len() > 0,
        forall|k: int|
            0 <= k < first_line(method, target, tail).len() ==> #[trigger] first_line(
                method,
                target,
                tail,
            )[k] != 13,
        request_line(first_line(method, target, tail)) == Ok::<(Method, UrlView), Failure>(
            (
                method_named(upper_all(bytes_as_chars(method))).unwrap(),
                url_of(bytes_as_chars(target)).unwrap(),
            ),
        ),
{
    let line0 = first_line(method, target, tail);
    let m = method.len() as int;
    let t = target.len() as int;
    assert forall|k: int| 0 <= k < line0.len() implies #[trigger] line0[k] != 13 by {
        if k < m {
            assert(line0[k] == method[k]);
        } else if m < k < m + 1 + t {
            assert(line0[k] == target[k - m - 1]);
        } else if k >= m + t + 2 {
            assert(line0[k] == tail[k - m - t - 2]);
        }
    }
    assert forall|k: int| 0 <= k < m implies #[trigger] line0[k] != 32u8 by {
        assert(line0[k] == method[k]);
    }
    lemma_find_byte(line0, 32u8, 0, m);
    let rest = line0.subrange(m + 1, line0.len() as int);
    assert(line0.subrange(0, m) =~= method);
    assert(rest =~= target + seq![32u8] + tail);
    assert forall|k: int| 0 <= k < t implies #[trigger] rest[k] != 32u8 by {
        assert(rest[k] == target[k]);
    }
    lemma_find_byte(rest, 32u8, 0, t);
    assert(rest.subrange(0, t) =~= target);
    let toks = split_all(line0, 32u8);
    assert(crate::text::find(line0, seq![32u8]) == Some(m));
    assert(toks == seq![line0.subrange(0, m)] + split_all(rest, 32u8));
    assert(crate::text::find(rest, seq![32u8]) == Some(t));
    assert(split_all(rest, 32u8) == seq![rest.subrange(0, t)] + split_all(
        rest.subrange(t + 1, rest.len() as int),
        32u8,
    ));
    assert(toks[0] == method);
    assert(toks.len() >= 2);
    assert(toks[1] == target);
}

/// Decoding a request whose line is `method target tail` (`tail` such as
/// `HTTP/1.1`) and whose header lines and body are those a response writes
/// reproduces the response's header entries, in order, and its body, and
/// takes all of the text. The response's first `Content-Length` gives its
/// body's length, as every builder keeps it; its entries read back as
/// written.
#[verifier::rlimit(50)]
pub proof fn lemma_request_round_trip(
    method: Seq<u8>,
    target: Seq<u8>,
    tail: Seq<u8>,
    r: ResponseView,
)
    requires
        line_parts(method, target),
        forall|i: int| 0 <= i < tail.len() ==> #[trigger] tail[i] != 13,
        first_value(r.header, content_length_key()) == Some(bytes_as_chars(decimal(r.body.len()))),
        r.body.len() <= usize::MAX,
        forall|i: int| 0 <= i < r.header.len() ==> plain_entry(#[trigger] r.header[i]),
    ensures
        decode_request(request_text(method, target, tail, r)) == Ok::<(RequestView, int), Failure>(
            (
                RequestView {
                    verb: method_named(upper_all(bytes_as_chars(method))).unwrap(),
                    url: url_of(bytes_as_chars(target)).unwrap(),
                    header: r.header,
                    body: r.body,
                },
                request_text(method, target, tail, r).len() as int,
            ),
        ),
{
    let b = request_text(method, target, tail, r);
    let line0 = first_line(method, target, tail);
    lemma_first_line(method, target, tail);
    let ls = entry_lines(r.header);
    lemma_header_bytes_lines(r.header);
    let all = seq![line0] + ls;
    lemma_lines_front(all);
    assert(all.drop_first() =~= ls);
    assert(b =~= lines_bytes(all) + seq![13u8, 10u8] + r.body);
    assert forall|i: int| 0 <= i < all.len() implies (#[trigger] all[i]).len() > 0 by {
        if i > 0 {
            assert(all[i] == ls[i - 1]);
            lemma_entry_line(r.header[i - 1]);
        }
    }
    assert forall|i: int, k: int| 0 <= i < all.len() && 0 <= k < all[i].len() implies #[trigger] all[i][k]
        != 13 by {
        if i > 0 {
            assert(all[i] == ls[i - 1]);
            lemma_entry_line(r.header[i - 1]);
        }
    }
    let end = lines_bytes(all).len() + 2;
    assert(b.subrange(0, end as int) =~= lines_bytes(all) + seq![13u8, 10u8]);
    lemma_head_lines(b, 0, all);
    lemma_header_lines_plain(r.header);
    lemma_parse_decimal(r.body.len());
    lemma_ascii_round_trip(decimal(r.body.len()));
    assert(b.subrange(end as int, end as int + r.body.len()) =~= r.body);
}

/// The same for the wire form of the response itself behind `method target`:
/// its status line `HTTP/1.1 <code>` ends the request line.
pub proof fn lemma_http_round_trip(method: Seq<u8>, target: Seq<u8>, r: ResponseView)
    requires
        line_parts(method, target),
        first_value(r.header, content_length_key()) == Some(bytes_as_chars(decimal(r.body.len()))),
        r.body.len() <= usize::MAX,
        forall|i: int| 0 <= i < r.header.len() ==> plain_entry(#[trigger] r.header[i]),
    ensures
        decode_request(method + seq![32u8] + target + seq![32u8] + response_bytes(r)) == Ok::<
            (RequestView, int),
            Failure,
        >(
            (
                RequestView {
                    verb: method_named(upper_all(bytes_as_chars(method))).unwrap(),
                    url: url_of(bytes_as_chars(target)).unwrap(),
                    header: r.header,
                    body: r.body,
                },
                (method + seq![32u8] + target + seq![32u8] + response_bytes(r)).len() as int,
            ),
        ),
{
    let tail = status_prefix() + decimal(r.code);
    lemma_decimal_digits(r.code);
    assert forall|i: int| 0 <= i < tail.len() implies #[trigger] tail[i] != 13 by {
        if i >= 9 {
            assert(tail[i] == decimal(r.code)[i - 9]);
            assert(crate::text::is_digit(decimal(r.code)[i - 9]));
        }
    }
    assert(method + seq![32u8] + target + seq![32u8] + response_bytes(r) =~= request_text(
        method,
        target,
        tail,
        r,
    ));
    lemma_request_round_trip(method, target, tail, r);
}

} // verus!
