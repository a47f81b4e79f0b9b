//! Cookies as sent in a `Set-Cookie` header.
use vstd::prelude::*;

verus! {

/// Seconds since the Unix epoch of 0000-01-01T00:00:00Z.
pub const EARLIEST_EXPIRY: i64 = -62167219200;

/// Seconds since the Unix epoch of 9999-12-31T23:59:59Z.
pub const LATEST_EXPIRY: i64 = 253402300799;

/// The RFC 2822 text of the UTC time `secs` seconds after the Unix epoch.
pub uninterp spec fn rfc2822_of(secs: int) -> Seq<char>;

/// Relies on chrono: `DateTime::from_timestamp(secs, 0)` is the UTC time
/// `secs` seconds after the epoch, and its `to_rfc2822` writes it; both
/// succeed for the years 0 through 9999.
#[verifier::external_body]
fn rfc2822(secs: i64) -> (r: String)
    requires
        EARLIEST_EXPIRY <= secs <= LATEST_EXPIRY,
    ensures
        r@ == rfc2822_of(secs as int),
{
    chrono::DateTime::from_timestamp(secs, 0).map(|d| d.to_rfc2822()).unwrap_or_default()
}

/// A cookie: name, value, an optional expiry in seconds since the Unix
/// epoch, and its `HttpOnly` and `Secure` flags.
#[derive(Debug, Clone)]
pub struct Cookie {
    name: String,
    value: String,
    expiration: Option<i64>,
    http_only: bool,
    secure: bool,
}

/// A cookie as a value.
pub struct CookieView {
    pub name: Seq<char>,
    pub value: Seq<char>,
    pub expiration: Option<i64>,
    pub http_only: bool,
    pub secure: bool,
}

impl View for Cookie {
    type V = CookieView;

    closed spec fn view(&self) -> CookieView {
        CookieView {
            name: self.name@,
            value: self.value@,
            expiration: self.expiration,
            http_only: self.http_only,
            secure: self.secure,
        }
    }
}

/// The expiry lies in the years 0 through 9999.
pub open spec fn expiry_ok(c: CookieView) -> bool {
    match c.expiration {
        Some(s) => EARLIEST_EXPIRY <= s <= LATEST_EXPIRY,
        None => true,
    }
}

/// `name=value`, then `; Expire=<date>`, `; HttpOnly` and `; Secure` as set.
pub open spec fn cookie_text(c: CookieView) -> Seq<char> {
    text_with(
        c,
        match c.expiration {
            Some(s) => Some(rfc2822_of(s as int)),
            None => None,
        },
    )
}

impl Cookie {
    /// A cookie with no expiry and neither flag.
    pub fn new(name: &str, value: &str) -> (r: Self)
        ensures
            r@ == (CookieView {
                name: name@,
                value: value@,
                expiration: None,
                http_only: false,
                secure: false,
            }),
    {
        Cookie {
            name: String::from_str(name),
            value: String::from_str(value),
            expiration: None,
            http_only: false,
            secure: false,
        }
    }

    /// The cookie expiring `expiration` seconds after the Unix epoch.
    pub fn with_expiration(self, expiration: i64) -> (r: Self)
        requires
            EARLIEST_EXPIRY <= expiration <= LATEST_EXPIRY,
        ensures
            r@ == (CookieView { expiration: Some(expiration), ..self@ }),
    {
        Cookie { expiration: Some(expiration), ..self }
    }

    pub fn with_http_only(self, http_only: bool) -> (r: Self)
        ensures
            r@ == (CookieView { http_only, ..self@ }),
    {
        Cookie { http_only, ..self }
    }

    pub fn with_secure(self, secure: bool) -> (r: Self)
        ensures
            r@ == (CookieView { secure, ..self@ }),
    {
        Cookie { secure, ..self }
    }

    /// The `Set-Cookie` text of the cookie.
    pub fn as_string(&self) -> (r: String)
        requires
            expiry_ok(self@),
        ensures
            r@ == cookie_text(self@),
    {
        let date = match self.expiration {
            Some(secs) => Some(rfc2822(secs)),
            None => None,
        };
        self.text_with_date(date)
    }

    /// The `Set-Cookie` text of the cookie where `date` is the text of its
    /// expiry.
    pub fn text_with_date(&self, date: Option<String>) -> (r: String)
        ensures
            r@ == text_with(self@, opt_chars(date)),
    {
        let mut s = String::from_str(self.name.as_str());
        s.append("=");
        s.append(self.value.as_str());
        if let Some(d) = &date {
            s.append("; Expire=");
            s.append(d.as_str());
        }
        if self.http_only {
            s.append("; HttpOnly");
        }
        if self.secure {
            s.append("; Secure");
        }
        proof {
            reveal_strlit("=");
            reveal_strlit("; Expire=");
            reveal_strlit("; HttpOnly");
            reveal_strlit("; Secure");
            assert(s@ =~= text_with(self@, opt_chars(date)));
        }
        s
    }
}

pub open spec fn opt_chars(o: Option<String>) -> Option<Seq<char>> {
    match o {
        Some(s) => Some(s@),
        None => None,
    }
}

/// `name=value`, then `; Expire=<date>` where a date is given, then
/// `; HttpOnly` and `; Secure` as set.
pub open spec fn text_with(c: CookieView, date: Option<Seq<char>>) -> Seq<char> {
    c.name + seq!['='] + c.value + (match date {
        Some(d) => seq![';', ' ', 'E', 'x', 'p', 'i', 'r', 'e', '='] + d,
        None => seq![],
    }) + (if c.http_only {
        seq![';', ' ', 'H', 't', 't', 'p', 'O', 'n', 'l', 'y']
    } else {
        seq![]
    }) + (if c.secure {
        seq![';', ' ', 'S', 'e', 'c', 'u', 'r', 'e']
    } else {
        seq![]
    })
}

} // verus!
