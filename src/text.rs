//! Byte and character helpers shared by the URL, HTTP and WebSocket code.
use vstd::prelude::*;
use vstd::utf8::*;

verus! {

/// Characters of an ASCII byte sequence.
pub open spec fn bytes_as_chars(b: Seq<u8>) -> Seq<char> {
    Seq::new(b.len(), |i: int| b[i] as char)
}

/// Every byte is below 128.
pub open spec fn ascii_bytes(b: Seq<u8>) -> bool {
    forall|i: int| 0 <= i < b.len() ==> #[trigger] b[i] < 128
}

/// Index of the first occurrence of `pat` in `s` at or after `i`.
pub open spec fn find_from(s: Seq<u8>, pat: Seq<u8>, i: int) -> Option<int>
    decreases s.len() - i,
{
    if i < 0 || i + pat.len() > s.len() {
        None
    } else if s.subrange(i, i + pat.len()) == pat {
        Some(i)
    } else if i < s.len() {
        find_from(s, pat, i + 1)
    } else {
        None
    }
}

/// Index of the first occurrence of `pat` in `s`.
pub open spec fn find(s: Seq<u8>, pat: Seq<u8>) -> Option<int> {
    find_from(s, pat, 0)
}

/// `s` split at the first `pat`, the separator dropped.
pub open spec fn split_once(s: Seq<u8>, pat: Seq<u8>) -> Option<(Seq<u8>, Seq<u8>)> {
    match find(s, pat) {
        Some(i) => Some((s.subrange(0, i), s.subrange(i + pat.len(), s.len() as int))),
        None => None,
    }
}

/// `s` split on every occurrence of the byte `d`; always at least one part.
pub open spec fn split_all(s: Seq<u8>, d: u8) -> Seq<Seq<u8>>
    decreases s.len(),
{
    match find(s, seq![d]) {
        Some(i) => {
            if 0 <= i < s.len() {
                seq![s.subrange(0, i)] + split_all(s.subrange(i + 1, s.len() as int), d)
            } else {
                seq![s]
            }
        },
        None => seq![s],
    }
}

/// Whitespace as `char::is_whitespace` classifies it: the characters of
/// Unicode's White_Space property.
pub open spec fn white_space(c: char) -> bool {
    let v = c as u32;
    (9 <= v && v <= 13) || v == 32 || v == 0x85 || v == 0xA0 || v == 0x1680 || (0x2000 <= v && v
        <= 0x200A) || v == 0x2028 || v == 0x2029 || v == 0x202F || v == 0x205F || v == 0x3000
}

/// `s` without leading whitespace.
pub open spec fn trim_start(s: Seq<char>) -> Seq<char>
    decreases s.len(),
{
    if s.len() > 0 && white_space(s[0]) {
        trim_start(s.drop_first())
    } else {
        s
    }
}

/// `s` without trailing whitespace.
pub open spec fn trim_end(s: Seq<char>) -> Seq<char>
    decreases s.len(),
{
    if s.len() > 0 && white_space(s.last()) {
        trim_end(s.drop_last())
    } else {
        s
    }
}

/// `s` without leading or trailing whitespace, as `str::trim` gives it.
pub open spec fn trim(s: Seq<char>) -> Seq<char> {
    trim_end(trim_start(s))
}

/// Decimal digits of `n`, most significant first, without leading zeros.
pub open spec fn decimal(n: nat) -> Seq<u8>
    decreases n,
{
    if n < 10 {
        seq![(48 + n) as u8]
    } else {
        decimal(n / 10).push((48 + n % 10) as u8)
    }
}

pub open spec fn is_digit(b: u8) -> bool {
    48 <= b && b <= 57
}

/// Value of a sequence of decimal digits.
pub open spec fn digits_value(s: Seq<u8>) -> nat
    decreases s.len(),
{
    if s.len() == 0 {
        0
    } else {
        digits_value(s.drop_last()) * 10 + (s.last() - 48) as nat
    }
}

/// `s` without one leading `+`.
pub open spec fn unsigned_digits(s: Seq<u8>) -> Seq<u8> {
    if s.len() > 0 && s[0] == 43 {
        s.drop_first()
    } else {
        s
    }
}

/// What `str::parse` gives for an unsigned integer without a bound: an optional
/// `+` followed by one or more decimal digits.
pub open spec fn parse_unsigned(s: Seq<u8>) -> Option<nat> {
    let d = unsigned_digits(s);
    if d.len() > 0 && forall|i: int| 0 <= i < d.len() ==> is_digit(#[trigger] d[i]) {
        Some(digits_value(d))
    } else {
        None
    }
}

pub proof fn lemma_ascii_encode(s: Seq<char>)
    requires
        is_ascii_chars(s),
    ensures
        encode_utf8(s) == Seq::new(s.len(), |i: int| s[i] as u8),
{
    is_ascii_chars_encode_utf8(s);
    assert(encode_utf8(s) =~= Seq::new(s.len(), |i: int| s[i] as u8));
}

pub proof fn lemma_ascii_round_trip(b: Seq<u8>)
    requires
        ascii_bytes(b),
    ensures
        is_ascii_chars(bytes_as_chars(b)),
        encode_utf8(bytes_as_chars(b)) == b,
        valid_utf8(b),
        decode_utf8(b) == bytes_as_chars(b),
{
    let c = bytes_as_chars(b);
    assert forall|i: int| 0 <= i < c.len() implies '\0' <= #[trigger] c[i] <= '\u{7f}' by {
        assert(b[i] < 128);
    }
    lemma_ascii_encode(c);
    assert forall|i: int| 0 <= i < b.len() implies #[trigger] (c[i] as u8) == b[i] by {
        assert(b[i] < 128);
    }
    assert(encode_utf8(c) =~= b);
    encode_utf8_valid_utf8(c);
    encode_utf8_decode_utf8(c);
}

/// Relies on `String::from_utf8`: it succeeds exactly on valid UTF-8 and then
/// holds the decoded characters.
#[verifier::external_body]
pub(crate) fn string_from_utf8(b: Vec<u8>) -> (r: Option<String>)
    ensures
        r.is_some() == valid_utf8(b@),
        r.is_some() ==> r.unwrap()@ == decode_utf8(b@),
{
    String::from_utf8(b).ok()
}

/// The string of an ASCII byte sequence.
pub fn ascii_string(b: Vec<u8>) -> (r: String)
    requires
        ascii_bytes(b@),
    ensures
        r@ == bytes_as_chars(b@),
{
    proof {
        lemma_ascii_round_trip(b@);
    }
    let r = string_from_utf8(b);
    r.unwrap()
}

/// The UTF-8 bytes of `s`.
pub fn utf8_bytes(s: &str) -> (r: Vec<u8>)
    ensures
        r@ == encode_utf8(s@),
{
    s.as_bytes_vec()
}

/// The bytes of an ASCII string.
pub fn ascii_bytes_of(s: &str) -> (r: Vec<u8>)
    requires
        is_ascii_chars(s@),
    ensures
        r@ == Seq::new(s@.len(), |i: int| s@[i] as u8),
        ascii_bytes(r@),
        bytes_as_chars(r@) == s@,
{
    proof {
        lemma_ascii_encode(s@);
    }
    let r = s.as_bytes_vec();
    proof {
        assert forall|i: int| 0 <= i < r@.len() implies #[trigger] r@[i] < 128 by {
            assert('\0' <= s@[i] <= '\u{7f}');
        }
        assert forall|i: int| 0 <= i < r@.len() implies #[trigger] (r@[i] as char) == s@[i] by {
            assert('\0' <= s@[i] <= '\u{7f}');
        }
        assert(bytes_as_chars(r@) =~= s@);
    }
    r
}

/// `v[lo..hi]` as a new vector.
pub fn slice_of(v: &Vec<u8>, lo: usize, hi: usize) -> (r: Vec<u8>)
    requires
        lo <= hi <= v@.len(),
    ensures
        r@ == v@.subrange(lo as int, hi as int),
{
    let mut r: Vec<u8> = Vec::new();
    let mut i: usize = lo;
    while i < hi
        invariant
            lo <= i <= hi <= v@.len(),
            r@ == v@.subrange(lo as int, i as int),
        decreases hi - i,
    {
        r.push(v[i]);
        i = i + 1;
        proof {
            assert(r@ =~= v@.subrange(lo as int, i as int));
        }
    }
    r
}

/// Appends all of `b` to `out`.
pub fn append_bytes(out: &mut Vec<u8>, b: &[u8])
    ensures
        final(out)@ == old(out)@ + b@,
{
    let mut i: usize = 0;
    while i < b.len()
        invariant
            0 <= i <= b@.len(),
            out@ == old(out)@ + b@.subrange(0, i as int),
        decreases b@.len() - i,
    {
        out.push(b[i]);
        i = i + 1;
        proof {
            assert(out@ =~= old(out)@ + b@.subrange(0, i as int));
        }
    }
    proof {
        assert(b@.subrange(0, b@.len() as int) =~= b@);
    }
}

/// Whether `pat` occurs in `s` at position `i`.
pub fn matches_at(s: &Vec<u8>, i: usize, pat: &[u8]) -> (r: bool)
    ensures
        r == (i + pat@.len() <= s@.len() && s@.subrange(i as int, i + pat@.len()) == pat@),
{
    let n = s.len();
    if pat.len() > n || i > n - pat.len() {
        return false;
    }
    let mut j: usize = 0;
    while j < pat.len()
        invariant
            n == s@.len(),
            i + pat@.len() <= s@.len(),
            0 <= j <= pat@.len(),
            forall|k: int| 0 <= k < j ==> s@[i + k] == pat@[k],
        decreases pat@.len() - j,
    {
        assert(i + j < n);
        if s[i + j] != pat[j] {
            proof {
                assert(s@.subrange(i as int, i + pat@.len())[j as int] != pat@[j as int]);
            }
            return false;
        }
        j = j + 1;
    }
    proof {
        assert(s@.subrange(i as int, i + pat@.len()) =~= pat@);
    }
    true
}

/// First occurrence of `pat` in `s` at or after `start`.
pub fn find_pattern(s: &Vec<u8>, start: usize, pat: &[u8]) -> (r: Option<usize>)
    requires
        start <= s@.len(),
    ensures
        r.is_some() == (find_from(s@, pat@, start as int) is Some),
        r.is_some() ==> r.unwrap() as int == find_from(s@, pat@, start as int).unwrap(),
        r.is_some() ==> r.unwrap() + pat@.len() <= s@.len() && start <= r.unwrap(),
{
    if pat.len() > s.len() {
        return None;
    }
    let last: usize = s.len() - pat.len();
    let mut i: usize = start;
    while i <= last
        invariant
            start <= i,
            last + pat@.len() == s@.len(),
            find_from(s@, pat@, start as int) == find_from(s@, pat@, i as int),
        decreases last + 1 - i,
    {
        if matches_at(s, i, pat) {
            return Some(i);
        }
        if i == last {
            assert(find_from(s@, pat@, i as int + 1) is None);
            return None;
        }
        i = i + 1;
    }
    None
}

/// Decimal digits of `n`.
pub fn decimal_bytes(n: u64) -> (r: Vec<u8>)
    ensures
        r@ == decimal(n as nat),
        ascii_bytes(r@),
    decreases n,
{
    if n < 10 {
        let r = vec![(48 + n) as u8];
        proof {
            assert(r@ =~= decimal(n as nat));
        }
        r
    } else {
        let mut r = decimal_bytes(n / 10);
        r.push((48 + n % 10) as u8);
        r
    }
}

/// Decimal representation of `n` as a string.
pub fn decimal_string(n: u64) -> (r: String)
    ensures
        r@ == bytes_as_chars(decimal(n as nat)),
{
    ascii_string(decimal_bytes(n))
}

/// Parses an unsigned decimal number no greater than `max`, as `str::parse`
/// does for an unsigned integer type whose largest value is `max`.
pub fn parse_bounded(s: &Vec<u8>, max: u64) -> (r: Option<u64>)
    ensures
        r == (match parse_unsigned(s@) {
            Some(v) => if v <= max {
                Some(v as u64)
            } else {
                None
            },
            None => None,
        }),
{
    let start: usize = if s.len() > 0 && s[0] == 43 {
        1
    } else {
        0
    };
    let ghost d = unsigned_digits(s@);
    assert(d =~= s@.subrange(start as int, s@.len() as int));
    if start >= s.len() {
        proof {
            assert(d.len() == 0);
        }
        return None;
    }
    let mut v: u64 = 0;
    let mut i: usize = start;
    while i < s.len()
        invariant
            start <= i <= s@.len(),
            d == s@.subrange(start as int, s@.len() as int),
            d == unsigned_digits(s@),
            forall|k: int| 0 <= k < i - start ==> is_digit(#[trigger] d[k]),
            v as nat == digits_value(d.subrange(0, i - start)),
            v <= max,
        decreases s@.len() - i,
    {
        let c = s[i];
        assert(d[i - start] == c);
        if c < 48 || c > 57 {
            proof {
                assert(!is_digit(d[i - start]));
            }
            return None;
        }
        let digit = (c - 48) as u64;
        proof {
            let p = d.subrange(0, i + 1 - start);
            assert(p.drop_last() =~= d.subrange(0, i - start));
            assert(p.last() == c);
        }
        let over = v > max / 10 || digit > max - v * 10;
        if over {
            // the value exceeds `max`; the rest must still be digits to tell
            // an overflow from a malformed number
            let mut j: usize = i + 1;
            while j < s.len()
                invariant
                    start <= i < j <= s@.len(),
                    d == s@.subrange(start as int, s@.len() as int),
                    d == unsigned_digits(s@),
                    v as nat == digits_value(d.subrange(0, i - start)),
                    over <==> (v > max / 10 || digit > max - v * 10),
                    c == s@[i as int],
                    digit == c - 48,
            d == unsigned_digits(s@),
                    forall|k: int| 0 <= k < j - start ==> is_digit(#[trigger] d[k]),
                decreases s@.len() - j,
            {
                assert(d[j - start] == s@[j as int]);
                if s[j] < 48 || s[j] > 57 {
                    proof {
                        assert(!is_digit(d[j - start]));
                    }
                    return None;
                }
                j = j + 1;
            }
            proof {
                let mx = max as int;
                let vv = v as int;
                let dd = digit as int;
                if vv > mx / 10 {
                    assert(vv * 10 + dd > mx) by (nonlinear_arith)
                        requires
                            vv > mx / 10,
                            dd >= 0,
                            mx >= 0,
                    ;
                }
                assert(d.len() > 0);
                lemma_digits_grow(d, (i - start) as int);
                assert(digits_value(d) > max);
            }
            return None;
        }
        v = v * 10 + digit;
        i = i + 1;
        proof {
            assert(is_digit(d[i - 1 - start]));
        }
    }
    proof {
        assert(d.subrange(0, d.len() as int) =~= d);
        assert(d.len() > 0);
    }
    Some(v)
}

/// The value of a digit sequence is at least the value of any prefix of it
/// extended by one digit.
proof fn lemma_digits_grow(d: Seq<u8>, k: int)
    requires
        0 <= k < d.len(),
        forall|j: int| 0 <= j < d.len() ==> is_digit(#[trigger] d[j]),
    ensures
        digits_value(d) >= digits_value(d.subrange(0, k)) * 10 + (d[k] - 48) as nat,
    decreases d.len(),
{
    if k == d.len() - 1 {
        assert(d.drop_last() =~= d.subrange(0, k));
    } else {
        let e = d.drop_last();
        assert forall|j: int| 0 <= j < e.len() implies is_digit(#[trigger] e[j]) by {
            assert(e[j] == d[j]);
        }
        lemma_digits_grow(e, k);
        assert(e.subrange(0, k) =~= d.subrange(0, k));
        assert(digits_value(d) == digits_value(e) * 10 + (d.last() - 48) as nat);
        assert(digits_value(e) * 10 >= digits_value(e)) by (nonlinear_arith)
            requires
                digits_value(e) >= 0,
        ;
    }
}

/// Searching a suffix of `s` finds what searching `s` from the suffix's start finds.
pub proof fn lemma_find_shift(s: Seq<u8>, pat: Seq<u8>, pos: int, k: int)
    requires
        0 <= pos <= s.len(),
        0 <= k,
    ensures
        find_from(s.subrange(pos, s.len() as int), pat, k) == (match find_from(s, pat, pos + k) {
            Some(j) => Some(j - pos),
            None => None,
        }),
    decreases s.len() - pos - k,
{
    let t = s.subrange(pos, s.len() as int);
    if k + pat.len() <= t.len() {
        assert(t.subrange(k, k + pat.len()) =~= s.subrange(pos + k, pos + k + pat.len()));
        if k < t.len() {
            lemma_find_shift(s, pat, pos, k + 1);
        }
    }
}

/// `s` split at the first occurrence of `pat`.
pub fn split_first(s: &Vec<u8>, pat: &[u8]) -> (r: Option<(Vec<u8>, Vec<u8>)>)
    ensures
        r.is_some() == (split_once(s@, pat@) is Some),
        r.is_some() ==> r.unwrap().0@ == split_once(s@, pat@).unwrap().0 && r.unwrap().1@
            == split_once(s@, pat@).unwrap().1,
{
    let n = s.len();
    match find_pattern(s, 0, pat) {
        Some(i) => Some((slice_of(s, 0, i), slice_of(s, i + pat.len(), n))),
        None => None,
    }
}

/// `s` split at the first occurrence of `pat`, or all of `s` and nothing.
pub fn split_or_all(s: &Vec<u8>, pat: &[u8]) -> (r: (Vec<u8>, Vec<u8>))
    ensures
        split_once(s@, pat@) is Some ==> r.0@ == split_once(s@, pat@).unwrap().0 && r.1@
            == split_once(s@, pat@).unwrap().1,
        split_once(s@, pat@) is None ==> r.0@ == s@ && r.1@ == Seq::<u8>::empty(),
{
    match split_first(s, pat) {
        Some(p) => p,
        None => (slice_of(s, 0, s.len()), Vec::new()),
    }
}

/// Views of a vector of byte vectors.
pub open spec fn views(v: Seq<Vec<u8>>) -> Seq<Seq<u8>> {
    v.map_values(|x: Vec<u8>| x@)
}

/// `s` split on every occurrence of `d`.
pub fn split_bytes(s: &Vec<u8>, d: u8) -> (r: Vec<Vec<u8>>)
    ensures
        views(r@) == split_all(s@, d),
{
    let mut out: Vec<Vec<u8>> = Vec::new();
    let mut pos: usize = 0;
    let n = s.len();
    let sep = [d];
    assert(sep@ =~= seq![d]);
    assert(s@.subrange(0, n as int) =~= s@);
    assert(views(out@) =~= Seq::<Seq<u8>>::empty());
    loop
        invariant
            n == s@.len(),
            pos <= s@.len(),
            sep@ == seq![d],
            split_all(s@, d) == views(out@) + split_all(s@.subrange(pos as int, s@.len() as int), d),
        decreases s@.len() - pos,
    {
        let ghost t = s@.subrange(pos as int, s@.len() as int);
        proof {
            lemma_find_shift(s@, seq![d], pos as int, 0);
        }
        match find_pattern(s, pos, &sep) {
            Some(j) => {
                let part = slice_of(s, pos, j);
                proof {
                    assert(t.subrange(0, j - pos) =~= part@);
                    assert(t.subrange(j - pos + 1, t.len() as int) =~= s@.subrange(
                        j + 1,
                        s@.len() as int,
                    ));
                    assert(views(out@.push(part)) =~= views(out@).push(part@));
                    assert(find(t, seq![d]) == Some(j - pos));
                    assert(split_all(t, d) == seq![part@] + split_all(
                        s@.subrange(j + 1, s@.len() as int),
                        d,
                    ));
                    assert(views(out@).push(part@) + split_all(s@.subrange(j + 1, s@.len() as int), d)
                        =~= views(out@) + (seq![part@] + split_all(
                        s@.subrange(j + 1, s@.len() as int),
                        d,
                    )));
                }
                out.push(part);
                pos = j + 1;
            },
            None => {
                let part = slice_of(s, pos, n);
                proof {
                    assert(find(t, seq![d]) is None);
                    assert(part@ == t);
                    assert(views(out@.push(part)) =~= views(out@) + seq![part@]);
                }
                out.push(part);
                return out;
            },
        }
    }
}

/// Whether `c` is whitespace.
pub fn is_white(c: char) -> (r: bool)
    ensures
        r == white_space(c),
{
    let v = c as u32;
    (9 <= v && v <= 13) || v == 32 || v == 0x85 || v == 0xA0 || v == 0x1680 || (0x2000 <= v && v
        <= 0x200A) || v == 0x2028 || v == 0x2029 || v == 0x202F || v == 0x205F || v == 0x3000
}

/// `s` without leading or trailing whitespace.
pub fn trim_str(s: &str) -> (r: String)
    ensures
        r@ == trim(s@),
{
    let n = s.unicode_len();
    let mut a: usize = 0;
    proof {
        assert(s@.subrange(0, n as int) =~= s@);
    }
    while a < n && is_white(s.get_char(a))
        invariant
            0 <= a <= n,
            n == s@.len(),
            trim_start(s@) == trim_start(s@.subrange(a as int, n as int)),
        decreases n - a,
    {
        proof {
            assert(s@.subrange(a as int, n as int).drop_first() =~= s@.subrange(a + 1, n as int));
        }
        a = a + 1;
    }
    proof {
        if a < n {
            assert(s@.subrange(a as int, n as int)[0] == s@[a as int]);
        }
        assert(trim_start(s@.subrange(a as int, n as int)) == s@.subrange(a as int, n as int));
    }
    let mut b: usize = n;
    while b > a && is_white(s.get_char(b - 1))
        invariant
            0 <= a <= b <= n,
            n == s@.len(),
            trim(s@) == trim_end(s@.subrange(a as int, b as int)),
        decreases b - a,
    {
        proof {
            assert(s@.subrange(a as int, b as int).drop_last() =~= s@.subrange(a as int, b - 1));
        }
        b = b - 1;
    }
    proof {
        if b > a {
            assert(s@.subrange(a as int, b as int).last() == s@[b - 1]);
        }
    }
    String::from_str(s.substring_char(a, b))
}

} // verus!
