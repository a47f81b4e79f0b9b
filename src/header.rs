//! HTTP header lists: ordered, multi-valued, case-sensitive.
use vstd::prelude::*;

verus! {

/// One `key: value` line of a header.
#[derive(Clone, Debug)]
pub struct HeaderEntry {
    key: String,
    value: String,
}

impl HeaderEntry {
    pub closed spec fn spec_pair(&self) -> (Seq<char>, Seq<char>) {
        (self.key@, self.value@)
    }

    pub fn key(&self) -> (r: &str)
        ensures
            r@ == self.spec_pair().0,
    {
        self.key.as_str()
    }

    pub fn value(&self) -> (r: &str)
        ensures
            r@ == self.spec_pair().1,
    {
        self.value.as_str()
    }
}

/// `h` without the entries whose key is `k`.
pub open spec fn without_key(h: Seq<(Seq<char>, Seq<char>)>, k: Seq<char>) -> Seq<
    (Seq<char>, Seq<char>),
>
    decreases h.len(),
{
    if h.len() == 0 {
        seq![]
    } else if h.last().0 == k {
        without_key(h.drop_last(), k)
    } else {
        without_key(h.drop_last(), k).push(h.last())
    }
}

/// Values of the entries of `h` whose key is `k`, in order.
pub open spec fn values_of(h: Seq<(Seq<char>, Seq<char>)>, k: Seq<char>) -> Seq<Seq<char>>
    decreases h.len(),
{
    if h.len() == 0 {
        seq![]
    } else if h.last().0 == k {
        values_of(h.drop_last(), k).push(h.last().1)
    } else {
        values_of(h.drop_last(), k)
    }
}

/// Value of the first entry of `h` whose key is `k`.
pub open spec fn first_value(h: Seq<(Seq<char>, Seq<char>)>, k: Seq<char>) -> Option<Seq<char>> {
    let vs = values_of(h, k);
    if vs.len() > 0 {
        Some(vs[0])
    } else {
        None
    }
}

/// Index of the first `c` in `s` at or after `i`.
pub open spec fn char_index(s: Seq<char>, c: char, i: int) -> Option<int>
    decreases s.len() - i,
{
    if i < 0 || i >= s.len() {
        None
    } else if s[i] == c {
        Some(i)
    } else {
        char_index(s, c, i + 1)
    }
}

/// The value of the cookie `name` in one `Cookie` entry: the entry split at
/// its first `=`, where the part before it is `name`.
pub open spec fn cookie_in(entry: Seq<char>, name: Seq<char>) -> Option<Seq<char>> {
    match char_index(entry, '=', 0) {
        Some(i) => if entry.subrange(0, i) == name {
            Some(entry.subrange(i + 1, entry.len() as int))
        } else {
            None
        },
        None => None,
    }
}

/// The first value of the cookie `name` across `entries`.
pub open spec fn cookie_of(entries: Seq<Seq<char>>, name: Seq<char>) -> Option<Seq<char>>
    decreases entries.len(),
{
    if entries.len() == 0 {
        None
    } else {
        match cookie_in(entries[0], name) {
            Some(v) => Some(v),
            None => cookie_of(entries.drop_first(), name),
        }
    }
}

pub open spec fn entry_views(v: Seq<HeaderEntry>) -> Seq<(Seq<char>, Seq<char>)> {
    v.map_values(|e: HeaderEntry| e.spec_pair())
}

/// The header of a request or a response: `(key, value)` pairs in the order
/// they were added.
#[derive(Clone, Debug)]
pub struct Header {
    data: Vec<HeaderEntry>,
}

impl View for Header {
    type V = Seq<(Seq<char>, Seq<char>)>;

    closed spec fn view(&self) -> Seq<(Seq<char>, Seq<char>)> {
        entry_views(self.data@)
    }
}

fn eq_str(a: &str, b: &str) -> (r: bool)
    ensures
        r == (a@ == b@),
{
    let x = String::from_str(a);
    let y = String::from_str(b);
    x == y
}

impl Header {
    pub fn new() -> (r: Self)
        ensures
            r@ == Seq::<(Seq<char>, Seq<char>)>::empty(),
    {
        let r = Header { data: Vec::new() };
        assert(r@ =~= Seq::<(Seq<char>, Seq<char>)>::empty());
        r
    }

    /// A copy of the header.
    pub fn duplicate(&self) -> (r: Self)
        ensures
            r@ == self@,
    {
        let mut data: Vec<HeaderEntry> = Vec::new();
        let mut i: usize = 0;
        while i < self.data.len()
            invariant
                0 <= i <= self.data@.len(),
                entry_views(data@) == entry_views(self.data@.subrange(0, i as int)),
            decreases self.data@.len() - i,
        {
            let e = &self.data[i];
            let ghost before = data@;
            data.push(
                HeaderEntry {
                    key: String::from_str(e.key.as_str()),
                    value: String::from_str(e.value.as_str()),
                },
            );
            proof {
                assert(entry_views(data@) =~= entry_views(before).push(e.spec_pair()));
                assert(entry_views(self.data@.subrange(0, i + 1)) =~= entry_views(
                    self.data@.subrange(0, i as int),
                ).push(e.spec_pair()));
                assert(entry_views(data@) =~= entry_views(self.data@.subrange(0, i + 1)));
            }
            i = i + 1;
        }
        proof {
            assert(self.data@.subrange(0, self.data@.len() as int) =~= self.data@);
        }
        Header { data }
    }

    /// The entries, in order.
    pub fn entries(&self) -> (r: &Vec<HeaderEntry>)
        ensures
            entry_views(r@) == self@,
    {
        &self.data
    }

    /// Value of the first entry whose key is `key`.
    pub fn get_first(&self, key: &str) -> (r: Option<&str>)
        ensures
            r.is_some() == (first_value(self@, key@) is Some),
            r.is_some() ==> r.unwrap()@ == first_value(self@, key@).unwrap(),
    {
        let mut i: usize = 0;
        while i < self.data.len()
            invariant
                0 <= i <= self.data@.len(),
                values_of(entry_views(self.data@.subrange(0, i as int)), key@).len() == 0,
            decreases self.data@.len() - i,
        {
            let e = &self.data[i];
            proof {
                let hs = entry_views(self.data@.subrange(0, i + 1));
                assert(hs.drop_last() =~= entry_views(self.data@.subrange(0, i as int)));
            }
            if eq_str(e.key.as_str(), key) {
                proof {
                    assert(entry_views(self.data@.subrange(0, i as int)) =~= self@.subrange(
                        0,
                        i as int,
                    ));
                    assert(self@[i as int].0 == key@);
                    lemma_values_prefix(self@, key@, i + 1);
                }
                return Some(e.value.as_str());
            }
            i = i + 1;
        }
        proof {
            assert(self.data@.subrange(0, self.data@.len() as int) =~= self.data@);
        }
        None
    }

    /// Values of every entry whose key is `key`, in order.
    pub fn get_all(&self, key: &str) -> (r: Vec<&str>)
        ensures
            r@.map_values(|s: &str| s@) == values_of(self@, key@),
    {
        let mut out: Vec<&str> = Vec::new();
        let mut i: usize = 0;
        while i < self.data.len()
            invariant
                0 <= i <= self.data@.len(),
                out@.map_values(|s: &str| s@) == values_of(
                    entry_views(self.data@.subrange(0, i as int)),
                    key@,
                ),
            decreases self.data@.len() - i,
        {
            let e = &self.data[i];
            proof {
                let hs = entry_views(self.data@.subrange(0, i + 1));
                assert(hs.drop_last() =~= entry_views(self.data@.subrange(0, i as int)));
            }
            if eq_str(e.key.as_str(), key) {
                let ghost before = out@;
                out.push(e.value.as_str());
                proof {
                    assert(out@.map_values(|s: &str| s@) =~= before.map_values(|s: &str| s@).push(
                        e.value@,
                    ));
                }
            }
            i = i + 1;
        }
        proof {
            assert(self.data@.subrange(0, self.data@.len() as int) =~= self.data@);
        }
        out
    }

    /// Appends the entry `key: value`.
    pub fn add(&mut self, key: &str, value: &str)
        ensures
            final(self)@ == old(self)@.push((key@, value@)),
    {
        let e = HeaderEntry { key: String::from_str(key), value: String::from_str(value) };
        self.data.push(e);
        proof {
            assert(self@ =~= old(self)@.push((key@, value@)));
        }
    }

    /// Removes every entry whose key is `key`, then appends `key: value`.
    pub fn replace(&mut self, key: &str, value: &str)
        ensures
            final(self)@ == without_key(old(self)@, key@).push((key@, value@)),
    {
        self.remove(key);
        self.add(key, value);
    }

    /// Removes every entry whose key is `key`.
    pub fn remove(&mut self, key: &str)
        ensures
            final(self)@ == without_key(old(self)@, key@),
    {
        let mut kept: Vec<HeaderEntry> = Vec::new();
        let mut i: usize = 0;
        while i < self.data.len()
            invariant
                0 <= i <= self.data@.len(),
                self.data@ == old(self).data@,
                entry_views(kept@) == without_key(
                    entry_views(self.data@.subrange(0, i as int)),
                    key@,
                ),
            decreases self.data@.len() - i,
        {
            let e = &self.data[i];
            proof {
                let hs = entry_views(self.data@.subrange(0, i + 1));
                assert(hs.drop_last() =~= entry_views(self.data@.subrange(0, i as int)));
            }
            if !eq_str(e.key.as_str(), key) {
                let c = HeaderEntry {
                    key: String::from_str(e.key.as_str()),
                    value: String::from_str(e.value.as_str()),
                };
                let ghost before = kept@;
                kept.push(c);
                proof {
                    assert(entry_views(kept@) =~= entry_views(before).push(e.spec_pair()));
                }
            }
            i = i + 1;
        }
        proof {
            assert(self.data@.subrange(0, self.data@.len() as int) =~= self.data@);
        }
        self.data = kept;
    }

    /// Value of the cookie `name`: the first `Cookie` entry that, split at its
    /// first `=`, has `name` before it gives what follows.
    pub fn cookie(&self, name: &str) -> (r: Option<&str>)
        ensures
            r.is_some() == (cookie_of(values_of(self@, seq!['C', 'o', 'o', 'k', 'i', 'e']), name@) is Some),
            r.is_some() ==> r.unwrap()@ == cookie_of(
                values_of(self@, seq!['C', 'o', 'o', 'k', 'i', 'e']),
                name@,
            ).unwrap(),
    {
        proof {
            reveal_strlit("Cookie");
            assert("Cookie"@ =~= seq!['C', 'o', 'o', 'k', 'i', 'e']);
        }
        let all = self.get_all("Cookie");
        let ghost vs = all@.map_values(|s: &str| s@);
        assert(vs.subrange(0, vs.len() as int) =~= vs);
        let mut i: usize = 0;
        while i < all.len()
            invariant
                0 <= i <= all@.len(),
                vs == all@.map_values(|s: &str| s@),
                vs == values_of(self@, seq!['C', 'o', 'o', 'k', 'i', 'e']),
                cookie_of(vs, name@) == cookie_of(vs.subrange(i as int, vs.len() as int), name@),
            decreases all@.len() - i,
        {
            let entry = all[i];
            proof {
                assert(vs.subrange(i as int, vs.len() as int).drop_first() =~= vs.subrange(
                    i + 1,
                    vs.len() as int,
                ));
                assert(vs.subrange(i as int, vs.len() as int)[0] == entry@);
            }
            match cookie_value(entry, name) {
                Some(v) => {
                    return Some(v);
                },
                None => {},
            }
            i = i + 1;
        }
        proof {
            assert(vs.subrange(i as int, vs.len() as int).len() == 0);
        }
        None
    }
}

/// Values before a prefix of `h` that holds `k` only at its end.
proof fn lemma_values_prefix(h: Seq<(Seq<char>, Seq<char>)>, k: Seq<char>, n: int)
    requires
        0 < n <= h.len(),
        values_of(h.subrange(0, n - 1), k).len() == 0,
        h[n - 1].0 == k,
    ensures
        first_value(h, k) == Some(h[n - 1].1),
    decreases h.len() - n,
{
    if n == h.len() {
        assert(h.drop_last() =~= h.subrange(0, n - 1));
    } else {
        assert(h.drop_last().subrange(0, n - 1) =~= h.subrange(0, n - 1));
        lemma_values_prefix(h.drop_last(), k, n);
        let vs = values_of(h.drop_last(), k);
        assert(vs.len() > 0);
    }
}

/// The value of the cookie `name` in the entry `entry`.
fn cookie_value<'a>(entry: &'a str, name: &str) -> (r: Option<&'a str>)
    ensures
        r.is_some() == (cookie_in(entry@, name@) is Some),
        r.is_some() ==> r.unwrap()@ == cookie_in(entry@, name@).unwrap(),
{
    let n = entry.unicode_len();
    let mut i: usize = 0;
    while i < n
        invariant
            0 <= i <= n,
            n == entry@.len(),
            char_index(entry@, '=', 0) == char_index(entry@, '=', i as int),
        decreases n - i,
    {
        if entry.get_char(i) == '=' {
            let k = entry.substring_char(0, i);
            if eq_str(k, name) {
                return Some(entry.substring_char(i + 1, n));
            }
            return None;
        }
        i = i + 1;
    }
    None
}

/// Appending an entry keeps the first value of every key that had one.
pub proof fn lemma_first_value_push(
    h: Seq<(Seq<char>, Seq<char>)>,
    k: Seq<char>,
    v: Seq<char>,
    q: Seq<char>,
)
    ensures
        first_value(h, q) is Some ==> first_value(h.push((k, v)), q) == first_value(h, q),
{
    let h2 = h.push((k, v));
    assert(h2.drop_last() =~= h);
}

proof fn lemma_without_values(h: Seq<(Seq<char>, Seq<char>)>, k: Seq<char>)
    ensures
        values_of(without_key(h, k), k).len() == 0,
    decreases h.len(),
{
    if h.len() > 0 {
        lemma_without_values(h.drop_last(), k);
        let w = without_key(h.drop_last(), k);
        if h.last().0 != k {
            assert(w.push(h.last()).drop_last() =~= w);
        }
    }
}

/// After a replace the first value of the key is the new one.
pub proof fn lemma_first_value_replaced(h: Seq<(Seq<char>, Seq<char>)>, k: Seq<char>, v: Seq<char>)
    ensures
        first_value(without_key(h, k).push((k, v)), k) == Some(v),
{
    lemma_without_values(h, k);
    let w = without_key(h, k);
    assert(w.push((k, v)).drop_last() =~= w);
}

/// Removing the entries of `k` removes all its values and keeps those of
/// every other key.
pub proof fn lemma_values_without(h: Seq<(Seq<char>, Seq<char>)>, k: Seq<char>, q: Seq<char>)
    ensures
        values_of(without_key(h, k), q) == (if q == k {
            Seq::<Seq<char>>::empty()
        } else {
            values_of(h, q)
        }),
    decreases h.len(),
{
    if h.len() > 0 {
        lemma_values_without(h.drop_last(), k, q);
        let w = without_key(h.drop_last(), k);
        if h.last().0 != k {
            assert(w.push(h.last()).drop_last() =~= w);
        }
    }
}

/// Appending an entry adds its value to those of its key alone.
pub proof fn lemma_values_push(
    h: Seq<(Seq<char>, Seq<char>)>,
    k: Seq<char>,
    v: Seq<char>,
    q: Seq<char>,
)
    ensures
        values_of(h.push((k, v)), q) == (if q == k {
            values_of(h, q).push(v)
        } else {
            values_of(h, q)
        }),
{
    assert(h.push((k, v)).drop_last() =~= h);
}

} // verus!
