//! Route patterns and the route table: registration with duplicate detection,
//! and matching by priority, static segments before dynamic ones.
use vstd::prelude::*;
use core::cmp::Ordering;
use bit_vec::BitVec;
use crate::http::{Error, Method};
use crate::text::{ascii_bytes, ascii_bytes_of, ascii_string, bytes_as_chars, find, split_all, split_bytes, views};
use vstd::utf8::is_ascii_chars;
use crate::url::{key_index_from, pair_views, put, put_pair, string_views, URL};

verus! {

#[verifier::external_type_specification]
#[verifier::external_body]
#[verifier::reject_recursive_types(B)]
pub struct ExBitVec<B>(bit_vec::BitVec<B>);

/// The bits a bit vector holds, first pushed first.
pub uninterp spec fn bits_of(v: BitVec) -> Seq<bool>;

/// Relies on `BitVec::new`: a vector with no bits.
#[verifier::external_body]
fn bits_new() -> (r: BitVec)
    ensures
        bits_of(r) == Seq::<bool>::empty(),
{
    BitVec::new()
}

/// Relies on `BitVec::push`: appends one bit. It panics only where the length
/// would overflow.
#[verifier::external_body]
fn bits_push(v: &mut BitVec, b: bool)
    requires
        bits_of(*old(v)).len() < usize::MAX,
    ensures
        bits_of(*final(v)) == bits_of(*old(v)).push(b),
{
    v.push(b)
}

/// Relies on `<BitVec as Ord>::cmp`: bit by bit from the first, `false` before
/// `true`, a proper prefix before the longer vector.
#[verifier::external_body]
fn bits_cmp(a: &BitVec, b: &BitVec) -> (r: Ordering)
    ensures
        r == lex_cmp(bits_of(*a), bits_of(*b)),
{
    a.cmp(b)
}

/// Lexicographic order of bit sequences.
pub open spec fn lex_cmp(a: Seq<bool>, b: Seq<bool>) -> Ordering
    decreases a.len(),
{
    if a.len() == 0 && b.len() == 0 {
        Ordering::Equal
    } else if a.len() == 0 {
        Ordering::Less
    } else if b.len() == 0 {
        Ordering::Greater
    } else if a[0] != b[0] {
        if a[0] {
            Ordering::Greater
        } else {
            Ordering::Less
        }
    } else {
        lex_cmp(a.drop_first(), b.drop_first())
    }
}

pub proof fn lemma_lex_antisym(a: Seq<bool>, b: Seq<bool>)
    ensures
        (lex_cmp(a, b) == Ordering::Greater) == (lex_cmp(b, a) == Ordering::Less),
        (lex_cmp(a, b) == Ordering::Equal) == (a == b),
    decreases a.len(),
{
    if a.len() > 0 && b.len() > 0 {
        if a[0] == b[0] {
            lemma_lex_antisym(a.drop_first(), b.drop_first());
            if a.drop_first() == b.drop_first() {
                assert(a =~= seq![a[0]] + a.drop_first());
                assert(b =~= seq![b[0]] + b.drop_first());
            }
            if a == b {
                assert(a.drop_first() =~= b.drop_first());
            }
        } else {
            assert(a != b);
        }
    } else if a.len() != b.len() {
        assert(a != b);
    } else {
        assert(a =~= b);
    }
}

pub proof fn lemma_lex_trans(a: Seq<bool>, b: Seq<bool>, c: Seq<bool>)
    requires
        lex_cmp(a, b) != Ordering::Greater,
        lex_cmp(b, c) != Ordering::Greater,
    ensures
        lex_cmp(a, c) != Ordering::Greater,
    decreases a.len(),
{
    if a.len() > 0 && b.len() > 0 && c.len() > 0 && a[0] == b[0] && b[0] == c[0] {
        lemma_lex_trans(a.drop_first(), b.drop_first(), c.drop_first());
    }
}

/// One segment of a route pattern.
#[derive(Clone, Debug)]
pub enum URLSegment {
    /// Matches exactly this text.
    Static(String),
    /// Matches any one segment and binds it to this name.
    Dynamic(String),
}

/// A pattern segment as a value.
pub enum SegView {
    Static(Seq<char>),
    Dynamic(Seq<char>),
}

impl View for URLSegment {
    type V = SegView;

    open spec fn view(&self) -> SegView {
        match self {
            URLSegment::Static(s) => SegView::Static(s@),
            URLSegment::Dynamic(s) => SegView::Dynamic(s@),
        }
    }
}

pub open spec fn seg_views(v: Seq<URLSegment>) -> Seq<SegView> {
    v.map_values(|s: URLSegment| s@)
}

/// The segment a template piece denotes: `<name>` is dynamic, any other
/// non-empty piece not starting with `<` is static.
pub open spec fn segment_of(p: Seq<u8>) -> Option<SegView> {
    if p.len() == 0 {
        None
    } else if p[0] == 60 {
        if p.len() >= 3 && p.last() == 62 && forall|i: int|
            1 <= i < p.len() - 1 ==> #[trigger] p[i] != 60 && p[i] != 62 {
            Some(SegView::Dynamic(bytes_as_chars(p.subrange(1, p.len() - 1))))
        } else {
            None
        }
    } else {
        Some(SegView::Static(bytes_as_chars(p)))
    }
}

pub open spec fn segments_of_pieces(ps: Seq<Seq<u8>>) -> Option<Seq<SegView>>
    decreases ps.len(),
{
    if ps.len() == 0 {
        Some(seq![])
    } else {
        match (segments_of_pieces(ps.drop_last()), segment_of(ps.last())) {
            (Some(r), Some(s)) => Some(r.push(s)),
            _ => None,
        }
    }
}

/// The pattern of a template `/seg/seg/...`: ASCII, a leading `/`, no empty
/// segment.
pub open spec fn template_of(s: Seq<char>) -> Option<Seq<SegView>> {
    if s.len() == 0 || !is_ascii_chars(s) || s[0] != '/' {
        None
    } else {
        segments_of_pieces(
            split_all(Seq::new(s.len(), |i: int| s[i] as u8).drop_first(), 47u8),
        )
    }
}

/// Identity of two segments when registering: statics by their text, any two
/// dynamics alike.
pub open spec fn same_segment(a: SegView, b: SegView) -> bool {
    match (a, b) {
        (SegView::Static(x), SegView::Static(y)) => x == y,
        (SegView::Dynamic(_), SegView::Dynamic(_)) => true,
        _ => false,
    }
}

pub open spec fn same_pattern(a: Seq<SegView>, b: Seq<SegView>) -> bool {
    a.len() == b.len() && forall|i: int| 0 <= i < a.len() ==> same_segment(#[trigger] a[i], b[i])
}

/// Whether the pattern segment `s` accepts the URL segment `v`.
pub open spec fn seg_matches(s: SegView, v: Seq<char>) -> bool {
    match s {
        SegView::Static(x) => x == v,
        SegView::Dynamic(_) => true,
    }
}

/// Whether the first `url.len()` segments of `p` accept `url`.
pub open spec fn matches_prefix(p: Seq<SegView>, url: Seq<Seq<char>>) -> bool {
    url.len() <= p.len() && forall|i: int|
        0 <= i < url.len() ==> seg_matches(#[trigger] p[i], url[i])
}

/// Priority of the first `n` segments of `p`: one bit per segment, set for a
/// static one.
pub open spec fn priority(p: Seq<SegView>, n: nat) -> Seq<bool> {
    Seq::new(n, |i: int| p[i] is Static)
}

/// Bindings of a match of `p` against `url`: each dynamic name to the URL
/// segment at its position, a later equal name overwriting an earlier one.
pub open spec fn bind(p: Seq<SegView>, url: Seq<Seq<char>>) -> Seq<(Seq<char>, Seq<char>)>
    decreases url.len(),
{
    if url.len() == 0 {
        seq![]
    } else {
        let bs = bind(p, url.drop_last());
        match p[url.len() - 1] {
            SegView::Dynamic(name) => put(bs, name, url.last()),
            SegView::Static(_) => bs,
        }
    }
}

/// No two routes of one method have the same pattern.
pub open spec fn no_duplicates<H>(rs: Seq<RouteView<H>>) -> bool {
    forall|i: int, j: int|
        0 <= i < j < rs.len() && (#[trigger] rs[i]).verb == (#[trigger] rs[j]).verb ==> !same_pattern(
            rs[i].pattern,
            rs[j].pattern,
        )
}

/// A route of the table as a value.
pub struct RouteView<H> {
    pub verb: Method,
    pub pattern: Seq<SegView>,
    pub handler: H,
}

/// Route `i` is registered for `m` and some prefix of it accepts `url`.
pub open spec fn candidate<H>(rs: Seq<RouteView<H>>, i: int, m: Method, url: Seq<Seq<char>>) -> bool {
    0 <= i < rs.len() && rs[i].verb == m && matches_prefix(rs[i].pattern, url)
}

/// Route `i` is registered for `m` and accepts `url` whole.
pub open spec fn full_match<H>(rs: Seq<RouteView<H>>, i: int, m: Method, url: Seq<Seq<char>>) -> bool {
    candidate(rs, i, m, url) && rs[i].pattern.len() == url.len()
}

/// Route `i` accepts `url` whole and no candidate has a higher priority.
pub open spec fn winner<H>(rs: Seq<RouteView<H>>, i: int, m: Method, url: Seq<Seq<char>>) -> bool {
    &&& url.len() > 0
    &&& full_match(rs, i, m, url)
    &&& forall|j: int|
        candidate(rs, j, m, url) ==> lex_cmp(
            #[trigger] priority(rs[j].pattern, url.len()),
            priority(rs[i].pattern, url.len()),
        ) != Ordering::Greater
}

/// A route pattern for one method.
pub struct Endpoint {
    verb: Method,
    resource: Vec<URLSegment>,
}

impl Endpoint {
    pub closed spec fn spec_verb(&self) -> Method {
        self.verb
    }

    pub closed spec fn spec_pattern(&self) -> Seq<SegView> {
        seg_views(self.resource@)
    }

    /// The endpoint for `verb` and the template `resource`; fails with
    /// `InvalidEndpoint` where the template does not follow the grammar.
    pub fn new(verb: Method, resource: &str) -> (r: Result<Self, Error>)
        ensures
            r is Ok <==> template_of(resource@) is Some,
            r is Ok ==> r->Ok_0.spec_verb() == verb && r->Ok_0.spec_pattern() == template_of(
                resource@,
            ).unwrap(),
            r is Err ==> r->Err_0 is InvalidEndpoint,
    {
        if resource.is_empty() || !resource.is_ascii() {
            return Err(Error::InvalidEndpoint);
        }
        let b = ascii_bytes_of(resource);
        if b[0] != 47 {
            return Err(Error::InvalidEndpoint);
        }
        let rest = crate::text::slice_of(&b, 1, b.len());
        proof {
            assert(rest@ =~= b@.drop_first());
        }
        let pieces = split_bytes(&rest, 47);
        proof {
            assert('\0' <= resource@[0] <= '\u{7f}');
            assert(resource@[0] as u8 == 47);
            assert(resource@[0] == '/');
            assert(template_of(resource@) == segments_of_pieces(split_all(rest@, 47u8)));
        }
        let mut segs: Vec<URLSegment> = Vec::new();
        let mut i: usize = 0;
        while i < pieces.len()
            invariant
                0 <= i <= pieces@.len(),
                ascii_bytes(rest@),
                views(pieces@) == split_all(rest@, 47u8),
                template_of(resource@) == segments_of_pieces(split_all(rest@, 47u8)),
                segments_of_pieces(views(pieces@).subrange(0, i as int)) == Some(
                    seg_views(segs@),
                ),
            decreases pieces@.len() - i,
        {
            proof {
                assert(views(pieces@).subrange(0, i + 1).drop_last() =~= views(pieces@).subrange(
                    0,
                    i as int,
                ));
                lemma_split_ascii(rest@, 47u8, i as int);
            }
            proof {
                assert(views(pieces@)[i as int] == pieces@[i as int]@);
                assert(views(pieces@).subrange(0, i + 1).last() == pieces@[i as int]@);
            }
            match segment_from(&pieces[i]) {
                Some(s) => {
                    proof {
                        assert(seg_views(segs@.push(s)) =~= seg_views(segs@).push(s@));
                    }
                    segs.push(s);
                },
                None => {
                    proof {
                        assert(views(pieces@).subrange(0, i + 1).last() == pieces@[i as int]@);
                        lemma_pieces_none(views(pieces@), (i + 1) as int);
                        assert(views(pieces@).subrange(0, pieces@.len() as int) =~= views(
                            pieces@,
                        ));
                    }
                    return Err(Error::InvalidEndpoint);
                },
            }
            i = i + 1;
        }
        proof {
            assert(views(pieces@).subrange(0, pieces@.len() as int) =~= views(pieces@));
        }
        Ok(Endpoint { verb, resource: segs })
    }

    pub fn verb(&self) -> (r: Method)
        ensures
            r == self.spec_verb(),
    {
        self.verb
    }

    /// The pattern's segments.
    pub fn resource(&self) -> (r: &Vec<URLSegment>)
        ensures
            seg_views(r@) == self.spec_pattern(),
    {
        &self.resource
    }
}

proof fn lemma_split_ascii(s: Seq<u8>, d: u8, i: int)
    requires
        ascii_bytes(s),
        0 <= i < split_all(s, d).len(),
    ensures
        ascii_bytes(split_all(s, d)[i]),
    decreases s.len(),
{
    match find(s, seq![d]) {
        Some(j) => {
            if 0 <= j < s.len() {
                let rest = s.subrange(j + 1, s.len() as int);
                assert forall|k: int| 0 <= k < rest.len() implies #[trigger] rest[k] < 128 by {
                    assert(rest[k] == s[k + j + 1]);
                }
                if i > 0 {
                    lemma_split_ascii(rest, d, i - 1);
                } else {
                    let first = s.subrange(0, j);
                    assert forall|k: int| 0 <= k < first.len() implies #[trigger] first[k] < 128 by {
                        assert(first[k] == s[k]);
                    }
                }
            }
        },
        None => {},
    }
}

proof fn lemma_pieces_none(ps: Seq<Seq<u8>>, k: int)
    requires
        0 <= k <= ps.len(),
        segments_of_pieces(ps.subrange(0, k)) is None,
    ensures
        segments_of_pieces(ps) is None,
    decreases ps.len() - k,
{
    if k < ps.len() {
        assert(ps.subrange(0, k + 1).drop_last() =~= ps.subrange(0, k));
        lemma_pieces_none(ps, k + 1);
    } else {
        assert(ps.subrange(0, k) =~= ps);
    }
}

fn segment_from(p: &Vec<u8>) -> (r: Option<URLSegment>)
    requires
        ascii_bytes(p@),
    ensures
        r.is_some() == (segment_of(p@) is Some),
        r.is_some() ==> r.unwrap()@ == segment_of(p@).unwrap(),
{
    let n = p.len();
    if n == 0 {
        return None;
    }
    if p[0] != 60 {
        let whole = crate::text::slice_of(p, 0, n);
        proof {
            assert(whole@ =~= p@);
        }
        return Some(URLSegment::Static(ascii_string(whole)));
    }
    if n < 3 || p[n - 1] != 62 {
        return None;
    }
    let mut i: usize = 1;
    while i < n - 1
        invariant
            1 <= i <= n - 1,
            n == p@.len(),
            forall|k: int| 1 <= k < i ==> #[trigger] p@[k] != 60 && p@[k] != 62,
            p@.len() >= 3,
            p@[0] == 60,
        decreases n - i,
    {
        if p[i] == 60 || p[i] == 62 {
            proof {
                assert(!(p@[i as int] != 60 && p@[i as int] != 62));
                assert(1 <= i < p@.len() - 1);
            }
            return None;
        }
        i = i + 1;
    }
    let name = crate::text::slice_of(p, 1, n - 1);
    proof {
        assert(name@ == p@.subrange(1, p@.len() - 1));
        assert forall|k: int| 0 <= k < name@.len() implies #[trigger] name@[k] < 128 by {
            assert(name@[k] == p@[k + 1]);
        }
    }
    Some(URLSegment::Dynamic(ascii_string(name)))
}

/// Names bound by a match, each to the URL segment it captured.
#[derive(Debug)]
pub struct Bindings {
    entries: Vec<(String, String)>,
}

impl View for Bindings {
    type V = Seq<(Seq<char>, Seq<char>)>;

    closed spec fn view(&self) -> Seq<(Seq<char>, Seq<char>)> {
        pair_views(self.entries@)
    }
}

impl Bindings {
    pub fn new() -> (r: Self)
        ensures
            r@ == Seq::<(Seq<char>, Seq<char>)>::empty(),
    {
        let r = Bindings { entries: Vec::new() };
        assert(r@ =~= Seq::<(Seq<char>, Seq<char>)>::empty());
        r
    }

    /// Binds `name` to `value`, replacing an earlier value of `name`.
    pub fn insert(&mut self, name: &str, value: &str)
        ensures
            final(self)@ == put(old(self)@, name@, value@),
    {
        put_pair(&mut self.entries, String::from_str(name), String::from_str(value));
    }

    /// The value bound to `name`.
    pub fn get(&self, name: &str) -> (r: Option<&str>)
        ensures
            r.is_some() == (key_index_from(self@, name@, 0) is Some),
            r.is_some() ==> r.unwrap()@ == self@[key_index_from(self@, name@, 0).unwrap()].1,
    {
        let key = String::from_str(name);
        let mut i: usize = 0;
        while i < self.entries.len()
            invariant
                0 <= i <= self.entries@.len(),
                key@ == name@,
                key_index_from(self@, name@, 0) == key_index_from(self@, name@, i as int),
            decreases self.entries@.len() - i,
        {
            if self.entries[i].0 == key {
                return Some(self.entries[i].1.as_str());
            }
            i = i + 1;
        }
        None
    }

    /// Number of names bound.
    pub fn len(&self) -> (r: usize)
        ensures
            r == self@.len(),
    {
        self.entries.len()
    }
}

struct Route<H> {
    verb: Method,
    segments: Vec<URLSegment>,
    handler: H,
}

/// The route table: handlers registered by method and pattern.
pub struct Tree<H> {
    routes: Vec<Route<H>>,
}

impl<H> Tree<H> {
    /// The registered routes, in order of registration.
    pub closed spec fn spec_routes(&self) -> Seq<RouteView<H>> {
        self.routes@.map_values(
            |r: Route<H>| RouteView { verb: r.verb, pattern: seg_views(r.segments@), handler: r.handler },
        )
    }

    pub fn new() -> (r: Self)
        ensures
            r.spec_routes() == Seq::<RouteView<H>>::empty(),
            no_duplicates(r.spec_routes()),
    {
        let r = Tree { routes: Vec::new() };
        assert(r.spec_routes() =~= Seq::<RouteView<H>>::empty());
        r
    }

    /// Registers `handler` for the endpoint; fails with `DuplicateEndpoint`,
    /// leaving the table as it was, where a route of the same method has the
    /// same pattern.
    pub fn add(&mut self, endpoint: Endpoint, handler: H) -> (r: Result<(), Error>)
        ensures
            r is Err <==> exists|i: int|
                0 <= i < old(self).spec_routes().len() && (#[trigger] old(self).spec_routes()[i]).verb
                    == endpoint.spec_verb() && same_pattern(
                    old(self).spec_routes()[i].pattern,
                    endpoint.spec_pattern(),
                ),
            r is Err ==> r->Err_0 is DuplicateEndpoint && final(self).spec_routes() == old(
                self,
            ).spec_routes(),
            r is Ok ==> final(self).spec_routes() == old(self).spec_routes().push(
                RouteView {
                    verb: endpoint.spec_verb(),
                    pattern: endpoint.spec_pattern(),
                    handler,
                },
            ),
            no_duplicates(old(self).spec_routes()) ==> no_duplicates(final(self).spec_routes()),
    {
        let mut i: usize = 0;
        while i < self.routes.len()
            invariant
                0 <= i <= self.routes@.len(),
                self.spec_routes() == old(self).spec_routes(),
                forall|k: int|
                    0 <= k < i ==> !((#[trigger] self.spec_routes()[k]).verb == endpoint.spec_verb()
                        && same_pattern(self.spec_routes()[k].pattern, endpoint.spec_pattern())),
            decreases self.routes@.len() - i,
        {
            let r = &self.routes[i];
            if r.verb == endpoint.verb && same_segments(&r.segments, &endpoint.resource) {
                proof {
                    assert(self.spec_routes()[i as int].verb == endpoint.spec_verb());
                }
                return Err(Error::DuplicateEndpoint);
            }
            i = i + 1;
        }
        let ghost old_routes = self.spec_routes();
        self.routes.push(Route { verb: endpoint.verb, segments: endpoint.resource, handler });
        proof {
            let nr = RouteView {
                verb: endpoint.spec_verb(),
                pattern: endpoint.spec_pattern(),
                handler,
            };
            assert(self.spec_routes() =~= old_routes.push(nr));
            if no_duplicates(old_routes) {
                let rs = self.spec_routes();
                assert forall|i: int, j: int|
                    0 <= i < j < rs.len() && (#[trigger] rs[i]).verb == (#[trigger] rs[j]).verb implies !same_pattern(
                    rs[i].pattern,
                    rs[j].pattern,
                ) by {
                    if j == old_routes.len() {
                        assert(rs[i] == old_routes[i]);
                        assert(!(old_routes[i].verb == endpoint.spec_verb() && same_pattern(
                            old_routes[i].pattern,
                            endpoint.spec_pattern(),
                        )));
                    } else {
                        assert(rs[i] == old_routes[i] && rs[j] == old_routes[j]);
                    }
                }
            }
        }
        Ok(())
    }

    /// The handler that serves `method` on `url`, with the names its pattern
    /// binds. Among the routes of `method` some prefix of which accepts the
    /// URL's segments, the one of highest priority is chosen; it serves only
    /// where its whole pattern accepts them.
    pub fn find_match(&self, method: Method, url: &URL) -> (r: Option<(&H, Bindings)>)
        ensures
            r.is_some() <==> exists|i: int| winner(self.spec_routes(), i, method, url@.resource),
            r.is_some() ==> exists|i: int|
                winner(self.spec_routes(), i, method, url@.resource) && *r.unwrap().0
                    == (#[trigger] self.spec_routes()[i]).handler && r.unwrap().1@ == bind(
                    self.spec_routes()[i].pattern,
                    url@.resource,
                ),
    {
        let segs = url.resource();
        let n = segs.len();
        let ghost rs = self.spec_routes();
        let ghost u = url@.resource;
        if n == 0 {
            return None;
        }
        // the highest priority among the candidates
        let mut best: Option<BitVec> = None;
        let ghost mut best_i: int = 0;
        let mut i: usize = 0;
        while i < self.routes.len()
            invariant
                0 <= i <= self.routes@.len(),
                rs == self.spec_routes(),
                u == string_views(segs@),
                u == url@.resource,
                n == u.len(),
                n > 0,
                best.is_some() ==> candidate(rs, best_i, method, u) && bits_of(best.unwrap())
                    == priority(rs[best_i].pattern, n as nat),
                forall|k: int|
                    0 <= k < i && #[trigger] candidate(rs, k, method, u) ==> best.is_some()
                        && lex_cmp(priority(rs[k].pattern, n as nat), bits_of(best.unwrap()))
                        != Ordering::Greater,
            decreases self.routes@.len() - i,
        {
            let r = &self.routes[i];
            proof {
                assert(rs[i as int].pattern == seg_views(r.segments@));
                assert(rs[i as int].verb == r.verb);
            }
            if r.verb == method && r.segments.len() >= n && prefix_matches(&r.segments, segs) {
                let p = priority_bits(&r.segments, n);
                let better = match &best {
                    None => true,
                    Some(b) => match bits_cmp(&p, b) {
                        Ordering::Greater => true,
                        _ => false,
                    },
                };
                proof {
                    assert(candidate(rs, i as int, method, u));
                }
                if better {
                    proof {
                        assert forall|k: int|
                            0 <= k < i && #[trigger] candidate(rs, k, method, u) implies lex_cmp(
                            priority(rs[k].pattern, n as nat),
                            bits_of(p),
                        ) != Ordering::Greater by {
                            let bb = bits_of(best.unwrap());
                            lemma_lex_antisym(bits_of(p), bb);
                            lemma_lex_antisym(bb, bits_of(p));
                            lemma_lex_trans(priority(rs[k].pattern, n as nat), bb, bits_of(p));
                        }
                        best_i = i as int;
                    }
                    proof {
                        lemma_lex_antisym(bits_of(p), bits_of(p));
                    }
                    best = Some(p);
                } else {
                    proof {
                        let bb = bits_of(best.unwrap());
                        lemma_lex_antisym(bits_of(p), bb);
                    }
                }
            }
            i = i + 1;
        }
        let best = match best {
            None => {
                return None;
            },
            Some(b) => b,
        };
        // the route whose whole pattern accepts the URL with that priority
        let mut j: usize = 0;
        while j < self.routes.len()
            invariant
                0 <= j <= self.routes@.len(),
                rs == self.spec_routes(),
                u == string_views(segs@),
                u == url@.resource,
                n == u.len(),
                n > 0,
                candidate(rs, best_i, method, u),
                bits_of(best) == priority(rs[best_i].pattern, n as nat),
                forall|k: int|
                    #[trigger] candidate(rs, k, method, u) ==> lex_cmp(
                        priority(rs[k].pattern, n as nat),
                        bits_of(best),
                    ) != Ordering::Greater,
                forall|k: int|
                    0 <= k < j && #[trigger] full_match(rs, k, method, u) ==> priority(
                        rs[k].pattern,
                        n as nat,
                    ) != bits_of(best),
            decreases self.routes@.len() - j,
        {
            let r = &self.routes[j];
            proof {
                assert(rs[j as int].pattern == seg_views(r.segments@));
                assert(rs[j as int].verb == r.verb);
                assert(rs[j as int].handler == r.handler);
            }
            if r.verb == method && r.segments.len() == n && prefix_matches(&r.segments, segs) {
                let p = priority_bits(&r.segments, n);
                proof {
                    lemma_lex_antisym(bits_of(p), bits_of(best));
                }
                let equal = match bits_cmp(&p, &best) {
                    Ordering::Equal => true,
                    _ => false,
                };
                if equal {
                    let b = bind_segments(&r.segments, segs);
                    proof {
                        assert(full_match(rs, j as int, method, u));
                        assert(bits_of(p) == bits_of(best));
                        assert forall|k: int| #[trigger]
                            candidate(rs, k, method, u) implies lex_cmp(
                            priority(rs[k].pattern, u.len()),
                            priority(rs[j as int].pattern, u.len()),
                        ) != Ordering::Greater by {}
                        assert(winner(rs, j as int, method, u));
                        assert(b@ == bind(rs[j as int].pattern, u));
                        assert(winner(self.spec_routes(), j as int, method, url@.resource)
                            && r.handler == self.spec_routes()[j as int].handler && b@ == bind(
                            self.spec_routes()[j as int].pattern,
                            url@.resource,
                        ));
                    }
                    return Some((&r.handler, b));
                }
            }
            j = j + 1;
        }
        proof {
            assert forall|k: int| !winner(rs, k, method, u) by {
                if winner(rs, k, method, u) {
                    assert(candidate(rs, k, method, u));
                    assert(candidate(rs, best_i, method, u));
                    let pk = priority(rs[k].pattern, n as nat);
                    lemma_lex_antisym(pk, bits_of(best));
                    lemma_lex_antisym(bits_of(best), pk);
                    assert(full_match(rs, k, method, u));
                }
            }
        }
        None
    }
}

fn same_segment_exec(a: &URLSegment, b: &URLSegment) -> (r: bool)
    ensures
        r == same_segment(a@, b@),
{
    match (a, b) {
        (URLSegment::Static(x), URLSegment::Static(y)) => *x == *y,
        (URLSegment::Dynamic(_), URLSegment::Dynamic(_)) => true,
        _ => false,
    }
}

fn same_segments(a: &Vec<URLSegment>, b: &Vec<URLSegment>) -> (r: bool)
    ensures
        r == same_pattern(seg_views(a@), seg_views(b@)),
{
    if a.len() != b.len() {
        return false;
    }
    let mut i: usize = 0;
    while i < a.len()
        invariant
            0 <= i <= a@.len(),
            a@.len() == b@.len(),
            forall|k: int| 0 <= k < i ==> same_segment(#[trigger] seg_views(a@)[k], seg_views(b@)[k]),
        decreases a@.len() - i,
    {
        if !same_segment_exec(&a[i], &b[i]) {
            proof {
                assert(!same_segment(seg_views(a@)[i as int], seg_views(b@)[i as int]));
            }
            return false;
        }
        i = i + 1;
    }
    true
}

fn seg_matches_exec(s: &URLSegment, v: &String) -> (r: bool)
    ensures
        r == seg_matches(s@, v@),
{
    match s {
        URLSegment::Static(x) => *x == *v,
        URLSegment::Dynamic(_) => true,
    }
}

fn prefix_matches(p: &Vec<URLSegment>, url: &Vec<String>) -> (r: bool)
    requires
        url@.len() <= p@.len(),
    ensures
        r == matches_prefix(seg_views(p@), string_views(url@)),
{
    let mut i: usize = 0;
    while i < url.len()
        invariant
            0 <= i <= url@.len(),
            url@.len() <= p@.len(),
            forall|k: int|
                0 <= k < i ==> seg_matches(#[trigger] seg_views(p@)[k], string_views(url@)[k]),
        decreases url@.len() - i,
    {
        if !seg_matches_exec(&p[i], &url[i]) {
            proof {
                assert(!seg_matches(seg_views(p@)[i as int], string_views(url@)[i as int]));
            }
            return false;
        }
        i = i + 1;
    }
    true
}

fn priority_bits(p: &Vec<URLSegment>, n: usize) -> (r: BitVec)
    requires
        n <= p@.len(),
    ensures
        bits_of(r) == priority(seg_views(p@), n as nat),
{
    let mut v = bits_new();
    let mut i: usize = 0;
    while i < n
        invariant
            0 <= i <= n <= p@.len(),
            bits_of(v) == priority(seg_views(p@), i as nat),
        decreases n - i,
    {
        let is_static = match &p[i] {
            URLSegment::Static(_) => true,
            URLSegment::Dynamic(_) => false,
        };
        bits_push(&mut v, is_static);
        proof {
            assert(bits_of(v) =~= priority(seg_views(p@), (i + 1) as nat));
        }
        i = i + 1;
    }
    v
}

fn bind_segments(p: &Vec<URLSegment>, url: &Vec<String>) -> (r: Bindings)
    requires
        url@.len() <= p@.len(),
    ensures
        r@ == bind(seg_views(p@), string_views(url@)),
{
    let mut b = Bindings::new();
    let mut i: usize = 0;
    while i < url.len()
        invariant
            0 <= i <= url@.len(),
            url@.len() <= p@.len(),
            b@ == bind(seg_views(p@), string_views(url@).subrange(0, i as int)),
        decreases url@.len() - i,
    {
        proof {
            assert(string_views(url@).subrange(0, i + 1).drop_last() =~= string_views(
                url@,
            ).subrange(0, i as int));
        }
        match &p[i] {
            URLSegment::Dynamic(name) => {
                b.insert(name.as_str(), url[i].as_str());
            },
            URLSegment::Static(_) => {},
        }
        i = i + 1;
    }
    proof {
        assert(string_views(url@).subrange(0, url@.len() as int) =~= string_views(url@));
    }
    b
}

/// Where two routes of a method both accept a URL whole, the one whose
/// priority is lower, bit by bit from the first segment, is never chosen:
/// statics at earlier positions win, ties broken by later statics.
pub proof fn lemma_higher_priority_wins<H>(
    rs: Seq<RouteView<H>>,
    m: Method,
    url: Seq<Seq<char>>,
    i: int,
    j: int,
)
    requires
        full_match(rs, i, m, url),
        full_match(rs, j, m, url),
        lex_cmp(priority(rs[j].pattern, url.len()), priority(rs[i].pattern, url.len()))
            == Ordering::Greater,
    ensures
        !winner(rs, i, m, url),
{
    assert(candidate(rs, j, m, url));
}

proof fn lemma_all_set_is_top(a: Seq<bool>, b: Seq<bool>)
    requires
        a.len() == b.len(),
        forall|k: int| 0 <= k < b.len() ==> #[trigger] b[k],
    ensures
        lex_cmp(a, b) != Ordering::Greater,
    decreases a.len(),
{
    if a.len() > 0 {
        let bt = b.drop_first();
        assert forall|k: int| 0 <= k < bt.len() implies #[trigger] bt[k] by {
            assert(bt[k] == b[k + 1]);
        }
        assert(b[0]);
        lemma_all_set_is_top(a.drop_first(), bt);
    }
}

/// A route of only static segments that accepts a URL whole is chosen for
/// it: with `/a/<x>` and `/a/b` registered, `/a/b` serves the URL `/a/b`.
pub proof fn lemma_static_route_wins<H>(rs: Seq<RouteView<H>>, m: Method, url: Seq<Seq<char>>, j: int)
    requires
        url.len() > 0,
        full_match(rs, j, m, url),
        forall|k: int| 0 <= k < rs[j].pattern.len() ==> (#[trigger] rs[j].pattern[k]) is Static,
    ensures
        winner(rs, j, m, url),
        bind(rs[j].pattern, url) == Seq::<(Seq<char>, Seq<char>)>::empty(),
{
    lemma_static_binds_nothing(rs[j].pattern, url);
    let top = priority(rs[j].pattern, url.len());
    assert forall|k: int| 0 <= k < top.len() implies #[trigger] top[k] by {
        assert(rs[j].pattern[k] is Static);
    }
    assert forall|i: int| #[trigger] candidate(rs, i, m, url) implies lex_cmp(
        priority(rs[i].pattern, url.len()),
        top,
    ) != Ordering::Greater by {
        lemma_all_set_is_top(priority(rs[i].pattern, url.len()), top);
    }
}

proof fn lemma_static_binds_nothing(p: Seq<SegView>, url: Seq<Seq<char>>)
    requires
        url.len() <= p.len(),
        forall|k: int| 0 <= k < p.len() ==> (#[trigger] p[k]) is Static,
    ensures
        bind(p, url) == Seq::<(Seq<char>, Seq<char>)>::empty(),
    decreases url.len(),
{
    if url.len() > 0 {
        lemma_static_binds_nothing(p, url.drop_last());
        assert(p[url.len() - 1] is Static);
    }
}

/// In a table without duplicates at most one route is chosen for a URL: two
/// routes with equal priority that both accept it have the same pattern.
pub proof fn lemma_winner_unique<H>(
    rs: Seq<RouteView<H>>,
    m: Method,
    url: Seq<Seq<char>>,
    i: int,
    j: int,
)
    requires
        no_duplicates(rs),
        winner(rs, i, m, url),
        winner(rs, j, m, url),
    ensures
        i == j,
{
    let n = url.len();
    let pi = priority(rs[i].pattern, n);
    let pj = priority(rs[j].pattern, n);
    assert(candidate(rs, i, m, url) && candidate(rs, j, m, url));
    lemma_lex_antisym(pi, pj);
    lemma_lex_antisym(pj, pi);
    assert(pi == pj);
    if i != j {
        assert forall|k: int| 0 <= k < rs[i].pattern.len() implies same_segment(
            #[trigger] rs[i].pattern[k],
            rs[j].pattern[k],
        ) by {
            assert(pi[k] == pj[k]);
            assert(seg_matches(rs[i].pattern[k], url[k]));
            assert(seg_matches(rs[j].pattern[k], url[k]));
        }
        if i < j {
            assert(!same_pattern(rs[i].pattern, rs[j].pattern));
        } else {
            assert(!same_pattern(rs[j].pattern, rs[i].pattern));
            assert forall|k: int| 0 <= k < rs[j].pattern.len() implies same_segment(
                #[trigger] rs[j].pattern[k],
                rs[i].pattern[k],
            ) by {
                assert(same_segment(rs[i].pattern[k], rs[j].pattern[k]));
            }
        }
    }
}

/// Registering a second pattern for a method that differs from the first only
/// in the names of its dynamic segments fails: `add` then finds the first
/// route among those it checks.
pub proof fn lemma_duplicate_registration<H>(
    rs: Seq<RouteView<H>>,
    verb: Method,
    first: Seq<SegView>,
    second: Seq<SegView>,
    handler: H,
)
    requires
        same_pattern(first, second),
    ensures
        exists|i: int|
            0 <= i < rs.push(RouteView { verb, pattern: first, handler }).len() && (#[trigger] rs.push(
                RouteView { verb, pattern: first, handler },
            )[i]).verb == verb && same_pattern(
                rs.push(RouteView { verb, pattern: first, handler })[i].pattern,
                second,
            ),
{
    let rs2 = rs.push(RouteView { verb, pattern: first, handler });
    assert(rs2[rs.len() as int].pattern == first);
}

/// Where every route of a method whose prefix accepts a URL has that prefix
/// registered for the method as a pattern of its own, the route that accepts
/// the URL whole with the greatest priority (statics at earlier positions
/// first) is chosen.
pub proof fn lemma_greatest_priority_wins<H>(
    rs: Seq<RouteView<H>>,
    m: Method,
    url: Seq<Seq<char>>,
    w: int,
)
    requires
        url.len() > 0,
        full_match(rs, w, m, url),
        forall|i: int|
            #[trigger] candidate(rs, i, m, url) ==> exists|j: int|
                full_match(rs, j, m, url) && same_pattern(
                    #[trigger] rs[j].pattern,
                    rs[i].pattern.subrange(0, url.len() as int),
                ),
        forall|j: int|
            #[trigger] full_match(rs, j, m, url) ==> lex_cmp(
                priority(rs[j].pattern, url.len()),
                priority(rs[w].pattern, url.len()),
            ) != Ordering::Greater,
    ensures
        winner(rs, w, m, url),
{
    let n = url.len();
    assert forall|i: int| #[trigger] candidate(rs, i, m, url) implies lex_cmp(
        priority(rs[i].pattern, n),
        priority(rs[w].pattern, n),
    ) != Ordering::Greater by {
        let j = choose|j: int|
            full_match(rs, j, m, url) && same_pattern(
                #[trigger] rs[j].pattern,
                rs[i].pattern.subrange(0, n as int),
            );
        let pre = rs[i].pattern.subrange(0, n as int);
        assert forall|k: int| 0 <= k < n implies priority(rs[i].pattern, n)[k] == priority(
            rs[j].pattern,
            n,
        )[k] by {
            assert(same_segment(rs[j].pattern[k], pre[k]));
            assert(pre[k] == rs[i].pattern[k]);
        }
        assert(priority(rs[i].pattern, n) =~= priority(rs[j].pattern, n));
    }
}

/// The name of a dynamic segment.
pub open spec fn dyn_name(s: SegView) -> Seq<char> {
    match s {
        SegView::Dynamic(n) => n,
        SegView::Static(t) => t,
    }
}

/// No two dynamic segments of `p` share a name.
pub open spec fn distinct_names(p: Seq<SegView>) -> bool {
    forall|i: int, j: int|
        0 <= i < j < p.len() && (#[trigger] p[i]) is Dynamic && (#[trigger] p[j]) is Dynamic
            ==> dyn_name(p[i]) != dyn_name(p[j])
}

/// One `(name, segment)` pair for each dynamic segment of `p`, in order.
pub open spec fn dynamic_pairs(p: Seq<SegView>, url: Seq<Seq<char>>) -> Seq<
    (Seq<char>, Seq<char>),
>
    decreases url.len(),
{
    if url.len() == 0 {
        seq![]
    } else {
        let ps = dynamic_pairs(p, url.drop_last());
        match p[url.len() - 1] {
            SegView::Dynamic(name) => ps.push((name, url.last())),
            SegView::Static(_) => ps,
        }
    }
}

proof fn lemma_pairs_keys(p: Seq<SegView>, url: Seq<Seq<char>>, k: int)
    requires
        url.len() <= p.len(),
        0 <= k < dynamic_pairs(p, url).len(),
    ensures
        exists|i: int|
            0 <= i < url.len() && (#[trigger] p[i]) is Dynamic && dyn_name(p[i])
                == dynamic_pairs(p, url)[k].0,
    decreases url.len(),
{
    let ps = dynamic_pairs(p, url.drop_last());
    let i = url.len() - 1;
    if k < ps.len() {
        lemma_pairs_keys(p, url.drop_last(), k);
        let w = choose|w: int|
            0 <= w < url.drop_last().len() && (#[trigger] p[w]) is Dynamic && dyn_name(p[w])
                == ps[k].0;
        assert(p[w] is Dynamic);
    } else {
        assert(p[i] is Dynamic);
    }
}

proof fn lemma_key_absent(ps: Seq<(Seq<char>, Seq<char>)>, key: Seq<char>, i: int)
    requires
        0 <= i <= ps.len(),
        forall|k: int| 0 <= k < ps.len() ==> (#[trigger] ps[k]).0 != key,
    ensures
        key_index_from(ps, key, i) is None,
    decreases ps.len() - i,
{
    if i < ps.len() {
        lemma_key_absent(ps, key, i + 1);
    }
}

/// The bindings of a match of a pattern whose dynamic names are distinct hold
/// exactly one entry for each dynamic segment, in order, naming it and
/// holding the URL segment at its position as it stands.
pub proof fn lemma_bindings_complete(p: Seq<SegView>, url: Seq<Seq<char>>)
    requires
        url.len() <= p.len(),
        distinct_names(p),
    ensures
        bind(p, url) == dynamic_pairs(p, url),
    decreases url.len(),
{
    if url.len() > 0 {
        lemma_bindings_complete(p, url.drop_last());
        let i = url.len() - 1;
        let ps = dynamic_pairs(p, url.drop_last());
        match p[i] {
            SegView::Dynamic(name) => {
                assert forall|k: int| 0 <= k < ps.len() implies (#[trigger] ps[k]).0 != name by {
                    lemma_pairs_keys(p, url.drop_last(), k);
                    let w = choose|w: int|
                        0 <= w < url.drop_last().len() && (#[trigger] p[w]) is Dynamic
                            && dyn_name(p[w]) == ps[k].0;
                    assert(w < i);
                    assert(p[i] is Dynamic);
                    assert(dyn_name(p[w]) != dyn_name(p[i]));
                }
                lemma_key_absent(ps, name, 0);
            },
            SegView::Static(_) => {},
        }
    }
}

} // verus!
