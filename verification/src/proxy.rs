//! The caching proxy's decisions: which hosts are blacklisted, what each
//! request is answered or forwarded to, and the journal of forwarded
//! requests.

use vstd::prelude::*;
use crate::text::{chars_of, first_index, lemma_first_index, split_on, split_chars, range_pieces, string_of};

verus! {

/// The views of some strings.
pub open spec fn string_views(v: Seq<String>) -> Seq<Seq<char>> {
    v.map_values(|s: String| s@)
}

/// The state of the proxy: the journal of forwarded requests (URI and
/// status), the cache, and the blacklisted hosts.
pub struct State {
    journal: Vec<(String, String)>,
    cache: Vec<String>,
    blacklist: Vec<String>,
}

/// The host a request path names: the piece after its first `/`.
pub open spec fn path_host(path: Seq<char>) -> Seq<char> {
    split_on(path, '/')[1]
}

/// The first `x` of `s` is at `i` when `s[i]` is `x` and no earlier element is.
proof fn lemma_first_index_at<A>(s: Seq<A>, x: A, i: int)
    requires
        0 <= i < s.len(),
        s[i] == x,
        forall|j: int| 0 <= j < i ==> s[j] != x,
    ensures
        first_index(s, x) == Some(i),
{
    lemma_first_index(s, x);
}

/// The host of a request path is what follows its first `/`, up to the
/// next `/` where there is one and up to the end where there is none.
pub proof fn lemma_path_host(pre: Seq<char>, h: Seq<char>, rest: Seq<char>)
    requires
        !pre.contains('/'),
        !h.contains('/'),
    ensures
        path_host(pre + seq!['/'] + h) == h,
        path_host(pre + seq!['/'] + h + seq!['/'] + rest) == h,
{
    assert forall|j: int| 0 <= j < pre.len() implies pre[j] != '/' by {
        if pre[j] == '/' {
            assert(pre.contains(pre[j]));
        }
    }
    let s1 = pre + seq!['/'] + h;
    assert forall|j: int| 0 <= j < pre.len() implies s1[j] != '/' by {
        assert(s1[j] == pre[j]);
    }
    lemma_first_index_at(s1, '/', pre.len() as int);
    assert(s1.skip(pre.len() as int + 1) =~= h);
    lemma_first_index(h, '/');
    if first_index(h, '/') is Some {
        let i = first_index(h, '/')->Some_0;
        assert(h.contains(h[i]));
    }
    assert(split_on(h, '/') == seq![h]);
    assert(split_on(s1, '/') == seq![s1.take(pre.len() as int)] + split_on(s1.skip(pre.len() as int + 1), '/'));
    assert(split_on(s1, '/')[1] == h);

    let s2 = pre + seq!['/'] + h + seq!['/'] + rest;
    let t = h + seq!['/'] + rest;
    assert forall|j: int| 0 <= j < pre.len() implies s2[j] != '/' by {
        assert(s2[j] == pre[j]);
    }
    lemma_first_index_at(s2, '/', pre.len() as int);
    assert(s2.skip(pre.len() as int + 1) =~= t);
    assert forall|j: int| 0 <= j < h.len() implies t[j] != '/' by {
        assert(t[j] == h[j]);
        if h[j] == '/' {
            assert(h.contains(h[j]));
        }
    }
    lemma_first_index_at(t, '/', h.len() as int);
    assert(t.take(h.len() as int) =~= h);
    assert(split_on(t, '/') == seq![t.take(h.len() as int)] + split_on(t.skip(h.len() as int + 1), '/'));
    assert(split_on(s2, '/') == seq![s2.take(pre.len() as int)] + split_on(s2.skip(pre.len() as int + 1), '/'));
    assert(split_on(s2, '/')[1] == h);
}

/// What the proxy does with a request.
#[derive(Debug, Clone, PartialEq, Eq)]
pub enum Decision {
    /// Answer 403 with the body `host is blacklisted!`.
    Forbidden,
    /// Answer 404 with an empty body.
    NotFound,
    /// Forward the request to this URL and answer what it answers.
    Forward(String),
}

/// The body of the answer to a request for a blacklisted host.
pub fn forbidden_body() -> (body: String)
    ensures
        body@ == "host is blacklisted!"@,
{
    String::from_str("host is blacklisted!")
}

impl State {
    /// Nothing is blacklisted twice.
    #[verifier::type_invariant]
    spec fn distinct_hosts(self) -> bool {
        string_views(self.blacklist@).no_duplicates()
    }

    /// The blacklisted hosts.
    pub closed spec fn blacklisted(&self) -> Set<Seq<char>> {
        string_views(self.blacklist@).to_set()
    }

    /// The journal: the URI and status of each forwarded request, in order.
    pub closed spec fn requests(&self) -> Seq<(Seq<char>, Seq<char>)> {
        self.journal@.map_values(|e: (String, String)| (e.0@, e.1@))
    }

    /// The cached entries.
    pub closed spec fn cached(&self) -> Set<Seq<char>> {
        string_views(self.cache@).to_set()
    }

    /// An empty journal and cache, and the given hosts blacklisted.
    pub fn new(blacklist: Vec<String>) -> (s: Self)
        ensures
            s.blacklisted() == string_views(blacklist@).to_set(),
            s.requests() == Seq::<(Seq<char>, Seq<char>)>::empty(),
            s.cached() == Set::<Seq<char>>::empty(),
    {
        let mut hosts: Vec<String> = Vec::new();
        let mut i: usize = 0;
        while i < blacklist.len()
            invariant
                i <= blacklist@.len(),
                string_views(hosts@).no_duplicates(),
                string_views(hosts@).to_set() == string_views(blacklist@.take(i as int)).to_set(),
            decreases blacklist@.len() - i,
        {
            let ghost before = hosts@;
            assert(string_views(blacklist@.take(i + 1)) =~= string_views(blacklist@.take(i as int)).push(blacklist@[i as int]@));
            let ghost x = blacklist@[i as int]@;
            proof {
                string_views(blacklist@.take(i as int)).lemma_push_to_set_commute(x);
            }
            if !contains(&hosts, &blacklist[i]) {
                hosts.push(blacklist[i].clone());
                assert(string_views(hosts@) =~= string_views(before).push(x));
                proof {
                    string_views(before).lemma_push_to_set_commute(x);
                }
            } else {
                assert(string_views(before).to_set().contains(x));
                assert(string_views(hosts@).to_set() =~= string_views(before).to_set().insert(x));
            }
            i = i + 1;
        }
        assert(blacklist@.take(blacklist@.len() as int) =~= blacklist@);
        let s = State { journal: Vec::new(), cache: Vec::new(), blacklist: hosts };
        assert(s.requests() =~= Seq::<(Seq<char>, Seq<char>)>::empty());
        assert(s.cached() =~= Set::<Seq<char>>::empty());
        s
    }

    /// Records a forwarded request with the status it was answered.
    pub fn add_request(&mut self, uri: String, status: String)
        ensures
            final(self).requests() == old(self).requests().push((uri@, status@)),
            final(self).blacklisted() == old(self).blacklisted(),
            final(self).cached() == old(self).cached(),
    {
        proof {
            use_type_invariant(&*self);
        }
        let ghost entry = (uri@, status@);
        let mut journal: Vec<(String, String)> = Vec::new();
        std::mem::swap(&mut journal, &mut self.journal);
        journal.push((uri, status));
        std::mem::swap(&mut journal, &mut self.journal);
        assert(final(self).requests() =~= old(self).requests().push(entry));
    }

    /// Whether the host of the request path is not blacklisted.
    pub fn is_allowed(&self, path: &str) -> (allowed: bool)
        requires
            split_on(path@, '/').len() >= 2,
        ensures
            allowed == !self.blacklisted().contains(path_host(path@)),
    {
        let chars = chars_of(path);
        let pieces = split_chars(chars.as_slice(), '/');
        assert(range_pieces(chars@, pieces@)[1] == chars@.subrange(pieces@[1].0 as int, pieces@[1].1 as int));
        let (a, b) = pieces[1];
        let host = string_of(&chars, a, b);
        !contains(&self.blacklist, &host)
    }

    /// What to do with a request: refuse a blacklisted host, answer 404 to
    /// `/favicon.ico`, and forward anything else to `http:/` and its URI.
    pub fn decide(&self, path: &str, uri: &str) -> (d: Decision)
        requires
            split_on(path@, '/').len() >= 2,
        ensures
            self.blacklisted().contains(path_host(path@)) ==> d == Decision::Forbidden,
            !self.blacklisted().contains(path_host(path@)) && path@ == "/favicon.ico"@ ==> d == Decision::NotFound,
            !self.blacklisted().contains(path_host(path@)) && path@ != "/favicon.ico"@ ==> (d matches Decision::Forward(url) && url@ == "http:/"@ + uri@),
    {
        if !self.is_allowed(path) {
            return Decision::Forbidden;
        }
        let favicon = String::from_str("/favicon.ico");
        let p = String::from_str(path);
        if p == favicon {
            Decision::NotFound
        } else {
            let mut url = String::from_str("http:/");
            url.append(uri);
            Decision::Forward(url)
        }
    }
}

/// Whether `s` is among `v`.
fn contains(v: &Vec<String>, s: &String) -> (found: bool)
    ensures
        found == string_views(v@).contains(s@),
{
    let mut i: usize = 0;
    while i < v.len()
        invariant
            i <= v@.len(),
            forall|j: int| 0 <= j < i ==> v@[j]@ != s@,
        decreases v@.len() - i,
    {
        if v[i] == *s {
            assert(string_views(v@)[i as int] == s@);
            return true;
        }
        i = i + 1;
    }
    assert forall|j: int| 0 <= j < string_views(v@).len() implies string_views(v@)[j] != s@ by {
        assert(string_views(v@)[j] == v@[j]@);
    }
    false
}

} // verus!
