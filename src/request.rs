//! The outgoing request and its wire encoding.
use vstd::prelude::*;
use crate::error::RequestError;
use crate::header_map::{Pairs, pairs_to_map, pairs_view, keys_unique, has_key, pairs_insert, pairs_remove, pairs_get, find_key, insert_pair, remove_pair};
use crate::response::header_lines;
use crate::text::{lower_of, to_lowercase, decimal, decimal_of};
use crate::url::{UrlParts, UrlPartsView, url_parts_of, parse_url, url_parse_safe, url_parse_safe_exec};

verus! {

#[derive(Debug, Clone, Copy, PartialEq, Eq, Structural)]
pub enum RequestMethod {
    GET,
    POST,
}

pub ghost struct RequestView {
    pub url: Seq<char>,
    pub method: RequestMethod,
    pub headers: Pairs,
    pub body: Seq<char>,
}

pub struct Request {
    url: String,
    method: RequestMethod,
    headers: Vec<(String, String)>,
    body: String,
}

impl View for Request {
    type V = RequestView;

    closed spec fn view(&self) -> RequestView {
        RequestView {
            url: self.url@,
            method: self.method,
            headers: pairs_view(self.headers@),
            body: self.body@,
        }
    }
}

/// The method token that opens the request line, with its space.
pub open spec fn method_token(m: RequestMethod) -> Seq<char> {
    match m {
        RequestMethod::GET => "GET "@,
        RequestMethod::POST => "POST "@,
    }
}

/// The path segments joined with `/`.
pub open spec fn join_of(segs: Seq<Seq<char>>) -> Seq<char>
    decreases segs.len(),
{
    if segs.len() == 0 {
        Seq::empty()
    } else if segs.len() == 1 {
        segs[0]
    } else {
        join_of(segs.drop_last()) + "/"@ + segs.last()
    }
}

/// The request path: the joined segments, or `/` when that is empty.
pub open spec fn path_of(u: UrlPartsView) -> Seq<char> {
    let p = match u.path {
        Some(segs) => join_of(segs),
        None => Seq::empty(),
    };
    if p.len() == 0 {
        "/"@
    } else {
        p
    }
}

/// The headers that go on the wire: a `content-length` header with the body's
/// length in bytes is added when none is there.
pub open spec fn wire_headers(h: Pairs, body: Seq<char>) -> Pairs {
    if has_key(h, "content-length"@) {
        h
    } else {
        pairs_insert(h, "content-length"@, decimal_of(vstd::utf8::encode_utf8(body).len() as usize as nat))
    }
}

/// The request on the wire.
pub open spec fn request_text_of(r: RequestView, path: Seq<char>) -> Seq<char> {
    method_token(r.method) + path + " HTTP/1.1\r\n"@ + header_lines(wire_headers(r.headers, r.body))
        + "\r\n"@ + r.body
}

/// The `host:port` target that a name lookup needs, when the URL has all
/// of subdomain, domain, top-level domain and port.
pub open spec fn dns_target_of(u: UrlPartsView) -> Option<Seq<char>> {
    match (u.subdomain, u.domain, u.top_level_domain, u.port) {
        (Some(s), Some(d), Some(t), Some(p)) => Some(
            s + "."@ + d + "."@ + t + ":"@ + decimal_of(p as nat),
        ),
        _ => None,
    }
}

fn join_path(segs: &Vec<String>) -> (r: String)
    ensures
        r@ == join_of(crate::url::texts(segs@)),
{
    proof {
        reveal_strlit("/");
    }
    let ghost t = crate::url::texts(segs@);
    let mut out = String::new();
    let mut i: usize = 0;
    while i < segs.len()
        invariant
            i <= segs@.len(),
            t == crate::url::texts(segs@),
            out@ == join_of(t.subrange(0, i as int)),
        decreases segs@.len() - i,
    {
        assert(t.subrange(0, i + 1).drop_last() =~= t.subrange(0, i as int));
        if i > 0 {
            out.append("/");
        }
        out.append(segs[i].as_str());
        proof {
            if i == 0 {
                assert(out@ =~= join_of(t.subrange(0, 1)));
            } else {
                assert(out@ =~= join_of(t.subrange(0, i + 1)));
            }
        }
        i = i + 1;
    }
    assert(t.subrange(0, i as int) =~= t);
    out
}

/// Request header keys are stored in lowercase: two keys that differ only in
/// letter case (`Content-Length`, `content-length`) land on one entry, which
/// holds the value added last.
pub proof fn lemma_case_variants_share_entry(h: Pairs, k1: Seq<char>, k2: Seq<char>, v1: Seq<char>, v2: Seq<char>)
    requires
        keys_unique(h),
        lower_of(k1) == lower_of(k2),
    ensures
        ({
            let once = pairs_insert(h, lower_of(k1), v1);
            let twice = pairs_insert(once, lower_of(k2), v2);
            &&& twice.len() == once.len()
            &&& pairs_get(twice, lower_of(k1)) == Some(v2)
            &&& pairs_to_map(twice) == pairs_to_map(h).insert(lower_of(k1), v2)
            &&& keys_unique(twice)
        }),
{
    crate::header_map::lemma_insert_twice_one_entry(h, lower_of(k1), v1, v2);
    crate::header_map::lemma_insert_map(h, lower_of(k1), v1);
    crate::header_map::lemma_insert_map(pairs_insert(h, lower_of(k1), v1), lower_of(k1), v2);
}

fn dns_target_with(u: &UrlParts) -> (r: Option<String>)
    ensures
        crate::url::opt_text(r) == dns_target_of(u@),
{
    proof {
        reveal_strlit(".");
        reveal_strlit(":");
    }
    match (&u.subdomain, &u.domain, &u.top_level_domain, u.port) {
        (Some(s), Some(d), Some(t), Some(p)) => {
            let mut out = s.clone();
            out.append(".");
            out.append(d.as_str());
            out.append(".");
            out.append(t.as_str());
            out.append(":");
            let port = decimal(p as u64);
            out.append(port.as_str());
            Some(out)
        },
        _ => None,
    }
}

fn copy_pairs(v: &Vec<(String, String)>) -> (r: Vec<(String, String)>)
    ensures
        pairs_view(r@) == pairs_view(v@),
{
    let mut out: Vec<(String, String)> = Vec::new();
    let mut i: usize = 0;
    while i < v.len()
        invariant
            i <= v@.len(),
            out@.len() == i,
            forall|j: int| 0 <= j < i ==> (#[trigger] out@[j]).0@ == v@[j].0@ && out@[j].1@ == v@[j].1@,
        decreases v@.len() - i,
    {
        let k = v[i].0.clone();
        let x = v[i].1.clone();
        out.push((k, x));
        i = i + 1;
    }
    assert(pairs_view(out@) =~= pairs_view(v@));
    out
}

fn request_path(u: &UrlParts) -> (r: String)
    ensures
        r@ == path_of(u@),
{
    proof {
        reveal_strlit("/");
    }
    let p = match &u.path {
        Some(segs) => join_path(segs),
        None => String::new(),
    };
    if p.as_str().is_empty() {
        String::from_str("/")
    } else {
        p
    }
}

impl Request {
    pub fn new(url: &str, method: RequestMethod) -> (r: Self)
        ensures
            r@ == (RequestView { url: url@, method, headers: Seq::empty(), body: Seq::empty() }),
            keys_unique(r@.headers),
    {
        let r = Request { url: String::from_str(url), method, headers: Vec::new(), body: String::new() };
        assert(pairs_view(r.headers@) =~= Seq::empty());
        r
    }

    /// Stores `val` under the lowercase form of `key`; a later value for
    /// the same lowercase key replaces the earlier one.
    pub fn add_header(&mut self, key: &str, val: &str)
        requires
            keys_unique(old(self)@.headers),
        ensures
            final(self)@ == (RequestView {
                headers: pairs_insert(old(self)@.headers, lower_of(key@), val@),
                ..old(self)@
            }),
            keys_unique(final(self)@.headers),
    {
        let k = to_lowercase(key);
        insert_pair(&mut self.headers, k, String::from_str(val));
    }

    /// Removes the header stored under exactly `key`.
    pub fn remove_header(&mut self, key: String)
        requires
            keys_unique(old(self)@.headers),
        ensures
            final(self)@ == (RequestView { headers: pairs_remove(old(self)@.headers, key@), ..old(self)@ }),
            keys_unique(final(self)@.headers),
    {
        let _ = remove_pair(&mut self.headers, &key);
    }

    pub fn set_body(&mut self, value: String)
        ensures
            final(self)@ == (RequestView { body: value@, ..old(self)@ }),
    {
        self.body = value;
    }

    pub fn get_header(&self, key: &str) -> (r: Option<&String>)
        requires
            keys_unique(self@.headers),
        ensures
            r matches Some(v) ==> pairs_get(self@.headers, key@) == Some(v@),
            r is None ==> pairs_get(self@.headers, key@) is None,
    {
        let k = String::from_str(key);
        match find_key(&self.headers, &k) {
            Some(i) => {
                assert(pairs_view(self.headers@)[i as int].0 == key@);
                assert(crate::header_map::key_index(self@.headers, key@) == i as int);
                Some(&self.headers[i].1)
            },
            None => None,
        }
    }

    /// The request text for the given URL parts.
    pub fn encode_with(&self, u: &UrlParts) -> (r: String)
        requires
            keys_unique(self@.headers),
        ensures
            r@ == request_text_of(self@, path_of(u@)),
    {
        proof {
            reveal_strlit("GET ");
            reveal_strlit("POST ");
            reveal_strlit(" HTTP/1.1\r\n");
            reveal_strlit(": ");
            reveal_strlit("\r\n");
            reveal_strlit("content-length");
        }
        let mut out = match self.method {
            RequestMethod::GET => String::from_str("GET "),
            RequestMethod::POST => String::from_str("POST "),
        };
        let path = request_path(u);
        out.append(path.as_str());
        out.append(" HTTP/1.1\r\n");
        let mut headers = copy_pairs(&self.headers);
        let cl_key = String::from_str("content-length");
        match find_key(&headers, &cl_key) {
            None => {
                let n = self.body.as_str().len();
                let d = decimal(n as u64);
                assert(d@ == decimal_of(vstd::utf8::encode_utf8(self@.body).len() as usize as nat));
                insert_pair(&mut headers, cl_key, d);
            },
            Some(i) => {
                assert(pairs_view(headers@)[i as int].0 == "content-length"@);
            },
        }
        let ghost h = pairs_view(headers@);
        assert(h == wire_headers(self@.headers, self@.body));
        let ghost head = out@;
        let mut i: usize = 0;
        while i < headers.len()
            invariant
                i <= headers@.len(),
                h == pairs_view(headers@),
                out@ == head + header_lines(h.subrange(0, i as int)),
            decreases headers@.len() - i,
        {
            assert(h.subrange(0, i + 1).drop_last() =~= h.subrange(0, i as int));
            out.append(headers[i].0.as_str());
            out.append(": ");
            out.append(headers[i].1.as_str());
            out.append("\r\n");
            assert(out@ =~= head + header_lines(h.subrange(0, i + 1)));
            i = i + 1;
        }
        assert(h.subrange(0, i as int) =~= h);
        out.append("\r\n");
        out.append(self.body.as_str());
        assert(out@ =~= request_text_of(self@, path_of(u@)));
        out
    }

    /// The `host:port` text to look up for this request's URL. A URL
    /// outside the shape the URL parser is known to handle is refused.
    pub fn dns_target(&self) -> (r: Result<String, RequestError>)
        ensures
            !url_parse_safe(self@.url) ==> r == Err::<String, RequestError>(RequestError::ParseUrlError),
            url_parse_safe(self@.url) ==> match url_parts_of(self@.url) {
                Some(u) => match dns_target_of(u) {
                    Some(t) => r matches Ok(s) && s@ == t,
                    None => r == Err::<String, RequestError>(RequestError::ParseUrlError),
                },
                None => r == Err::<String, RequestError>(RequestError::ParseUrlError),
            },
    {
        if !url_parse_safe_exec(self.url.as_str()) {
            return Err(RequestError::ParseUrlError);
        }
        match parse_url(self.url.as_str()) {
            Some(u) => match dns_target_with(&u) {
                Some(t) => Ok(t),
                None => Err(RequestError::ParseUrlError),
            },
            None => Err(RequestError::ParseUrlError),
        }
    }

    /// The request text: the URL is parsed for its path first. A URL
    /// outside the shape the URL parser is known to handle is refused.
    pub fn encode(&self) -> (r: Result<String, RequestError>)
        requires
            keys_unique(self@.headers),
        ensures
            !url_parse_safe(self@.url) ==> r == Err::<String, RequestError>(RequestError::ParseUrlError),
            url_parse_safe(self@.url) ==> match url_parts_of(self@.url) {
                Some(u) => r matches Ok(s) && s@ == request_text_of(self@, path_of(u)),
                None => r == Err::<String, RequestError>(RequestError::ParseUrlError),
            },
    {
        if !url_parse_safe_exec(self.url.as_str()) {
            return Err(RequestError::ParseUrlError);
        }
        match parse_url(self.url.as_str()) {
            Some(u) => Ok(self.encode_with(&u)),
            None => Err(RequestError::ParseUrlError),
        }
    }
}

} // verus!
