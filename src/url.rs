//! The parts of a URL that a request needs, as the URL parser gives them.
use vstd::prelude::*;
use crate::text::str_eq;

verus! {

pub struct UrlParts {
    pub subdomain: Option<String>,
    pub domain: Option<String>,
    pub top_level_domain: Option<String>,
    pub port: Option<u32>,
    pub path: Option<Vec<String>>,
}

pub ghost struct UrlPartsView {
    pub subdomain: Option<Seq<char>>,
    pub domain: Option<Seq<char>>,
    pub top_level_domain: Option<Seq<char>>,
    pub port: Option<u32>,
    pub path: Option<Seq<Seq<char>>>,
}

pub open spec fn opt_text(o: Option<String>) -> Option<Seq<char>> {
    match o {
        Some(s) => Some(s@),
        None => None,
    }
}

pub open spec fn texts(v: Seq<String>) -> Seq<Seq<char>> {
    v.map_values(|s: String| s@)
}

impl View for UrlParts {
    type V = UrlPartsView;

    open spec fn view(&self) -> UrlPartsView {
        UrlPartsView {
            subdomain: opt_text(self.subdomain),
            domain: opt_text(self.domain),
            top_level_domain: opt_text(self.top_level_domain),
            port: self.port,
            path: match self.path {
                Some(p) => Some(texts(p@)),
                None => None,
            },
        }
    }
}

/// The first position at or after `from` that holds `c`, or the end.
pub open spec fn index_of(s: Seq<char>, c: char, from: int) -> int
    decreases s.len() - from,
{
    if 0 <= from < s.len() && s[from] != c {
        index_of(s, c, from + 1)
    } else {
        from
    }
}

pub open spec fn free_of(s: Seq<char>, c: char) -> bool {
    forall|i: int| 0 <= i < s.len() ==> s[i] != c
}

pub open spec fn all_ascii(s: Seq<char>) -> bool {
    forall|i: int| 0 <= i < s.len() ==> (s[i] as u32) < 128
}

/// A URL with an explicit port on which the URL parser is known to return:
/// `scheme://host:port` and an optional `/path`, in ASCII, where the scheme
/// has no `:` or `#`; the host is not empty, does not start with a digit,
/// holds a `.` and no `/`, `@` or `#`; the port is one to nine digits; and the
/// path holds no `:`, `@` or `#`.
pub open spec fn url_with_port_safe(u: Seq<char>) -> bool {
    let i = index_of(u, ':', 0);
    let j = index_of(u, ':', i + 3);
    let k = index_of(u, '/', j + 1);
    let scheme = u.subrange(0, i);
    let host = u.subrange(i + 3, j);
    let port = u.subrange(j + 1, k);
    let path = u.subrange(k, u.len() as int);
    &&& all_ascii(u)
    &&& i + 3 <= u.len()
    &&& u[i + 1] == '/' && u[i + 2] == '/'
    &&& free_of(scheme, '#')
    &&& j < u.len()
    &&& host.len() > 0
    &&& !('0' <= host[0] && host[0] <= '9')
    &&& !free_of(host, '.')
    &&& free_of(host, '/') && free_of(host, '@') && free_of(host, '#')
    &&& 1 <= port.len() <= 9
    &&& (forall|m: int| 0 <= m < port.len() ==> '0' <= #[trigger] port[m] && port[m] <= '9')
    &&& free_of(path, ':') && free_of(path, '@') && free_of(path, '#')
}

/// The schemes that the parser's default port mappings know.
pub open spec fn known_scheme(s: Seq<char>) -> bool {
    s == "ftp"@ || s == "http"@ || s == "https"@ || s == "ssh"@ || s == "scp"@ || s == "sftp"@
        || s == "s3"@
}

/// A URL without a port on which the URL parser is known to return, taking
/// the port from the scheme: `scheme://host` and an optional `/path`, in
/// ASCII, with no `:` after the `://`, where the scheme is one the parser's
/// port mappings know; the host is not empty, holds a `.` and no `@` or `#`;
/// and the path holds no `@` or `#`.
pub open spec fn url_default_port_safe(u: Seq<char>) -> bool {
    let i = index_of(u, ':', 0);
    let k = index_of(u, '/', i + 3);
    let host = u.subrange(i + 3, k);
    let path = u.subrange(k, u.len() as int);
    &&& all_ascii(u)
    &&& i + 3 <= u.len()
    &&& u[i + 1] == '/' && u[i + 2] == '/'
    &&& known_scheme(u.subrange(0, i))
    &&& index_of(u, ':', i + 3) >= u.len()
    &&& host.len() > 0
    &&& !free_of(host, '.')
    &&& free_of(host, '@') && free_of(host, '#')
    &&& free_of(path, '@') && free_of(path, '#')
}

/// The URL shapes on which the URL parser is known to return.
pub open spec fn url_parse_safe(u: Seq<char>) -> bool {
    url_with_port_safe(u) || url_default_port_safe(u)
}

proof fn lemma_index_bounds(s: Seq<char>, c: char, from: int)
    requires
        0 <= from,
    ensures
        from <= index_of(s, c, from),
        from <= s.len() ==> index_of(s, c, from) <= s.len(),
        index_of(s, c, from) < s.len() ==> s[index_of(s, c, from)] == c,
        forall|m: int| from <= m < index_of(s, c, from) && m < s.len() ==> s[m] != c,
    decreases s.len() - from,
{
    if 0 <= from < s.len() && s[from] != c {
        lemma_index_bounds(s, c, from + 1);
    }
}

fn index_of_exec(s: &str, c: char, from: usize) -> (r: usize)
    requires
        from <= s@.len(),
    ensures
        r == index_of(s@, c, from as int),
{
    let n = s.unicode_len();
    let mut j = from;
    while j < n && s.get_char(j) != c
        invariant
            n == s@.len(),
            from <= j <= n,
            index_of(s@, c, j as int) == index_of(s@, c, from as int),
        decreases n - j,
    {
        j = j + 1;
    }
    j
}

/// Whether no character of `s[a..b]` is `c`.
fn free_of_exec(s: &str, c: char, a: usize, b: usize) -> (r: bool)
    requires
        a <= b <= s@.len(),
    ensures
        r == free_of(s@.subrange(a as int, b as int), c),
{
    let mut j = a;
    while j < b
        invariant
            a <= j <= b <= s@.len(),
            forall|m: int| a <= m < j ==> s@[m] != c,
        decreases b - j,
    {
        if s.get_char(j) == c {
            assert(s@.subrange(a as int, b as int)[j - a] == c);
            return false;
        }
        j = j + 1;
    }
    assert forall|m: int| 0 <= m < b - a implies s@.subrange(a as int, b as int)[m] != c by {
        assert(s@.subrange(a as int, b as int)[m] == s@[a + m]);
    }
    true
}

fn all_ascii_exec(url: &str) -> (r: bool)
    ensures
        r == all_ascii(url@),
{
    let n = url.unicode_len();
    let mut q: usize = 0;
    while q < n
        invariant
            n == url@.len(),
            q <= n,
            forall|m: int| 0 <= m < q ==> (url@[m] as u32) < 128,
        decreases n - q,
    {
        if url.get_char(q) as u32 >= 128 {
            return false;
        }
        q = q + 1;
    }
    true
}

fn known_scheme_exec(s: &str) -> (r: bool)
    ensures
        r == known_scheme(s@),
{
    str_eq(s, "ftp") || str_eq(s, "http") || str_eq(s, "https") || str_eq(s, "ssh") || str_eq(s, "scp")
        || str_eq(s, "sftp") || str_eq(s, "s3")
}

/// Whether `url` has a shape on which the URL parser is known to return.
pub fn url_parse_safe_exec(url: &str) -> (r: bool)
    ensures
        r == url_parse_safe(url@),
{
    url_with_port_safe_exec(url) || url_default_port_safe_exec(url)
}

fn url_default_port_safe_exec(url: &str) -> (r: bool)
    ensures
        r == url_default_port_safe(url@),
{
    if !all_ascii_exec(url) {
        return false;
    }
    let n = url.unicode_len();
    let i = index_of_exec(url, ':', 0);
    proof { lemma_index_bounds(url@, ':', 0); }
    if i >= n || n - i < 3 || url.get_char(i + 1) != '/' || url.get_char(i + 2) != '/' {
        return false;
    }
    if !known_scheme_exec(url.substring_char(0, i)) {
        return false;
    }
    let j = index_of_exec(url, ':', i + 3);
    if j < n {
        return false;
    }
    let k = index_of_exec(url, '/', i + 3);
    proof { lemma_index_bounds(url@, '/', i + 3); }
    if k == i + 3 {
        return false;
    }
    !free_of_exec(url, '.', i + 3, k) && free_of_exec(url, '@', i + 3, k) && free_of_exec(url, '#', i + 3, k)
        && free_of_exec(url, '@', k, n) && free_of_exec(url, '#', k, n)
}

fn url_with_port_safe_exec(url: &str) -> (r: bool)
    ensures
        r == url_with_port_safe(url@),
{
    if !all_ascii_exec(url) {
        return false;
    }
    let n = url.unicode_len();
    let i = index_of_exec(url, ':', 0);
    proof { lemma_index_bounds(url@, ':', 0); }
    if i >= n || n - i < 3 || url.get_char(i + 1) != '/' || url.get_char(i + 2) != '/' {
        return false;
    }
    if !free_of_exec(url, '#', 0, i) {
        return false;
    }
    let j = index_of_exec(url, ':', i + 3);
    proof { lemma_index_bounds(url@, ':', i + 3); }
    if j >= n || j == i + 3 {
        return false;
    }
    let h0 = url.get_char(i + 3);
    assert(url@.subrange(i + 3, j as int)[0] == h0);
    if '0' <= h0 && h0 <= '9' {
        return false;
    }
    if free_of_exec(url, '.', i + 3, j) || !free_of_exec(url, '/', i + 3, j) || !free_of_exec(url, '@', i + 3, j)
        || !free_of_exec(url, '#', i + 3, j) {
        return false;
    }
    let k = index_of_exec(url, '/', j + 1);
    proof { lemma_index_bounds(url@, '/', j + 1); }
    if k - (j + 1) < 1 || k - (j + 1) > 9 {
        return false;
    }
    let mut d = j + 1;
    while d < k
        invariant
            j + 1 <= d <= k <= n,
            n == url@.len(),
            i == index_of(url@, ':', 0),
            j == index_of(url@, ':', i + 3),
            k == index_of(url@, '/', j + 1),
            forall|m: int| j + 1 <= m < d ==> '0' <= #[trigger] url@[m] && url@[m] <= '9',
        decreases k - d,
    {
        let c = url.get_char(d);
        if !('0' <= c && c <= '9') {
            assert(url@.subrange(j + 1, k as int)[d - j - 1] == c);
            return false;
        }
        d = d + 1;
    }
    assert forall|m: int| 0 <= m < k - j - 1 implies '0' <= #[trigger] url@.subrange(j + 1, k as int)[m]
        && url@.subrange(j + 1, k as int)[m] <= '9' by {
        assert(url@.subrange(j + 1, k as int)[m] == url@[j + 1 + m]);
    }
    free_of_exec(url, ':', k, n) && free_of_exec(url, '@', k, n) && free_of_exec(url, '#', k, n)
}

/// What the URL parser makes of a URL.
pub uninterp spec fn url_parts_of(url: Seq<char>) -> Option<UrlPartsView>;

/// Relies on `url_parse::core::Parser::parse` with the default port
/// mappings: its result depends on the URL text alone. The parser unwraps
/// inside (a port it cannot find again, a port over `u32::MAX`, `#` before
/// `?`, a scheme it has no port for); on the shapes that `url_parse_safe`
/// admits none of those can fail. It always returns `Ok`.
#[verifier::external_body]
pub(crate) fn parse_url(url: &str) -> (r: Option<UrlParts>)
    requires
        url_parse_safe(url@),
    ensures
        r is Some,
        r matches Some(p) ==> url_parts_of(url@) == Some(p@),
        r is None ==> url_parts_of(url@) is None,
{
    match url_parse::core::Parser::new(None).parse(url) {
        Ok(u) => Some(UrlParts {
            subdomain: u.subdomain,
            domain: u.domain,
            top_level_domain: u.top_level_domain,
            port: u.port,
            path: u.path,
        }),
        Err(_) => None,
    }
}

} // verus!
