//! The decoded response: status line, headers and body.
use vstd::prelude::*;
use crate::header_map::{Pairs, pairs_view, keys_unique, pairs_insert, pairs_get, find_key, insert_pair};
use crate::text::{lower_of, to_lowercase, str_eq, trim, trim_end, trim_end_of, trim_of, parse_i16, i16_of, parse_usize, usize_of, signed_decimal, signed_decimal_of};

verus! {

#[derive(Debug, Clone, Copy, PartialEq, Eq, Structural)]
pub enum HTTPVersion {
    UnknownVersion,
    HTTP1_0,
    HTTP1_1,
}

/// The version that a status-line token names.
pub open spec fn version_of(s: Seq<char>) -> HTTPVersion {
    if s == "HTTP/1.0"@ {
        HTTPVersion::HTTP1_0
    } else if s == "HTTP/1.1"@ {
        HTTPVersion::HTTP1_1
    } else {
        HTTPVersion::UnknownVersion
    }
}

/// The token that stands for a version in a status line.
pub open spec fn version_token(v: HTTPVersion) -> Seq<char> {
    match v {
        HTTPVersion::HTTP1_0 => "HTTP/1.0"@,
        HTTPVersion::HTTP1_1 => "HTTP/1.1"@,
        HTTPVersion::UnknownVersion => Seq::empty(),
    }
}

pub ghost struct ResponseView {
    pub status_code: int,
    pub version: HTTPVersion,
    pub reason: Seq<char>,
    pub headers: Pairs,
    pub body: Seq<char>,
    pub content_length: nat,
}

pub struct Response {
    status_code: i16,
    http_version: HTTPVersion,
    reason: String,
    headers: Vec<(String, String)>,
    body: String,
    content_length: usize,
}

/// Whether `k` names the content length, in any letter case.
pub open spec fn is_content_length_key(k: Seq<char>) -> bool {
    lower_of(k) == "content-length"@
}

/// The response after `add_header(k, v)`: the value is stored without its
/// trailing whitespace, and a content-length header whose value parses
/// updates the derived length.
pub open spec fn with_header(r: ResponseView, k: Seq<char>, v: Seq<char>) -> ResponseView {
    let stored = trim_end_of(v);
    ResponseView {
        headers: pairs_insert(r.headers, k, stored),
        content_length: if is_content_length_key(k) && usize_of(stored) is Some {
            usize_of(stored).unwrap()
        } else {
            r.content_length
        },
        ..r
    }
}

/// The header lines `"{key}: {value}\r\n"`, in the mapping's order.
pub open spec fn header_lines(h: Pairs) -> Seq<char>
    decreases h.len(),
{
    if h.len() == 0 {
        Seq::empty()
    } else {
        header_lines(h.drop_last()) + h.last().0 + ": "@ + h.last().1 + "\r\n"@
    }
}

/// The wire form of a response: status line, header lines, blank line, body.
pub open spec fn wire_of(r: ResponseView) -> Seq<char> {
    version_token(r.version) + " "@ + signed_decimal_of(r.status_code) + " "@ + r.reason + "\r\n"@
        + header_lines(r.headers) + "\r\n"@ + r.body
}

impl View for Response {
    type V = ResponseView;

    closed spec fn view(&self) -> ResponseView {
        ResponseView {
            status_code: self.status_code as int,
            version: self.http_version,
            reason: self.reason@,
            headers: pairs_view(self.headers@),
            body: self.body@,
            content_length: self.content_length as nat,
        }
    }
}

impl ResponseView {
    pub open spec fn wf(self) -> bool {
        keys_unique(self.headers) && -32768 <= self.status_code <= 32767
            && self.content_length <= usize::MAX
    }
}

impl Response {
    pub fn new() -> (r: Self)
        ensures
            r@ == (ResponseView {
                status_code: 0,
                version: HTTPVersion::UnknownVersion,
                reason: Seq::empty(),
                headers: Seq::empty(),
                body: Seq::empty(),
                content_length: 0,
            }),
            r@.wf(),
    {
        let r = Response {
            status_code: 0,
            http_version: HTTPVersion::UnknownVersion,
            reason: String::new(),
            headers: Vec::new(),
            body: String::new(),
            content_length: 0,
        };
        assert(pairs_view(r.headers@) =~= Seq::empty());
        r
    }

    pub fn set_http_version(&mut self, val: &str)
        ensures
            final(self)@ == (ResponseView { version: version_of(val@), ..old(self)@ }),
    {
        proof {
            reveal_strlit("HTTP/1.0");
            reveal_strlit("HTTP/1.1");
        }
        self.http_version = if str_eq(val, "HTTP/1.0") {
            HTTPVersion::HTTP1_0
        } else if str_eq(val, "HTTP/1.1") {
            HTTPVersion::HTTP1_1
        } else {
            HTTPVersion::UnknownVersion
        };
    }

    pub fn get_http_version(&self) -> (r: HTTPVersion)
        ensures
            r == self@.version,
    {
        self.http_version
    }

    pub fn set_content_length(&mut self, val: usize)
        ensures
            final(self)@ == (ResponseView { content_length: val as nat, ..old(self)@ }),
    {
        self.content_length = val;
    }

    pub fn get_content_length(&self) -> (r: usize)
        ensures
            r as nat == self@.content_length,
    {
        self.content_length
    }

    /// Sets the status code from its text, with surrounding whitespace
    /// ignored; text that is no `i16` leaves the code as it was.
    pub fn set_status_code(&mut self, val: &str)
        ensures
            final(self)@ == (ResponseView {
                status_code: match i16_of(trim_of(val@)) {
                    Some(c) => c,
                    None => old(self)@.status_code,
                },
                ..old(self)@
            }),
    {
        let t = trim(val);
        if let Some(c) = parse_i16(t.as_str()) {
            self.status_code = c;
        }
    }

    pub fn get_status_code(&self) -> (r: i16)
        ensures
            r as int == self@.status_code,
    {
        self.status_code
    }

    pub fn set_reason(&mut self, val: &str)
        ensures
            final(self)@ == (ResponseView { reason: val@, ..old(self)@ }),
    {
        self.reason = String::from_str(val);
    }

    pub fn get_reason(&self) -> (r: &String)
        ensures
            r@ == self@.reason,
    {
        &self.reason
    }

    /// Stores `val`, without its trailing whitespace, under `key` as given.
    /// When `key` is `content-length` in any letter case and the stored value
    /// is a number, that number becomes the content length.
    pub fn add_header(&mut self, key: String, val: String)
        requires
            old(self)@.wf(),
        ensures
            final(self)@ == with_header(old(self)@, key@, val@),
            final(self)@.wf(),
    {
        let lowered = to_lowercase(key.as_str());
        proof {
            reveal_strlit("content-length");
        }
        let stored = trim_end(val.as_str());
        if str_eq(lowered.as_str(), "content-length") {
            if let Some(n) = parse_usize(stored.as_str()) {
                self.content_length = n;
            }
        }
        insert_pair(&mut self.headers, key, stored);
    }

    pub fn get_header(&self, key: &str) -> (r: Option<&String>)
        requires
            self@.wf(),
        ensures
            r matches Some(v) ==> pairs_get(self@.headers, key@) == Some(v@),
            r is None ==> pairs_get(self@.headers, key@) is None,
    {
        let k = String::from_str(key);
        match find_key(&self.headers, &k) {
            Some(i) => {
                assert(pairs_view(self.headers@)[i as int].0 == key@);
                assert(crate::header_map::key_index(self@.headers, key@) == i as int);
                Some(&self.headers[i].1)
            },
            None => None,
        }
    }

    pub fn get_headers(&self) -> (r: &Vec<(String, String)>)
        ensures
            pairs_view(r@) == self@.headers,
    {
        &self.headers
    }

    pub fn set_body(&mut self, val: String)
        ensures
            final(self)@ == (ResponseView { body: val@, ..old(self)@ }),
    {
        self.body = val;
    }

    pub fn get_body(&self) -> (r: &String)
        ensures
            r@ == self@.body,
    {
        &self.body
    }

    /// The response in wire form.
    pub fn to_string(&self) -> (r: String)
        ensures
            r@ == wire_of(self@),
    {
        proof {
            reveal_strlit("HTTP/1.0");
            reveal_strlit("HTTP/1.1");
            reveal_strlit("");
            reveal_strlit(" ");
            reveal_strlit(": ");
            reveal_strlit("\r\n");
        }
        let mut result = match self.http_version {
            HTTPVersion::HTTP1_0 => String::from_str("HTTP/1.0"),
            HTTPVersion::HTTP1_1 => String::from_str("HTTP/1.1"),
            HTTPVersion::UnknownVersion => String::new(),
        };
        result.append(" ");
        let code = signed_decimal(self.status_code as i64);
        result.append(code.as_str());
        result.append(" ");
        result.append(self.reason.as_str());
        result.append("\r\n");
        let ghost head = result@;
        let mut i: usize = 0;
        while i < self.headers.len()
            invariant
                i <= self.headers@.len(),
                result@ == head + header_lines(pairs_view(self.headers@).subrange(0, i as int)),
            decreases self.headers@.len() - i,
        {
            let ghost h = pairs_view(self.headers@);
            assert(h.subrange(0, i + 1).drop_last() =~= h.subrange(0, i as int));
            result.append(self.headers[i].0.as_str());
            result.append(": ");
            result.append(self.headers[i].1.as_str());
            result.append("\r\n");
            assert(result@ =~= head + header_lines(h.subrange(0, i + 1)));
            i = i + 1;
        }
        assert(pairs_view(self.headers@).subrange(0, i as int) =~= pairs_view(self.headers@));
        result.append("\r\n");
        result.append(self.body.as_str());
        assert(result@ =~= wire_of(self@));
        result
    }
}

} // verus!
