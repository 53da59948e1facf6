//! The response decoder: status line, then header lines, then a body of
//! exactly the announced length.
use vstd::prelude::*;
use vstd::utf8::{valid_utf8, decode_utf8};
use crate::error::{RequestError, ErrorView};
use crate::response::{Response, ResponseView, version_of, with_header};
use crate::text::{is_ascii_ws, char_is_ascii_ws, trim_of, trim_start_of, trim_end_of, i16_of, trim, trim_start, trim_end};

verus! {

/// The text of bytes that are valid UTF-8.
///
/// Relies on `String::from_utf8`: it succeeds exactly on valid UTF-8 and the
/// string then holds those bytes.
#[verifier::external_body]
fn utf8_string(b: Vec<u8>) -> (r: Option<String>)
    ensures
        r is Some == valid_utf8(b@),
        r matches Some(s) ==> s@ == decode_utf8(b@),
{
    String::from_utf8(b).ok()
}

/// The first position at or after `i` that holds no ASCII whitespace.
pub open spec fn skip_ws(s: Seq<char>, i: int) -> int
    decreases s.len() - i,
{
    if 0 <= i < s.len() && is_ascii_ws(s[i]) {
        skip_ws(s, i + 1)
    } else {
        i
    }
}

/// The first position at or after `i` that holds ASCII whitespace, or the end.
pub open spec fn skip_token(s: Seq<char>, i: int) -> int
    decreases s.len() - i,
{
    if 0 <= i < s.len() && !is_ascii_ws(s[i]) {
        skip_token(s, i + 1)
    } else {
        i
    }
}

/// The first `:` at or after `i`, or the end.
pub open spec fn colon_index(s: Seq<char>, i: int) -> int
    decreases s.len() - i,
{
    if 0 <= i < s.len() && s[i] != ':' {
        colon_index(s, i + 1)
    } else {
        i
    }
}

/// The effect of a status line: at least three whitespace-separated tokens
/// are needed; the first names the version, the second the status code (text
/// that is no number leaves it), and the rest of the line from the third on,
/// without trailing whitespace, is the reason.
pub open spec fn status_line_result(r: ResponseView, line: Seq<char>) -> Result<ResponseView, ErrorView> {
    let a0 = skip_ws(line, 0);
    let b0 = skip_token(line, a0);
    let a1 = skip_ws(line, b0);
    let b1 = skip_token(line, a1);
    let a2 = skip_ws(line, b1);
    if a2 >= line.len() {
        Err(ErrorView::ParseHeaderError(line))
    } else {
        Ok(ResponseView {
            version: version_of(line.subrange(a0, b0)),
            status_code: match i16_of(trim_of(line.subrange(a1, b1))) {
                Some(c) => c,
                None => r.status_code,
            },
            reason: trim_end_of(line.subrange(a2, line.len() as int)),
            ..r
        })
    }
}

/// Whether a header-phase line ends the header block: shorter than two
/// bytes (end of stream), or a bare CR LF.
pub open spec fn ends_headers(line: Seq<u8>) -> bool {
    line.len() < 2 || (line[0] == 13 && line[1] == 10)
}

/// The effect of one line of the header block: `Ok(None)` when the block ends
/// there, else the response with the header added.
pub open spec fn header_line_result(r: ResponseView, line: Seq<u8>) -> Result<Option<ResponseView>, ErrorView> {
    if ends_headers(line) {
        Ok(None)
    } else if !valid_utf8(line) {
        Err(ErrorView::Utf8DecodeError)
    } else {
        let s = decode_utf8(line);
        let c = colon_index(s, 0);
        if c >= s.len() {
            Err(ErrorView::ParseHeaderError(s))
        } else {
            Ok(Some(with_header(r, trim_of(s.subrange(0, c)), trim_start_of(s.subrange(c + 1, s.len() as int)))))
        }
    }
}

/// The effect of the body bytes.
pub open spec fn body_result(r: ResponseView, bytes: Seq<u8>) -> Result<ResponseView, ErrorView> {
    if valid_utf8(bytes) {
        Ok(ResponseView { body: decode_utf8(bytes), ..r })
    } else {
        Err(ErrorView::Utf8DecodeError)
    }
}

proof fn lemma_skip_bounds(s: Seq<char>, i: int)
    requires
        0 <= i <= s.len(),
    ensures
        i <= skip_ws(s, i) <= s.len(),
        i <= skip_token(s, i) <= s.len(),
        i <= colon_index(s, i) <= s.len(),
    decreases s.len() - i,
{
    if i < s.len() {
        lemma_skip_bounds(s, i + 1);
    }
}

fn skip_ws_exec(s: &str, i: usize) -> (r: usize)
    requires
        i <= s@.len(),
    ensures
        r == skip_ws(s@, i as int),
{
    let n = s.unicode_len();
    let mut j = i;
    proof { lemma_skip_bounds(s@, i as int); }
    while j < n && char_is_ascii_ws(s.get_char(j))
        invariant
            n == s@.len(),
            i <= j <= n,
            skip_ws(s@, j as int) == skip_ws(s@, i as int),
        decreases n - j,
    {
        j = j + 1;
    }
    j
}

fn skip_token_exec(s: &str, i: usize) -> (r: usize)
    requires
        i <= s@.len(),
    ensures
        r == skip_token(s@, i as int),
{
    let n = s.unicode_len();
    let mut j = i;
    while j < n && !char_is_ascii_ws(s.get_char(j))
        invariant
            n == s@.len(),
            i <= j <= n,
            skip_token(s@, j as int) == skip_token(s@, i as int),
        decreases n - j,
    {
        j = j + 1;
    }
    j
}

fn colon_exec(s: &str) -> (r: usize)
    ensures
        r == colon_index(s@, 0),
{
    let n = s.unicode_len();
    let mut j: usize = 0;
    while j < n && s.get_char(j) != ':'
        invariant
            n == s@.len(),
            j <= n,
            colon_index(s@, j as int) == colon_index(s@, 0),
        decreases n - j,
    {
        j = j + 1;
    }
    j
}

/// Decodes the status line into `resp`.
pub fn parse_response_first_line(resp: &mut Response, line: &Vec<u8>) -> (r: Result<(), RequestError>)
    ensures
        !valid_utf8(line@) ==> r == Err::<(), RequestError>(RequestError::Utf8DecodeError) && final(resp)@ == old(resp)@,
        valid_utf8(line@) ==> match status_line_result(old(resp)@, decode_utf8(line@)) {
            Ok(v) => r is Ok && final(resp)@ == v,
            Err(e) => r matches Err(x) && x@ == e && final(resp)@ == old(resp)@,
        },
{
    let text = match utf8_string(line.clone()) {
        Some(t) => t,
        None => return Err(RequestError::Utf8DecodeError),
    };
    let s = text.as_str();
    let n = s.unicode_len();
    let a0 = skip_ws_exec(s, 0);
    proof { lemma_skip_bounds(s@, 0); lemma_skip_bounds(s@, a0 as int); }
    let b0 = skip_token_exec(s, a0);
    proof { lemma_skip_bounds(s@, b0 as int); }
    let a1 = skip_ws_exec(s, b0);
    proof { lemma_skip_bounds(s@, a1 as int); }
    let b1 = skip_token_exec(s, a1);
    proof { lemma_skip_bounds(s@, b1 as int); }
    let a2 = skip_ws_exec(s, b1);
    if a2 >= n {
        return Err(RequestError::ParseHeaderError(text));
    }
    resp.set_http_version(s.substring_char(a0, b0));
    resp.set_status_code(s.substring_char(a1, b1));
    let reason = trim_end(s.substring_char(a2, n));
    resp.set_reason(reason.as_str());
    Ok(())
}

/// Decodes one line of the header block into `resp`. Returns `false` when
/// the line ends the block and `true` when a header was added.
pub fn parse_response_header(resp: &mut Response, line: Vec<u8>) -> (r: Result<bool, RequestError>)
    requires
        old(resp)@.wf(),
    ensures
        match header_line_result(old(resp)@, line@) {
            Ok(None) => r == Ok::<bool, RequestError>(false) && final(resp)@ == old(resp)@,
            Ok(Some(v)) => r == Ok::<bool, RequestError>(true) && final(resp)@ == v,
            Err(e) => r matches Err(x) && x@ == e && final(resp)@ == old(resp)@,
        },
        final(resp)@.wf(),
{
    if line.len() < 2 || (line[0] == 13u8 && line[1] == 10u8) {
        return Ok(false);
    }
    let ghost bytes = line@;
    let text = match utf8_string(line) {
        Some(t) => t,
        None => return Err(RequestError::Utf8DecodeError),
    };
    let s = text.as_str();
    let n = s.unicode_len();
    let c = colon_exec(s);
    proof { lemma_skip_bounds(s@, 0); }
    if c >= n {
        return Err(RequestError::ParseHeaderError(text));
    }
    let key = trim(s.substring_char(0, c));
    let val = trim_start(s.substring_char(c + 1, n));
    resp.add_header(key, val);
    Ok(true)
}

/// Decodes the body bytes into `resp`.
pub fn parse_response_body(resp: &mut Response, bytes: Vec<u8>) -> (r: Result<(), RequestError>)
    ensures
        match body_result(old(resp)@, bytes@) {
            Ok(v) => r is Ok && final(resp)@ == v,
            Err(e) => r matches Err(x) && x@ == e && final(resp)@ == old(resp)@,
        },
{
    match utf8_string(bytes) {
        Some(t) => {
            resp.set_body(t);
            Ok(())
        },
        None => Err(RequestError::Utf8DecodeError),
    }
}

/// The end of the line that starts at `pos`: just past its `\n`, or the end
/// of the input.
pub open spec fn line_end(s: Seq<u8>, pos: int) -> int
    decreases s.len() - pos,
{
    if pos < 0 || pos >= s.len() {
        pos
    } else if s[pos] == 10 {
        pos + 1
    } else {
        line_end(s, pos + 1)
    }
}

/// The header block that starts at `pos`, read into `r`: the response and
/// the position just past the block.
pub open spec fn decode_headers(input: Seq<u8>, pos: int, r: ResponseView) -> Result<(ResponseView, int), ErrorView>
    decreases input.len() - pos,
{
    let e = line_end(input, pos);
    match header_line_result(r, input.subrange(pos, e)) {
        Err(x) => Err(x),
        Ok(None) => Ok((r, e)),
        Ok(Some(r2)) => if 0 <= pos < e <= input.len() {
            decode_headers(input, e, r2)
        } else {
            Ok((r2, e))
        },
    }
}

/// The response before anything is decoded.
pub open spec fn empty_response() -> ResponseView {
    ResponseView {
        status_code: 0,
        version: crate::response::HTTPVersion::UnknownVersion,
        reason: Seq::empty(),
        headers: Seq::empty(),
        body: Seq::empty(),
        content_length: 0,
    }
}

/// The error for a body cut short.
pub open spec fn short_body_error() -> ErrorView {
    ErrorView::IOError("unexpected end of stream"@)
}

/// What a whole byte stream decodes to: status line, header block, then
/// exactly `content_length` body bytes.
pub open spec fn decode_result(input: Seq<u8>) -> Result<ResponseView, ErrorView> {
    let e = line_end(input, 0);
    let first = input.subrange(0, e);
    if !valid_utf8(first) {
        Err(ErrorView::Utf8DecodeError)
    } else {
        match status_line_result(empty_response(), decode_utf8(first)) {
            Err(x) => Err(x),
            Ok(r1) => after_headers(input, decode_headers(input, e, r1)),
        }
    }
}

/// The outcome once the header block has been read: no body when the
/// length is zero, else exactly that many bytes.
pub open spec fn after_headers(input: Seq<u8>, h: Result<(ResponseView, int), ErrorView>) -> Result<ResponseView, ErrorView> {
    match h {
        Err(x) => Err(x),
        Ok((r2, p)) => if r2.content_length == 0 {
            Ok(r2)
        } else if input.len() - p < r2.content_length {
            Err(short_body_error())
        } else {
            body_result(r2, input.subrange(p, p + r2.content_length))
        },
    }
}

proof fn lemma_line_end(s: Seq<u8>, pos: int)
    requires
        0 <= pos <= s.len(),
    ensures
        pos <= line_end(s, pos) <= s.len(),
        pos < s.len() ==> pos < line_end(s, pos),
    decreases s.len() - pos,
{
    if pos < s.len() && s[pos] != 10 {
        lemma_line_end(s, pos + 1);
    }
}

fn line_end_exec(input: &Vec<u8>, pos: usize) -> (r: usize)
    requires
        pos <= input@.len(),
    ensures
        r == line_end(input@, pos as int),
{
    let n = input.len();
    let mut j = pos;
    while j < n && input[j] != 10u8
        invariant
            n == input@.len(),
            pos <= j <= n,
            line_end(input@, j as int) == line_end(input@, pos as int),
        decreases n - j,
    {
        j = j + 1;
    }
    if j < n {
        j + 1
    } else {
        j
    }
}

fn copy_range(input: &Vec<u8>, from: usize, to: usize) -> (r: Vec<u8>)
    requires
        from <= to <= input@.len(),
    ensures
        r@ == input@.subrange(from as int, to as int),
{
    let mut out: Vec<u8> = Vec::new();
    let mut j = from;
    while j < to
        invariant
            from <= j <= to <= input@.len(),
            out@ == input@.subrange(from as int, j as int),
        decreases to - j,
    {
        out.push(input[j]);
        assert(out@ =~= input@.subrange(from as int, j + 1));
        j = j + 1;
    }
    out
}

/// Decodes a whole response from its bytes.
pub fn decode_response(input: &Vec<u8>) -> (r: Result<Response, RequestError>)
    ensures
        match decode_result(input@) {
            Ok(v) => r matches Ok(x) && x@ == v,
            Err(e) => r matches Err(x) && x@ == e,
        },
{
    let mut resp = Response::new();
    let e = line_end_exec(input, 0);
    proof { lemma_line_end(input@, 0); }
    let first = copy_range(input, 0, e);
    match parse_response_first_line(&mut resp, &first) {
        Err(x) => return Err(x),
        Ok(()) => {},
    }
    assert(valid_utf8(first@));
    assert(status_line_result(empty_response(), decode_utf8(first@)) == Ok::<ResponseView, ErrorView>(resp@));
    let ghost r1 = resp@;
    let ghost target = decode_headers(input@, e as int, r1);
    let mut pos = e;
    let mut done = false;
    while !done
        invariant
            pos <= input@.len(),
            resp@.wf(),
            decode_result(input@) == after_headers(input@, target),
            !done ==> decode_headers(input@, pos as int, resp@) == target,
            done ==> target == Ok::<(ResponseView, int), ErrorView>((resp@, pos as int)),
        decreases input@.len() - pos + (if done { 0int } else { 1int }),
    {
        let e2 = line_end_exec(input, pos);
        proof { lemma_line_end(input@, pos as int); }
        let line = copy_range(input, pos, e2);
        let ghost before = resp@;
        match parse_response_header(&mut resp, line) {
            Err(x) => {
                assert(decode_headers(input@, pos as int, before) == Err::<(ResponseView, int), ErrorView>(x@));
                return Err(x);
            },
            Ok(more) => {
                pos = e2;
                if !more {
                    done = true;
                }
            },
        }
    }
    let cl = resp.get_content_length();
    if cl == 0 {
        return Ok(resp);
    }
    if input.len() - pos < cl {
        proof { reveal_strlit("unexpected end of stream"); }
        return Err(RequestError::IOError(String::from_str("unexpected end of stream")));
    }
    let bytes = copy_range(input, pos, pos + cl);
    match parse_response_body(&mut resp, bytes) {
        Err(x) => Err(x),
        Ok(()) => Ok(resp),
    }
}

} // verus!
