//! Encoding a response and decoding the bytes again gives it back.
use vstd::prelude::*;
use vstd::utf8::{encode_utf8, encode_scalar, has_width_1_encoding, has_width_2_encoding, has_width_3_encoding};
use crate::decoder::{line_end, skip_ws, skip_token, colon_index, status_line_result, empty_response, header_line_result, decode_headers, decode_result, after_headers, ends_headers};
use crate::header_map::{Pairs, has_key, pairs_insert};
use crate::response::{ResponseView, HTTPVersion, wire_of, header_lines, version_token, version_of, is_content_length_key, with_header};
use crate::text::{usize_of, is_ascii_ws, is_ws, is_digit, all_digits, digits_value, bounded_digits, decimal_of, digit_char, signed_decimal_of, i16_of, trim_of, trim_start_of, trim_end_of};

verus! {

proof fn lemma_line_end_at(s: Seq<u8>, pos: int, k: int)
    requires
        0 <= pos <= k < s.len(),
        s[k] == 10,
        forall|i: int| pos <= i < k ==> s[i] != 10,
    ensures
        line_end(s, pos) == k + 1,
    decreases k - pos,
{
    if pos < k {
        lemma_line_end_at(s, pos + 1, k);
    }
}

proof fn lemma_skip_token_run(s: Seq<char>, i: int, j: int)
    requires
        0 <= i <= j <= s.len(),
        forall|m: int| i <= m < j ==> !is_ascii_ws(s[m]),
        j == s.len() || is_ascii_ws(s[j]),
    ensures
        skip_token(s, i) == j,
    decreases j - i,
{
    if i < j {
        lemma_skip_token_run(s, i + 1, j);
    }
}

proof fn lemma_skip_ws_run(s: Seq<char>, i: int, j: int)
    requires
        0 <= i <= j <= s.len(),
        forall|m: int| i <= m < j ==> is_ascii_ws(s[m]),
        j == s.len() || !is_ascii_ws(s[j]),
    ensures
        skip_ws(s, i) == j,
    decreases j - i,
{
    if i < j {
        lemma_skip_ws_run(s, i + 1, j);
    }
}

proof fn lemma_colon_run(s: Seq<char>, i: int, j: int)
    requires
        0 <= i <= j < s.len(),
        forall|m: int| i <= m < j ==> s[m] != ':',
        s[j] == ':',
    ensures
        colon_index(s, i) == j,
    decreases j - i,
{
    if i < j {
        lemma_colon_run(s, i + 1, j);
    }
}

proof fn lemma_digit_char(d: nat)
    requires
        d < 10,
    ensures
        digit_char(d) as nat == d + 48,
        is_digit(digit_char(d)),
        !is_ws(digit_char(d)),
        digit_char(d) != '-' && digit_char(d) != '+',
{
    assert(((d + 48) as u8) as nat == d + 48);
}

proof fn lemma_decimal(n: nat)
    ensures
        decimal_of(n).len() >= 1,
        all_digits(decimal_of(n)),
        digits_value(decimal_of(n)) == n,
    decreases n,
{
    let d = decimal_of(n);
    if n < 10 {
        lemma_digit_char(n);
        assert(is_digit(d[0]));
        assert(d.drop_last() =~= Seq::<char>::empty());
        assert('0' as nat == 48);
        assert(digits_value(d) == digits_value(d.drop_last()) * 10 + (d.last() as nat - '0' as nat) as nat);
        assert(digits_value(d.drop_last()) == 0);
    } else {
        lemma_decimal(n / 10);
        let p = decimal_of(n / 10);
        assert(d.drop_last() =~= p);
        lemma_digit_char(n % 10);
        assert(is_digit(d.last()));
        assert('0' as nat == 48);
        assert(digits_value(d) == digits_value(d.drop_last()) * 10 + (d.last() as nat - '0' as nat) as nat);
        assert(digits_value(p) * 10 + n % 10 == n) by (nonlinear_arith)
            requires digits_value(p) == n / 10;
        assert forall|i: int| 0 <= i < d.len() implies is_digit(#[trigger] d[i]) by {
            if i < p.len() {
                assert(d[i] == p[i]);
            }
        }
    }
}

proof fn lemma_signed_decimal(c: int)
    requires
        -32768 <= c <= 32767,
    ensures
        signed_decimal_of(c).len() >= 1,
        forall|i: int| 0 <= i < signed_decimal_of(c).len() ==> !is_ascii_ws(#[trigger] signed_decimal_of(c)[i])
            && !is_ws(signed_decimal_of(c)[i]) && signed_decimal_of(c)[i] != '\n',
        i16_of(trim_of(signed_decimal_of(c))) == Some(c),
{
    let sd = signed_decimal_of(c);
    if c < 0 {
        let m = (-c) as nat;
        lemma_decimal(m);
        let d = decimal_of(m);
        assert(sd == seq!['-'] + d);
        assert(sd.drop_first() =~= d);
        assert forall|i: int| 0 <= i < sd.len() implies !is_ascii_ws(#[trigger] sd[i]) && !is_ws(sd[i]) && sd[i] != '\n' by {
            if i > 0 {
                assert(sd[i] == d[i - 1]);
                assert(is_digit(d[i - 1]));
            }
        }
        assert(bounded_digits(d, 32768) == Some(m));
    } else {
        lemma_decimal(c as nat);
        let d = decimal_of(c as nat);
        assert(is_digit(d[0]));
        assert forall|i: int| 0 <= i < sd.len() implies !is_ascii_ws(#[trigger] sd[i]) && !is_ws(sd[i]) && sd[i] != '\n' by {
            assert(is_digit(d[i]));
        }
        assert(bounded_digits(d, 32767) == Some(c as nat));
    }
    assert(!is_ws(sd[0]));
    assert(!is_ws(sd.last()));
    assert(trim_start_of(sd) == sd);
    assert(trim_end_of(sd) == sd);
}

proof fn lemma_encode_concat(a: Seq<char>, b: Seq<char>)
    ensures
        encode_utf8(a + b) == encode_utf8(a) + encode_utf8(b),
    decreases a.len(),
{
    if a.len() == 0 {
        assert(a + b =~= b);
        assert(encode_utf8(a) + encode_utf8(b) =~= encode_utf8(b));
    } else {
        lemma_encode_concat(a.drop_first(), b);
        assert((a + b).drop_first() =~= a.drop_first() + b);
        assert((a + b)[0] == a[0]);
        assert(encode_utf8(a + b) =~= encode_utf8(a) + encode_utf8(b));
    }
}

proof fn lemma_scalar_bytes(c: char)
    ensures
        encode_scalar(c as u32).len() >= 1,
        c != '\n' ==> forall|j: int| 0 <= j < encode_scalar(c as u32).len() ==> #[trigger] encode_scalar(c as u32)[j] != 10,
        c == '\n' ==> encode_scalar(c as u32) == seq![10u8],
        c == '\r' ==> encode_scalar(c as u32) == seq![13u8],
{
    let v = c as u32;
    if has_width_1_encoding(v) {
        assert(v <= 0x7F ==> (v & 0x7F) as u8 == v as u8) by (bit_vector);
        assert(v <= 0x7F && v as u8 == 10 ==> v == 10) by (bit_vector);
    } else if has_width_2_encoding(v) {
        assert((0xC0u8 | ((v >> 6) & 0x1F) as u8) != 10u8) by (bit_vector);
        assert((0x80u8 | (v & 0x3F) as u8) != 10u8) by (bit_vector);
    } else if has_width_3_encoding(v) {
        assert((0xE0u8 | ((v >> 12) & 0x0F) as u8) != 10u8) by (bit_vector);
        assert((0x80u8 | ((v >> 6) & 0x3F) as u8) != 10u8) by (bit_vector);
        assert((0x80u8 | (v & 0x3F) as u8) != 10u8) by (bit_vector);
    } else {
        assert((0xF0u8 | ((v >> 18) & 0x7) as u8) != 10u8) by (bit_vector);
        assert((0x80u8 | ((v >> 12) & 0x3F) as u8) != 10u8) by (bit_vector);
        assert((0x80u8 | ((v >> 6) & 0x3F) as u8) != 10u8) by (bit_vector);
        assert((0x80u8 | (v & 0x3F) as u8) != 10u8) by (bit_vector);
    }
}

proof fn lemma_encode_no_newline(s: Seq<char>)
    requires
        lacks(s, '\n'),
    ensures
        forall|j: int| 0 <= j < encode_utf8(s).len() ==> #[trigger] encode_utf8(s)[j] != 10,
        encode_utf8(s).len() >= s.len(),
    decreases s.len(),
{
    if s.len() > 0 {
        lemma_scalar_bytes(s[0]);
        lemma_encode_no_newline(s.drop_first());
        let e = encode_scalar(s[0] as u32);
        let t = encode_utf8(s.drop_first());
        assert forall|j: int| 0 <= j < encode_utf8(s).len() implies #[trigger] encode_utf8(s)[j] != 10 by {
            if j < e.len() {
                assert(encode_utf8(s)[j] == e[j]);
            } else {
                assert(encode_utf8(s)[j] == t[j - e.len()]);
            }
        }
    }
}

proof fn lemma_newline_bytes()
    ensures
        encode_utf8(seq!['\n']) == seq![10u8],
{
    let t = seq!['\n'];
    lemma_scalar_bytes('\n');
    assert(t[0] == '\n');
    assert(t.drop_first() =~= Seq::<char>::empty());
    assert(encode_utf8(Seq::<char>::empty()) =~= Seq::<u8>::empty());
    assert(encode_utf8(t) == encode_scalar(t[0] as u32) + encode_utf8(t.drop_first()));
    assert(encode_utf8(t) =~= seq![10u8]);
}

proof fn lemma_encode_len(s: Seq<char>)
    ensures
        encode_utf8(s).len() >= s.len(),
    decreases s.len(),
{
    if s.len() > 0 {
        lemma_scalar_bytes(s[0]);
        lemma_encode_len(s.drop_first());
    }
}

/// A line that ends in its only line break, between `pre` and `post`: the
/// byte scan for the line end stops right after it.
proof fn lemma_line_bytes(pre: Seq<char>, line: Seq<char>, post: Seq<char>)
    requires
        line.len() >= 1,
        line.last() == '\n',
        lacks(line.drop_last(), '\n'),
    ensures
        ({
            let bytes = encode_utf8(pre + line + post);
            let a = encode_utf8(pre).len() as int;
            let b = a + encode_utf8(line).len();
            &&& line_end(bytes, a) == b
            &&& b <= bytes.len()
            &&& bytes.subrange(a, b) == encode_utf8(line)
            &&& encode_utf8(line).len() >= line.len()
            &&& (forall|j: int| 0 <= j < encode_utf8(line).len() - 1 ==> #[trigger] encode_utf8(line)[j] != 10)
            &&& bytes.subrange(b, bytes.len() as int) == encode_utf8(post)
            &&& bytes.subrange(0, a) == encode_utf8(pre)
        }),
{
    let body = line.drop_last();
    lemma_encode_concat(pre + line, post);
    lemma_encode_concat(pre, line);
    assert(line =~= body + seq!['\n']);
    lemma_encode_concat(body, seq!['\n']);
    lemma_scalar_bytes('\n');
    assert(seq!['\n'].drop_first() =~= Seq::<char>::empty());
    lemma_newline_bytes();
    lemma_encode_no_newline(body);
    let bytes = encode_utf8(pre + line + post);
    let ep = encode_utf8(pre);
    let el = encode_utf8(line);
    let a = ep.len() as int;
    let b = a + el.len();
    assert(bytes =~= ep + el + encode_utf8(post));
    assert forall|j: int| a <= j < b - 1 implies bytes[j] != 10 by {
        assert(bytes[j] == el[j - a]);
        assert(el[j - a] == encode_utf8(body)[j - a]);
    }
    assert forall|j: int| 0 <= j < el.len() - 1 implies #[trigger] el[j] != 10 by {
        assert(el[j] == encode_utf8(body)[j]);
    }
    assert(bytes[b - 1] == 10);
    lemma_line_end_at(bytes, a, b - 1);
    assert(bytes.subrange(a, b) =~= el);
    assert(bytes.subrange(b, bytes.len() as int) =~= encode_utf8(post));
    assert(bytes.subrange(0, a) =~= ep);
}

/// The content length that decoding the headers in order derives: the last
/// `content-length` header whose value is a number.
pub open spec fn derived_length(h: Pairs) -> nat
    decreases h.len(),
{
    if h.len() == 0 {
        0
    } else if is_content_length_key(h.last().0) && usize_of(h.last().1) is Some {
        usize_of(h.last().1).unwrap()
    } else {
        derived_length(h.drop_last())
    }
}

pub open spec fn lacks(s: Seq<char>, c: char) -> bool {
    forall|i: int| 0 <= i < s.len() ==> s[i] != c
}

/// A header that its wire line gives back: no line break, a key without `:`
/// or surrounding whitespace, a value without surrounding whitespace.
pub open spec fn header_survives(p: (Seq<char>, Seq<char>)) -> bool {
    &&& lacks(p.0, '\n')
    &&& lacks(p.0, ':')
    &&& lacks(p.1, '\n')
    &&& trim_of(p.0) == p.0
    &&& (p.1.len() == 0 || (!is_ws(p.1[0]) && !is_ws(p.1.last())))
}

/// A response of ASCII text whose parts its wire form gives back: a known
/// version, a one-line reason without surrounding whitespace, headers as
/// above, and a body as long as the headers announce.
pub open spec fn survives_wire(r: ResponseView) -> bool {
    &&& r.wf()
    &&& r.version != HTTPVersion::UnknownVersion
    &&& r.reason.len() > 0
    &&& !is_ws(r.reason[0])
    &&& !is_ws(r.reason.last())
    &&& lacks(r.reason, '\n')
    &&& forall|i: int| 0 <= i < r.headers.len() ==> header_survives(#[trigger] r.headers[i])
    &&& derived_length(r.headers) == encode_utf8(r.body).len()
}

pub open spec fn status_line_of(r: ResponseView) -> Seq<char> {
    version_token(r.version) + " "@ + signed_decimal_of(r.status_code) + " "@ + r.reason + "\r\n"@
}

proof fn lemma_status_line(r: ResponseView)
    requires
        survives_wire(r),
    ensures
        wire_of(r) == status_line_of(r) + header_lines(r.headers) + "\r\n"@ + r.body,
        status_line_of(r).len() >= 1,
        status_line_of(r).last() == '\n',
        lacks(status_line_of(r).drop_last(), '\n'),
        status_line_result(empty_response(), status_line_of(r)) == Ok::<ResponseView, crate::error::ErrorView>(
            ResponseView { version: r.version, status_code: r.status_code, reason: r.reason, ..empty_response() },
        ),
{
    reveal_strlit("HTTP/1.0");
    reveal_strlit("HTTP/1.1");
    reveal_strlit(" ");
    reveal_strlit("\r\n");
    let w = wire_of(r);
    let l = status_line_of(r);
    let vt = version_token(r.version);
    let sd = signed_decimal_of(r.status_code);
    lemma_signed_decimal(r.status_code);
    assert(w =~= l + header_lines(r.headers) + "\r\n"@ + r.body);
    assert(vt.len() == 8);
    assert(forall|i: int| 0 <= i < 8 ==> !is_ascii_ws(#[trigger] vt[i]) && vt[i] != '\n');
    let b0 = 8int;
    let a1 = 9int;
    let b1: int = 9 + sd.len() as int;
    let a2: int = b1 + 1;
    let n: int = l.len() as int;
    assert(n == a2 + r.reason.len() + 2);
    assert forall|i: int| 0 <= i < b0 implies !is_ascii_ws(#[trigger] l[i]) by {
        assert(l[i] == vt[i]);
    }
    assert(is_ascii_ws(l[b0]));
    lemma_skip_ws_run(l, 0, 0);
    lemma_skip_token_run(l, 0, b0);
    assert(l[a1] == sd[0]);
    lemma_skip_ws_run(l, b0, a1);
    assert forall|i: int| a1 <= i < b1 implies !is_ascii_ws(#[trigger] l[i]) by {
        assert(l[i] == sd[i - a1]);
    }
    assert(is_ascii_ws(l[b1]));
    lemma_skip_token_run(l, a1, b1);
    assert(l[a2] == r.reason[0]);
    lemma_skip_ws_run(l, b1, a2);
    assert(l.subrange(0, b0) =~= vt);
    assert(l.subrange(a1, b1) =~= sd);
    let rest = l.subrange(a2, n);
    assert(rest =~= r.reason + "\r\n"@);
    assert(rest.drop_last() =~= r.reason + seq!['\r']);
    assert((r.reason + seq!['\r']).drop_last() =~= r.reason);
    assert(is_ws(rest.last()));
    assert(trim_end_of(rest) == trim_end_of(rest.drop_last()));
    let r2 = rest.drop_last();
    assert(is_ws(r2.last()));
    assert(trim_end_of(r2) == trim_end_of(r2.drop_last()));
    assert(trim_end_of(r.reason) == r.reason);
    assert(trim_end_of(rest) == r.reason);
    if r.version == HTTPVersion::HTTP1_1 {
        assert(vt[7] != "HTTP/1.0"@[7]);
    }
    assert(version_of(vt) == r.version);

    assert forall|i: int| 0 <= i < n - 1 implies l.drop_last()[i] != '\n' by {
        assert(l.drop_last()[i] == l[i]);
        if i < b0 {
            assert(l[i] == vt[i]);
        } else if a1 <= i < b1 {
            assert(l[i] == sd[i - a1]);
        } else if a2 <= i < n - 2 {
            assert(l[i] == r.reason[i - a2]);
        }
    }
    assert(l.last() == '\n');
}

pub open spec fn header_line_of(p: (Seq<char>, Seq<char>)) -> Seq<char> {
    p.0 + ": "@ + p.1 + "\r\n"@
}

/// The response once the status line and the first `i` headers are read.
pub open spec fn state_after(r: ResponseView, i: int) -> ResponseView {
    ResponseView {
        version: r.version,
        status_code: r.status_code,
        reason: r.reason,
        headers: r.headers.subrange(0, i),
        content_length: derived_length(r.headers.subrange(0, i)),
        ..empty_response()
    }
}

/// Where the line of header `i` starts on the wire.
pub open spec fn header_pos(r: ResponseView, i: int) -> int {
    (status_line_of(r).len() + header_lines(r.headers.subrange(0, i)).len()) as int
}

proof fn lemma_header_lines_step(h: Pairs, i: int)
    requires
        0 <= i < h.len(),
    ensures
        header_lines(h.subrange(0, i + 1)) == header_lines(h.subrange(0, i)) + header_line_of(h[i]),
{
    assert(h.subrange(0, i + 1).drop_last() =~= h.subrange(0, i));
    assert(header_lines(h.subrange(0, i + 1)) =~= header_lines(h.subrange(0, i)) + header_line_of(h[i]));
}

proof fn lemma_header_lines_prefix(h: Pairs, i: int)
    requires
        0 <= i <= h.len(),
    ensures
        header_lines(h.subrange(0, i)).len() <= header_lines(h).len(),
        header_lines(h).subrange(0, header_lines(h.subrange(0, i)).len() as int) == header_lines(h.subrange(0, i)),
    decreases h.len() - i,
{
    if i == h.len() {
        assert(h.subrange(0, i) =~= h);
    } else {
        lemma_header_lines_prefix(h, i + 1);
        lemma_header_lines_step(h, i);
        let a = header_lines(h.subrange(0, i));
        let b = header_lines(h.subrange(0, i + 1));
        assert(b.subrange(0, a.len() as int) =~= a);
        assert(header_lines(h).subrange(0, a.len() as int) =~= b.subrange(0, a.len() as int));
    }
}

proof fn lemma_trim_value(v: Seq<char>)
    requires
        v.len() == 0 || (!is_ws(v[0]) && !is_ws(v.last())),
    ensures
        trim_end_of(trim_start_of(" "@ + v + "\r\n"@)) == v,
{
    reveal_strlit(" ");
    reveal_strlit("\r\n");
    let t = " "@ + v + "\r\n"@;
    assert(t.drop_first() =~= v + "\r\n"@);
    assert(trim_start_of(t) == trim_start_of(v + "\r\n"@));
    if v.len() == 0 {
        let u = v + "\r\n"@;
        assert(u.drop_first() =~= seq!['\n']);
        assert(seq!['\n'].drop_first() =~= Seq::<char>::empty());
        assert(trim_start_of(seq!['\n']) == trim_start_of(Seq::<char>::empty()));
        assert(trim_start_of(u) == Seq::<char>::empty());
        assert(v =~= Seq::<char>::empty());
    } else {
        let u = v + "\r\n"@;
        assert(u[0] == v[0]);
        assert(trim_start_of(u) == u);
        assert(u.drop_last() =~= v + seq!['\r']);
        assert((v + seq!['\r']).drop_last() =~= v);
        assert(trim_end_of(u) == trim_end_of(u.drop_last()));
        assert(trim_end_of(v + seq!['\r']) == trim_end_of(v));
        assert(trim_end_of(v) == v);
    }
}

proof fn lemma_header_line_place(r: ResponseView, i: int)
    requires
        survives_wire(r),
        0 <= i < r.headers.len(),
    ensures
        header_pos(r, i + 1) == header_pos(r, i) + header_line_of(r.headers[i]).len(),
        header_pos(r, i) < header_pos(r, i + 1) <= wire_of(r).len(),
        wire_of(r).subrange(header_pos(r, i), header_pos(r, i + 1)) == header_line_of(r.headers[i]),
{
    reveal_strlit(": ");
    reveal_strlit("\r\n");
    let h = r.headers;
    let w = wire_of(r);
    let l = status_line_of(r);
    let hl = header_lines(h);
    let line = header_line_of(h[i]);
    let a = header_pos(r, i);
    let b = header_pos(r, i + 1);
    lemma_status_line(r);
    lemma_header_lines_step(h, i);
    lemma_header_lines_prefix(h, i + 1);
    let hi = header_lines(h.subrange(0, i));
    let hj = header_lines(h.subrange(0, i + 1));
    assert(w.len() == l.len() + hl.len() + 2 + r.body.len());
    assert forall|j: int| 0 <= j < line.len() implies w[a + j] == line[j] by {
        assert(hj[hi.len() + j] == line[j]);
        assert(hl[hi.len() + j] == hj[hi.len() + j]);
        assert(w[a + j] == hl[hi.len() + j]);
    }
    assert(w.subrange(a, b) =~= line);
}

proof fn lemma_line_chars(p: (Seq<char>, Seq<char>))
    requires
        header_survives(p),
    ensures
        header_line_of(p).len() >= 4,
        header_line_of(p)[1] != '\n',
        header_line_of(p).last() == '\n',
        forall|j: int| 0 <= j < header_line_of(p).len() - 1 ==> #[trigger] header_line_of(p)[j] != '\n',
        colon_index(header_line_of(p), 0) == p.0.len(),
        header_line_of(p).subrange(0, p.0.len() as int) == p.0,
        trim_end_of(trim_start_of(header_line_of(p).subrange(p.0.len() as int + 1, header_line_of(p).len() as int))) == p.1,
{
    reveal_strlit(": ");
    reveal_strlit("\r\n");
    reveal_strlit(" ");
    let line = header_line_of(p);
    let kl = p.0.len() as int;
    assert forall|j: int| 0 <= j < line.len() - 1 implies #[trigger] line[j] != '\n' by {
        if j < kl {
            assert(line[j] == p.0[j]);
        } else if kl + 2 <= j < kl + 2 + p.1.len() {
            assert(line[j] == p.1[j - kl - 2]);
        }
    }
    assert forall|j: int| 0 <= j < kl implies line[j] != ':' by {
        assert(line[j] == p.0[j]);
    }
    lemma_colon_run(line, 0, kl);
    assert(line.subrange(0, kl) =~= p.0);
    assert(line.subrange(kl + 1, line.len() as int) =~= " "@ + p.1 + "\r\n"@);
    lemma_trim_value(p.1);
}

/// The wire text before the line of header `i`.
pub open spec fn wire_prefix(r: ResponseView, i: int) -> Seq<char> {
    status_line_of(r) + header_lines(r.headers.subrange(0, i))
}

/// Where the line of header `i` starts among the wire bytes.
pub open spec fn byte_pos(r: ResponseView, i: int) -> int {
    encode_utf8(wire_prefix(r, i)).len() as int
}

proof fn lemma_wire_split(r: ResponseView, i: int)
    requires
        survives_wire(r),
        0 <= i < r.headers.len(),
    ensures
        wire_of(r) == wire_prefix(r, i) + header_line_of(r.headers[i])
            + wire_of(r).subrange(header_pos(r, i + 1), wire_of(r).len() as int),
        wire_prefix(r, i + 1) == wire_prefix(r, i) + header_line_of(r.headers[i]),
{
    let h = r.headers;
    let w = wire_of(r);
    let l = status_line_of(r);
    let a = header_pos(r, i);
    let b = header_pos(r, i + 1);
    lemma_header_line_place(r, i);
    lemma_status_line(r);
    lemma_header_lines_prefix(h, i);
    lemma_header_lines_step(h, i);
    let hl = header_lines(h);
    let hi = header_lines(h.subrange(0, i));
    assert(w.subrange(0, a) =~= l + hl.subrange(0, hi.len() as int));
    assert(w.subrange(0, a) =~= wire_prefix(r, i));
    assert(w =~= w.subrange(0, a) + w.subrange(a, b) + w.subrange(b, w.len() as int));
    assert(wire_prefix(r, i + 1) =~= wire_prefix(r, i) + header_line_of(h[i]));
}

proof fn lemma_header_step(r: ResponseView, i: int)
    requires
        survives_wire(r),
        0 <= i < r.headers.len(),
    ensures
        line_end(encode_utf8(wire_of(r)), byte_pos(r, i)) == byte_pos(r, i + 1),
        byte_pos(r, i) < byte_pos(r, i + 1) <= encode_utf8(wire_of(r)).len(),
        header_line_result(state_after(r, i), encode_utf8(wire_of(r)).subrange(byte_pos(r, i), byte_pos(r, i + 1)))
            == Ok::<Option<ResponseView>, crate::error::ErrorView>(Some(state_after(r, i + 1))),
{
    let h = r.headers;
    let w = wire_of(r);
    let p = h[i];
    let line = header_line_of(p);
    assert(header_survives(p));
    lemma_wire_split(r, i);
    lemma_line_chars(p);
    assert forall|j: int| 0 <= j < line.drop_last().len() implies line.drop_last()[j] != '\n' by {
        assert(line.drop_last()[j] == line[j]);
    }
    let pre = wire_prefix(r, i);
    let tail = w.subrange(header_pos(r, i + 1), w.len() as int);
    lemma_line_bytes(pre, line, tail);
    lemma_encode_concat(pre, line);
    let lb = encode_utf8(line);
    vstd::utf8::encode_utf8_valid_utf8(line);
    vstd::utf8::encode_utf8_decode_utf8(line);
    assert(lb[1] != 10);
    assert(!ends_headers(lb));
    let kl = p.0.len() as int;
    let val = trim_start_of(line.subrange(kl + 1, line.len() as int));
    assert(header_line_result(state_after(r, i), lb) == Ok::<Option<ResponseView>, crate::error::ErrorView>(
        Some(with_header(state_after(r, i), p.0, val))));
    assert(!has_key(h.subrange(0, i), p.0)) by {
        if has_key(h.subrange(0, i), p.0) {
            let q = choose|q: int| 0 <= q < i && #[trigger] h.subrange(0, i)[q].0 == p.0;
            assert(h[q].0 == h[i].0);
        }
    }
    assert(pairs_insert(h.subrange(0, i), p.0, p.1) =~= h.subrange(0, i + 1));
    assert(h.subrange(0, i + 1).drop_last() =~= h.subrange(0, i));
    assert(with_header(state_after(r, i), p.0, val) == state_after(r, i + 1));
}

proof fn lemma_crlf_bytes()
    ensures
        encode_utf8("\r\n"@) == seq![13u8, 10u8],
{
    reveal_strlit("\r\n");
    lemma_scalar_bytes('\r');
    lemma_scalar_bytes('\n');
    let t = "\r\n"@;
    assert(t.drop_first() =~= seq!['\n']);
    assert(seq!['\n'].drop_first() =~= Seq::<char>::empty());
    lemma_newline_bytes();
    assert(encode_utf8(t) =~= seq![13u8, 10u8]);
}

/// The wire text after the header lines: the blank line and the body.
proof fn lemma_wire_end(r: ResponseView)
    requires
        survives_wire(r),
    ensures
        wire_of(r) == wire_prefix(r, r.headers.len() as int) + "\r\n"@ + r.body,
{
    lemma_status_line(r);
    assert(r.headers.subrange(0, r.headers.len() as int) =~= r.headers);
}

proof fn lemma_headers_from(r: ResponseView, i: int)
    requires
        survives_wire(r),
        0 <= i <= r.headers.len(),
    ensures
        decode_headers(encode_utf8(wire_of(r)), byte_pos(r, i), state_after(r, i))
            == Ok::<(ResponseView, int), crate::error::ErrorView>(
            (state_after(r, r.headers.len() as int), byte_pos(r, r.headers.len() as int) + 2),
        ),
    decreases r.headers.len() - i,
{
    let n = r.headers.len() as int;
    if i < n {
        lemma_header_step(r, i);
        lemma_headers_from(r, i + 1);
    } else {
        reveal_strlit("\r\n");
        lemma_wire_end(r);
        lemma_crlf_bytes();
        let crlf = "\r\n"@;
        assert(crlf.drop_last() =~= seq!['\r']);
        lemma_line_bytes(wire_prefix(r, n), crlf, r.body);
        let bytes = encode_utf8(wire_of(r));
        let lb = bytes.subrange(byte_pos(r, n), byte_pos(r, n) + 2);
        assert(lb == seq![13u8, 10u8]);
        assert(ends_headers(lb));
    }
}

/// Serialising a response and decoding its bytes gives back its version,
/// status code, reason, headers and body, with the content length equal to
/// the body's length in bytes. This holds for a response whose parts survive
/// the line framing: a known version, a reason with no line break nor
/// surrounding whitespace, header keys with no `:`, no line break nor
/// surrounding whitespace, values with no line break nor surrounding
/// whitespace, and a body as long in bytes as its content-length headers say.
pub proof fn lemma_round_trip(r: ResponseView)
    requires
        survives_wire(r),
    ensures
        decode_result(encode_utf8(wire_of(r))) == Ok::<ResponseView, crate::error::ErrorView>(
            ResponseView { content_length: encode_utf8(r.body).len(), ..r },
        ),
{
    reveal_strlit("\r\n");
    let w = wire_of(r);
    let bytes = encode_utf8(w);
    let l = status_line_of(r);
    let n = r.headers.len() as int;
    lemma_status_line(r);
    let rest = header_lines(r.headers) + "\r\n"@ + r.body;
    assert(w =~= Seq::<char>::empty() + l + rest);
    lemma_line_bytes(Seq::<char>::empty(), l, rest);
    assert(encode_utf8(Seq::<char>::empty()).len() == 0);
    let e = encode_utf8(l).len() as int;
    vstd::utf8::encode_utf8_valid_utf8(l);
    vstd::utf8::encode_utf8_decode_utf8(l);
    assert(r.headers.subrange(0, 0) =~= Seq::<(Seq<char>, Seq<char>)>::empty());
    assert(header_lines(r.headers.subrange(0, 0)) =~= Seq::<char>::empty());
    assert(wire_prefix(r, 0) =~= l);
    assert(byte_pos(r, 0) == e);
    assert(state_after(r, 0) == ResponseView { version: r.version, status_code: r.status_code, reason: r.reason, ..empty_response() });
    lemma_headers_from(r, 0);
    assert(r.headers.subrange(0, n) =~= r.headers);
    lemma_wire_end(r);
    lemma_crlf_bytes();
    let crlf = "\r\n"@;
    assert(crlf.drop_last() =~= seq!['\r']);
    lemma_line_bytes(wire_prefix(r, n), crlf, r.body);
    let p = byte_pos(r, n) + 2;
    let eb = encode_utf8(r.body);
    assert(bytes.subrange(p, bytes.len() as int) == eb);
    assert(bytes.len() == p + eb.len());
    let fin = state_after(r, n);
    assert(fin.content_length == eb.len());
    if eb.len() == 0 {
        lemma_encode_len(r.body);
        assert(r.body =~= Seq::<char>::empty());
    } else {
        assert(bytes.subrange(p, p + eb.len()) =~= eb);
        vstd::utf8::encode_utf8_valid_utf8(r.body);
        vstd::utf8::encode_utf8_decode_utf8(r.body);
    }
    assert(after_headers(bytes, Ok((fin, p))) == Ok::<ResponseView, crate::error::ErrorView>(
        ResponseView { content_length: eb.len(), ..r }));
}

} // verus!
