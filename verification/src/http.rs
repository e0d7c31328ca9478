//! The HTTP message codec: stateless parsing of a raw byte buffer into a
//! structured request or response, with header framing, `Content-Length`
//! bodies and gzip decompression.

use vstd::prelude::*;
use vstd::string::StrSliceExecFns;
use vstd::string::StringExecFns;

verus! {

// ---------------------------------------------------------------------------
// Structured messages
// ---------------------------------------------------------------------------

/// One HTTP header as received; the name's case is preserved.
#[derive(Debug)]
pub struct Header {
    pub name: String,
    pub value: String,
}

/// A parsed HTTP request.
#[derive(Debug)]
pub struct Req {
    pub method: String,
    pub path: String,
    pub version: String,
    pub headers: Vec<Header>,
    pub body: Option<String>,
}

/// A parsed HTTP response.
#[derive(Debug)]
pub struct Resp {
    pub version: String,
    pub code: u16,
    pub reason: Option<String>,
    pub headers: Vec<Header>,
    pub body: Option<String>,
}

/// Errors surfaced by the codec and the flow store.
#[derive(Debug)]
pub enum ParseError {
    /// The header block terminator, or a declared body length, is not within
    /// the available bytes.
    Truncated,
    /// The request line, status line or a header line does not have the
    /// expected shape, or holds bytes that are not valid UTF-8.
    Malformed,
    /// The response declared a `Content-Encoding` the codec does not support.
    UnknownContentEncoding(String),
    /// The gzip stream could not be decoded to text.
    DecompressionFailure,
    /// A routed packet referenced a flow no longer present in the store;
    /// unreachable while flows are never removed, kept as a defensive case.
    FlowNotFound,
}

// ---------------------------------------------------------------------------
// Mathematical views of the structured messages
// ---------------------------------------------------------------------------

#[verifier::ext_equal]
pub struct ReqView {
    pub method: Seq<char>,
    pub path: Seq<char>,
    pub version: Seq<char>,
    pub headers: Seq<(Seq<char>, Seq<char>)>,
    pub body: Option<Seq<char>>,
}

#[verifier::ext_equal]
pub struct RespView {
    pub version: Seq<char>,
    pub code: u16,
    pub reason: Option<Seq<char>>,
    pub headers: Seq<(Seq<char>, Seq<char>)>,
    pub body: Option<Seq<char>>,
}

#[verifier::ext_equal]
pub enum ParseErrorView {
    Truncated,
    Malformed,
    UnknownContentEncoding(Seq<char>),
    DecompressionFailure,
    FlowNotFound,
}

impl View for Header {
    type V = (Seq<char>, Seq<char>);

    open spec fn view(&self) -> (Seq<char>, Seq<char>) {
        (self.name@, self.value@)
    }
}

pub open spec fn hdrs_view(hs: Seq<Header>) -> Seq<(Seq<char>, Seq<char>)> {
    hs.map_values(|h: Header| h@)
}

impl View for Req {
    type V = ReqView;

    open spec fn view(&self) -> ReqView {
        ReqView {
            method: self.method@,
            path: self.path@,
            version: self.version@,
            headers: hdrs_view(self.headers@),
            body: match self.body {
                Some(b) => Some(b@),
                None => None,
            },
        }
    }
}

impl View for Resp {
    type V = RespView;

    open spec fn view(&self) -> RespView {
        RespView {
            version: self.version@,
            code: self.code,
            reason: match self.reason {
                Some(r) => Some(r@),
                None => None,
            },
            headers: hdrs_view(self.headers@),
            body: match self.body {
                Some(b) => Some(b@),
                None => None,
            },
        }
    }
}

impl View for ParseError {
    type V = ParseErrorView;

    open spec fn view(&self) -> ParseErrorView {
        match self {
            ParseError::Truncated => ParseErrorView::Truncated,
            ParseError::Malformed => ParseErrorView::Malformed,
            ParseError::UnknownContentEncoding(e) => ParseErrorView::UnknownContentEncoding(e@),
            ParseError::DecompressionFailure => ParseErrorView::DecompressionFailure,
            ParseError::FlowNotFound => ParseErrorView::FlowNotFound,
        }
    }
}

// ---------------------------------------------------------------------------
// Byte-level searching
// ---------------------------------------------------------------------------

/// A `\r\n\r\n` terminator starts at position `i`.
pub open spec fn head_end_at(b: Seq<u8>, i: int) -> bool {
    b[i] == 13u8 && b[i + 1] == 10u8 && b[i + 2] == 13u8 && b[i + 3] == 10u8
}

/// Position of the first header-block terminator `\r\n\r\n` at or after `i`.
pub open spec fn find_head_end(b: Seq<u8>, i: int) -> Option<int>
    decreases b.len() - i,
{
    if i + 4 > b.len() {
        None
    } else if head_end_at(b, i) {
        Some(i)
    } else {
        find_head_end(b, i + 1)
    }
}

/// Position of the first `\r\n` pair lying entirely in `[i, end)`.
pub open spec fn find_crlf_in(b: Seq<u8>, i: int, end: int) -> Option<int>
    decreases end - i,
{
    if i + 2 > end {
        None
    } else if b[i] == 13u8 && b[i + 1] == 10u8 {
        Some(i)
    } else {
        find_crlf_in(b, i + 1, end)
    }
}

/// Position of the first occurrence of `x` in `[i, end)`.
pub open spec fn find_byte_in(b: Seq<u8>, x: u8, i: int, end: int) -> Option<int>
    decreases end - i,
{
    if i >= end {
        None
    } else if b[i] == x {
        Some(i)
    } else {
        find_byte_in(b, x, i + 1, end)
    }
}

// ---------------------------------------------------------------------------
// Whitespace trimming of header values
// ---------------------------------------------------------------------------

pub open spec fn is_ws(x: u8) -> bool {
    x == 32u8 || x == 9u8
}

/// First position in `[i, end)` that is not a space or tab, or `end`.
pub open spec fn skip_ws_fwd(b: Seq<u8>, i: int, end: int) -> int
    decreases end - i,
{
    if i >= end {
        end
    } else if is_ws(b[i]) {
        skip_ws_fwd(b, i + 1, end)
    } else {
        i
    }
}

/// Largest position `e` in `[i, end]` with no trailing space or tab before it.
pub open spec fn skip_ws_back(b: Seq<u8>, i: int, end: int) -> int
    decreases end - i,
{
    if end <= i {
        i
    } else if is_ws(b[end - 1]) {
        skip_ws_back(b, i, end - 1)
    } else {
        end
    }
}

// ---------------------------------------------------------------------------
// Decoding names: UTF-8 and gzip, through trusted items
// ---------------------------------------------------------------------------

pub uninterp spec fn utf8_of(b: Seq<u8>) -> Option<Seq<char>>;

/// Relies on std's `String::from_utf8`: whether a byte sequence decodes, and
/// to what text, depends on the byte values alone.
#[verifier::external_body]
fn utf8_decode(b: Vec<u8>) -> (r: Option<String>)
    ensures
        match r {
            Some(s) => utf8_of(b@) == Some(s@),
            None => utf8_of(b@) is None,
        },
{
    String::from_utf8(b).ok()
}

pub uninterp spec fn gunzip_text_of(b: Seq<u8>) -> Option<Seq<char>>;

/// Relies on `flate2::read::MultiGzDecoder` driven by std's
/// `Read::read_to_string`: whether a multi-member gzip stream decompresses to
/// UTF-8 text, and to what text, depends on the byte values alone.
#[verifier::external_body]
fn unzip_content(b: &Vec<u8>) -> (r: Option<String>)
    ensures
        match r {
            Some(s) => gunzip_text_of(b@) == Some(s@),
            None => gunzip_text_of(b@) is None,
        },
{
    let mut gz = flate2::read::MultiGzDecoder::new(b.as_slice());
    let mut s = String::new();
    match std::io::Read::read_to_string(&mut gz, &mut s) {
        Ok(_) => Some(s),
        Err(_) => None,
    }
}

/// The text of a body that is not further encoded: its UTF-8 decoding, or the
/// fixed sentinel `alt` when the bytes are not valid UTF-8.
pub open spec fn utf8_or(b: Seq<u8>, alt: Seq<char>) -> Seq<char> {
    match utf8_of(b) {
        Some(t) => t,
        None => alt,
    }
}

// ---------------------------------------------------------------------------
// Header mapping: last occurrence wins, case-insensitive lookups
// ---------------------------------------------------------------------------

/// Index of the first header whose name equals `n` exactly, searching from `i`.
pub open spec fn find_name(hs: Seq<(Seq<char>, Seq<char>)>, n: Seq<char>, i: int) -> Option<int>
    decreases hs.len() - i,
{
    if i >= hs.len() {
        None
    } else if hs[i].0 == n {
        Some(i)
    } else {
        find_name(hs, n, i + 1)
    }
}

/// Insert a header: a later occurrence of the same name overwrites the
/// earlier one, in place; a new name is appended.
pub open spec fn upsert(
    hs: Seq<(Seq<char>, Seq<char>)>,
    n: Seq<char>,
    v: Seq<char>,
) -> Seq<(Seq<char>, Seq<char>)> {
    match find_name(hs, n, 0) {
        Some(j) => hs.update(j, (n, v)),
        None => hs.push((n, v)),
    }
}

/// ASCII lowercasing of one character.
pub open spec fn lower_char(c: char) -> char {
    if 'A' <= c && c <= 'Z' {
        ((c as u8) + 32) as char
    } else {
        c
    }
}

pub open spec fn lower_seq(s: Seq<char>) -> Seq<char> {
    s.map_values(|c: char| lower_char(c))
}

/// Index of the first header, searching from `i`, whose lowercased name
/// equals `target` (`target` itself already lowercase).
pub open spec fn find_name_ci(
    hs: Seq<(Seq<char>, Seq<char>)>,
    target: Seq<char>,
    i: int,
) -> Option<int>
    decreases hs.len() - i,
{
    if i >= hs.len() {
        None
    } else if lower_seq(hs[i].0) == target {
        Some(i)
    } else {
        find_name_ci(hs, target, i + 1)
    }
}

// ---------------------------------------------------------------------------
// Decimal values
// ---------------------------------------------------------------------------

pub open spec fn is_digit(c: char) -> bool {
    '0' <= c && c <= '9'
}

pub open spec fn all_digits(s: Seq<char>) -> bool {
    forall|i: int| 0 <= i < s.len() ==> is_digit(#[trigger] s[i])
}

/// The number written in decimal by `s`, most significant digit first.
pub open spec fn dec_num(s: Seq<char>) -> int
    decreases s.len(),
{
    if s.len() == 0 {
        0
    } else {
        dec_num(s.drop_last()) * 10 + ((s.last() as u8) - 48)
    }
}

/// The value of a `Content-Length` header: a non-empty string of decimal
/// digits whose value fits the machine, anything else being treated as absent.
pub open spec fn dec_val(s: Seq<char>) -> Option<usize> {
    if s.len() > 0 && all_digits(s) && dec_num(s) <= usize::MAX {
        Some(dec_num(s) as usize)
    } else {
        None
    }
}

/// The declared body length: the first case-insensitive `content-length`
/// header's value as a decimal number.
pub open spec fn content_length_of(hs: Seq<(Seq<char>, Seq<char>)>) -> Option<usize> {
    match find_name_ci(hs, "content-length"@, 0) {
        Some(j) => dec_val(hs[j].1),
        None => None,
    }
}

/// The declared content encoding: the first case-insensitive
/// `content-encoding` header's value, as received.
pub open spec fn content_encoding_of(hs: Seq<(Seq<char>, Seq<char>)>) -> Option<Seq<char>> {
    match find_name_ci(hs, "content-encoding"@, 0) {
        Some(j) => Some(hs[j].1),
        None => None,
    }
}

// ---------------------------------------------------------------------------
// Line grammar
// ---------------------------------------------------------------------------

/// The version part of a start line: `HTTP/` followed by the version text.
pub open spec fn http_slash_at(b: Seq<u8>, i: int) -> bool {
    b[i] == 72u8 && b[i + 1] == 84u8 && b[i + 2] == 84u8 && b[i + 3] == 80u8 && b[i + 4] == 47u8
}

/// Split a request line `[0, end)` of `b` into method, path and version
/// bytes: two single spaces, a non-empty method and path, and a version part
/// beginning with `HTTP/`.
pub open spec fn spec_request_line(b: Seq<u8>, end: int) -> Option<(Seq<u8>, Seq<u8>, Seq<u8>)> {
    match find_byte_in(b, 32u8, 0, end) {
        None => None,
        Some(s1) => match find_byte_in(b, 32u8, s1 + 1, end) {
            None => None,
            Some(s2) => {
                if s1 == 0 || s2 == s1 + 1 || end - (s2 + 1) < 5 || !http_slash_at(b, s2 + 1) {
                    None
                } else {
                    Some(
                        (
                            b.subrange(0, s1),
                            b.subrange(s1 + 1, s2),
                            b.subrange(s2 + 1 + 5, end),
                        ),
                    )
                }
            },
        },
    }
}

/// Split a status line `[0, end)` of `b` into version bytes, status code and
/// optional reason bytes: `HTTP/<version> <code>[ <reason>]`, the code a
/// decimal number that fits `u16`.
pub open spec fn spec_status_line(b: Seq<u8>, end: int) -> Option<(Seq<u8>, u16, Option<Seq<u8>>)> {
    match find_byte_in(b, 32u8, 0, end) {
        None => None,
        Some(s1) => {
            if s1 < 5 || !http_slash_at(b, 0) {
                None
            } else {
                let code_end = match find_byte_in(b, 32u8, s1 + 1, end) {
                    Some(s2) => s2,
                    None => end,
                };
                let code = b.subrange(s1 + 1, code_end);
                if code.len() == 0 || !all_digits_b(code) || dec_num_b(code) > u16::MAX {
                    None
                } else {
                    let reason = match find_byte_in(b, 32u8, s1 + 1, end) {
                        Some(s2) => Some(b.subrange(s2 + 1, end)),
                        None => None,
                    };
                    Some((b.subrange(5, s1), dec_num_b(code) as u16, reason))
                }
            }
        },
    }
}

pub open spec fn is_digit_b(x: u8) -> bool {
    48 <= x <= 57
}

pub open spec fn all_digits_b(s: Seq<u8>) -> bool {
    forall|i: int| 0 <= i < s.len() ==> is_digit_b(#[trigger] s[i])
}

pub open spec fn dec_num_b(s: Seq<u8>) -> int
    decreases s.len(),
{
    if s.len() == 0 {
        0
    } else {
        dec_num_b(s.drop_last()) * 10 + (s.last() - 48)
    }
}

/// Split a header line `[i, end)` of `b` at the first colon into the raw name
/// and the value with surrounding spaces and tabs removed, then decode both
/// as UTF-8.
pub open spec fn spec_header_line(b: Seq<u8>, i: int, end: int) -> Option<(Seq<char>, Seq<char>)> {
    match find_byte_in(b, 58u8, i, end) {
        None => None,
        Some(c) => {
            if c == i {
                None
            } else {
                let vs = skip_ws_fwd(b, c + 1, end);
                let ve = skip_ws_back(b, vs, end);
                match (utf8_of(b.subrange(i, c)), utf8_of(b.subrange(vs, ve))) {
                    (Some(n), Some(v)) => Some((n, v)),
                    _ => None,
                }
            }
        },
    }
}

/// A found `\r\n` never lies before the start of the searched range.
pub proof fn lemma_find_crlf_in_ge(b: Seq<u8>, i: int, end: int)
    ensures
        find_crlf_in(b, i, end) matches Some(e) ==> i <= e && e + 2 <= end,
    decreases end - i,
{
    if i + 2 <= end && !(b[i] == 13u8 && b[i + 1] == 10u8) {
        lemma_find_crlf_in_ge(b, i + 1, end);
    }
}

/// Parse the header lines lying in `[i, end)` of `b`, folding each into the
/// header mapping `acc`.
pub open spec fn spec_header_block(
    b: Seq<u8>,
    i: int,
    end: int,
    acc: Seq<(Seq<char>, Seq<char>)>,
) -> Option<Seq<(Seq<char>, Seq<char>)>>
    decreases end - i via spec_header_block_decreases
{
    if i >= end {
        Some(acc)
    } else {
        let line_end = match find_crlf_in(b, i, end) {
            Some(e) => e,
            None => end,
        };
        match spec_header_line(b, i, line_end) {
            None => None,
            Some(h) => {
                let acc2 = upsert(acc, h.0, h.1);
                if line_end >= end {
                    Some(acc2)
                } else {
                    spec_header_block(b, line_end + 2, end, acc2)
                }
            },
        }
    }
}

#[via_fn]
proof fn spec_header_block_decreases(
    b: Seq<u8>,
    i: int,
    end: int,
    acc: Seq<(Seq<char>, Seq<char>)>,
) {
    lemma_find_crlf_in_ge(b, i, end);
}

// ---------------------------------------------------------------------------
// Executable searching and copying
// ---------------------------------------------------------------------------

fn find_head_end_exec(b: &Vec<u8>) -> (r: Option<usize>)
    ensures
        match r {
            Some(i) => find_head_end(b@, 0) == Some(i as int) && i + 4 <= b@.len(),
            None => find_head_end(b@, 0) is None,
        },
{
    let n = b.len();
    if n < 4 {
        return None;
    }
    let mut i: usize = 0;
    while i <= n - 4
        invariant
            n == b@.len(),
            4 <= n,
            i <= n - 3,
            find_head_end(b@, 0) == find_head_end(b@, i as int),
        decreases n - i,
    {
        if b[i] == 13 && b[i + 1] == 10 && b[i + 2] == 13 && b[i + 3] == 10 {
            return Some(i);
        }
        i += 1;
    }
    None
}

fn find_crlf_in_exec(b: &Vec<u8>, from: usize, end: usize) -> (r: Option<usize>)
    requires
        end <= b@.len(),
    ensures
        match r {
            Some(i) => find_crlf_in(b@, from as int, end as int) == Some(i as int) && from <= i
                && i + 2 <= end,
            None => find_crlf_in(b@, from as int, end as int) is None,
        },
{
    let mut i: usize = from;
    loop
        invariant
            end <= b@.len(),
            from <= i,
            find_crlf_in(b@, from as int, end as int) == find_crlf_in(b@, i as int, end as int),
        decreases end - i,
    {
        if end < 2 || i > end - 2 {
            return None;
        }
        if b[i] == 13 && b[i + 1] == 10 {
            return Some(i);
        }
        i += 1;
    }
}

fn find_byte_in_exec(b: &Vec<u8>, x: u8, from: usize, end: usize) -> (r: Option<usize>)
    requires
        end <= b@.len(),
    ensures
        match r {
            Some(i) => find_byte_in(b@, x, from as int, end as int) == Some(i as int) && from <= i
                && i < end,
            None => find_byte_in(b@, x, from as int, end as int) is None,
        },
{
    let mut i: usize = from;
    while i < end
        invariant
            end <= b@.len(),
            from <= i,
            find_byte_in(b@, x, from as int, end as int) == find_byte_in(
                b@,
                x,
                i as int,
                end as int,
            ),
        decreases end - i,
    {
        if b[i] == x {
            return Some(i);
        }
        i += 1;
    }
    None
}

fn skip_ws_fwd_exec(b: &Vec<u8>, from: usize, end: usize) -> (r: usize)
    requires
        from <= end,
        end <= b@.len(),
    ensures
        r == skip_ws_fwd(b@, from as int, end as int),
        from <= r <= end,
{
    let mut i: usize = from;
    while i < end
        invariant
            from <= i <= end,
            end <= b@.len(),
            skip_ws_fwd(b@, from as int, end as int) == skip_ws_fwd(b@, i as int, end as int),
        decreases end - i,
    {
        if !(b[i] == 32 || b[i] == 9) {
            return i;
        }
        i += 1;
    }
    i
}

fn skip_ws_back_exec(b: &Vec<u8>, from: usize, end: usize) -> (r: usize)
    requires
        from <= end,
        end <= b@.len(),
    ensures
        r == skip_ws_back(b@, from as int, end as int),
        from <= r <= end,
{
    let mut e: usize = end;
    while e > from
        invariant
            from <= e <= end,
            end <= b@.len(),
            skip_ws_back(b@, from as int, end as int) == skip_ws_back(b@, from as int, e as int),
        decreases e,
    {
        if !(b[e - 1] == 32 || b[e - 1] == 9) {
            return e;
        }
        e -= 1;
    }
    e
}

fn copy_range(b: &Vec<u8>, from: usize, to: usize) -> (r: Vec<u8>)
    requires
        from <= to,
        to <= b@.len(),
    ensures
        r@ == b@.subrange(from as int, to as int),
{
    let mut r: Vec<u8> = Vec::new();
    let mut j: usize = from;
    while j < to
        invariant
            from <= j <= to,
            to <= b@.len(),
            r@ == b@.subrange(from as int, j as int),
        decreases to - j,
    {
        r.push(b[j]);
        proof {
            assert(b@.subrange(from as int, j + 1) =~= b@.subrange(from as int, j as int).push(
                b@[j as int],
            ));
        }
        j += 1;
    }
    r
}

// ---------------------------------------------------------------------------
// Executable character and number handling
// ---------------------------------------------------------------------------

fn to_lower(c: char) -> (r: char)
    ensures
        r == lower_char(c),
{
    if 'A' <= c && c <= 'Z' {
        ((c as u8) + 32) as char
    } else {
        c
    }
}

/// Case-insensitive comparison of `a` against an already-lowercase `target`.
fn eq_ignore_case(a: &str, target: &str) -> (r: bool)
    ensures
        r == (lower_seq(a@) == target@),
{
    let n = a.unicode_len();
    if n != target.unicode_len() {
        return false;
    }
    let mut i: usize = 0;
    while i < n
        invariant
            n == a@.len(),
            n == target@.len(),
            i <= n,
            forall|j: int| 0 <= j < i ==> lower_seq(a@)[j] == target@[j],
        decreases n - i,
    {
        let c = a.get_char(i);
        let t = target.get_char(i);
        if to_lower(c) != t {
            assert(lower_seq(a@)[i as int] != target@[i as int]);
            return false;
        }
        i += 1;
    }
    proof {
        assert(lower_seq(a@) =~= target@);
    }
    true
}

proof fn lemma_dec_num_nonneg(s: Seq<char>)
    requires
        all_digits(s),
    ensures
        dec_num(s) >= 0,
    decreases s.len(),
{
    if s.len() > 0 {
        assert(all_digits(s.drop_last())) by {
            assert(forall|i: int|
                0 <= i < s.len() - 1 ==> s.drop_last()[i] == #[trigger] s[i]);
        }
        lemma_dec_num_nonneg(s.drop_last());
    }
}

proof fn lemma_dec_num_prefix_le(s: Seq<char>, j: int)
    requires
        all_digits(s),
        0 <= j <= s.len(),
    ensures
        dec_num(s.subrange(0, j)) <= dec_num(s),
    decreases s.len() - j,
{
    if j == s.len() {
        assert(s.subrange(0, j) =~= s);
    } else {
        let p = s.subrange(0, j);
        let p1 = s.subrange(0, j + 1);
        assert(p1.drop_last() =~= p);
        assert(all_digits(p)) by {
            assert(forall|i: int| 0 <= i < j ==> p[i] == #[trigger] s[i]);
        }
        lemma_dec_num_nonneg(p);
        assert(dec_num(p1) == dec_num(p) * 10 + ((s[j] as u8) - 48));
        lemma_dec_num_prefix_le(s, j + 1);
    }
}

/// Parse a decimal number, digits only, failing on anything else or on a
/// value that does not fit the machine.
fn parse_usize(s: &str) -> (r: Option<usize>)
    ensures
        r == dec_val(s@),
{
    let n = s.unicode_len();
    if n == 0 {
        return None;
    }
    let mut i: usize = 0;
    let mut acc: usize = 0;
    while i < n
        invariant
            n == s@.len(),
            0 < n,
            i <= n,
            all_digits(s@.subrange(0, i as int)),
            acc == dec_num(s@.subrange(0, i as int)),
        decreases n - i,
    {
        let c = s.get_char(i);
        if !('0' <= c && c <= '9') {
            assert(!is_digit(s@[i as int]));
            return None;
        }
        let d: usize = ((c as u8) - 48) as usize;
        let ghost p = s@.subrange(0, i as int);
        let ghost p1 = s@.subrange(0, i + 1);
        proof {
            assert(p1.drop_last() =~= p);
            assert(all_digits(p1)) by {
                assert(forall|k: int| 0 <= k < i ==> p1[k] == #[trigger] p[k]);
            }
            assert(dec_num(p1) == dec_num(p) * 10 + d);
        }
        let next = match acc.checked_mul(10) {
            Some(m) => m.checked_add(d),
            None => None,
        };
        match next {
            Some(v) => {
                acc = v;
            },
            None => {
                proof {
                    if all_digits(s@) {
                        lemma_dec_num_nonneg(p);
                        assert(dec_num(p1) > usize::MAX);
                        lemma_dec_num_prefix_le(s@, i + 1);
                    }
                }
                return None;
            },
        }
        i += 1;
    }
    proof {
        assert(s@.subrange(0, n as int) =~= s@);
    }
    Some(acc)
}

proof fn lemma_dec_num_b_nonneg(s: Seq<u8>)
    requires
        all_digits_b(s),
    ensures
        dec_num_b(s) >= 0,
    decreases s.len(),
{
    if s.len() > 0 {
        assert(all_digits_b(s.drop_last())) by {
            assert(forall|i: int|
                0 <= i < s.len() - 1 ==> s.drop_last()[i] == #[trigger] s[i]);
        }
        lemma_dec_num_b_nonneg(s.drop_last());
    }
}

proof fn lemma_dec_num_b_prefix_le(s: Seq<u8>, j: int)
    requires
        all_digits_b(s),
        0 <= j <= s.len(),
    ensures
        dec_num_b(s.subrange(0, j)) <= dec_num_b(s),
    decreases s.len() - j,
{
    if j == s.len() {
        assert(s.subrange(0, j) =~= s);
    } else {
        let p = s.subrange(0, j);
        let p1 = s.subrange(0, j + 1);
        assert(p1.drop_last() =~= p);
        assert(all_digits_b(p)) by {
            assert(forall|i: int| 0 <= i < j ==> p[i] == #[trigger] s[i]);
        }
        lemma_dec_num_b_nonneg(p);
        assert(dec_num_b(p1) == dec_num_b(p) * 10 + (s[j] - 48));
        lemma_dec_num_b_prefix_le(s, j + 1);
    }
}

/// Parse the status code written in `[from, to)` of `b`: a decimal number
/// that must fit `u16`.
fn parse_code(b: &Vec<u8>, from: usize, to: usize) -> (r: Option<u16>)
    requires
        from <= to,
        to <= b@.len(),
    ensures
        ({
            let code = b@.subrange(from as int, to as int);
            match r {
                Some(v) => code.len() > 0 && all_digits_b(code) && dec_num_b(code) == v,
                None => !(code.len() > 0 && all_digits_b(code) && dec_num_b(code) <= u16::MAX),
            }
        }),
{
    let ghost code = b@.subrange(from as int, to as int);
    if from == to {
        return None;
    }
    let mut i: usize = from;
    let mut acc: u32 = 0;
    while i < to
        invariant
            from < to,
            to <= b@.len(),
            from <= i <= to,
            code == b@.subrange(from as int, to as int),
            all_digits_b(code.subrange(0, i - from)),
            acc == dec_num_b(code.subrange(0, i - from)),
            acc <= 65535,
        decreases to - i,
    {
        let x = b[i];
        proof {
            assert(code[i - from] == b@[i as int]);
        }
        if !(48 <= x && x <= 57) {
            assert(!is_digit_b(code[i - from]));
            return None;
        }
        let d: u32 = (x - 48) as u32;
        let ghost p = code.subrange(0, i - from);
        let ghost p1 = code.subrange(0, i - from + 1);
        proof {
            assert(p1.drop_last() =~= p);
            assert(all_digits_b(p1)) by {
                assert(forall|k: int| 0 <= k < i - from ==> p1[k] == #[trigger] p[k]);
            }
            assert(dec_num_b(p1) == dec_num_b(p) * 10 + d);
        }
        let v = acc * 10 + d;
        if v > 65535 {
            proof {
                if all_digits_b(code) {
                    lemma_dec_num_b_prefix_le(code, i - from + 1);
                }
            }
            return None;
        }
        acc = v;
        i += 1;
    }
    proof {
        assert(code.subrange(0, to - from) =~= code);
    }
    Some(acc as u16)
}

// ---------------------------------------------------------------------------
// Executable header mapping
// ---------------------------------------------------------------------------

fn upsert_header(headers: &mut Vec<Header>, name: String, value: String)
    ensures
        hdrs_view(final(headers)@) == upsert(hdrs_view(old(headers)@), name@, value@),
{
    let ghost hv = hdrs_view(headers@);
    let mut j: usize = 0;
    while j < headers.len()
        invariant
            j <= headers@.len(),
            headers@ == old(headers)@,
            hv == hdrs_view(headers@),
            find_name(hv, name@, 0) == find_name(hv, name@, j as int),
        decreases headers@.len() - j,
    {
        proof {
            assert(hv[j as int] == headers@[j as int]@);
        }
        if headers[j].name == name {
            proof {
                assert(hv[j as int].0 == name@);
                assert(find_name(hv, name@, j as int) == Some(j as int));
            }
            let ghost before = headers@;
            let _ = headers.remove(j);
            headers.insert(j, Header { name, value });
            proof {
                assert(headers@ =~= before.update(
                    j as int,
                    Header { name: name, value: value },
                ));
                assert forall|k: int| 0 <= k < hv.len() implies hdrs_view(headers@)[k]
                    == hv.update(j as int, (name@, value@))[k] by {
                    assert(hdrs_view(headers@)[k] == headers@[k]@);
                }
                assert(hdrs_view(headers@) =~= hv.update(j as int, (name@, value@)));
            }
            return;
        }
        j += 1;
    }
    headers.push(Header { name, value });
    proof {
        assert(hdrs_view(headers@) =~= hv.push((name@, value@)));
    }
}

/// Locate `Content-Length` by case-insensitive lookup and read its value as
/// a non-negative integer; an unparseable value counts as absent.
pub fn get_content_length(headers: &Vec<Header>) -> (r: Option<usize>)
    ensures
        r == content_length_of(hdrs_view(headers@)),
{
    let ghost hv = hdrs_view(headers@);
    let mut j: usize = 0;
    while j < headers.len()
        invariant
            j <= headers@.len(),
            hv == hdrs_view(headers@),
            find_name_ci(hv, "content-length"@, 0) == find_name_ci(
                hv,
                "content-length"@,
                j as int,
            ),
        decreases headers@.len() - j,
    {
        proof {
            assert(hv[j as int] == headers@[j as int]@);
        }
        if eq_ignore_case(headers[j].name.as_str(), "content-length") {
            return parse_usize(headers[j].value.as_str());
        }
        j += 1;
    }
    None
}

/// Locate `Content-Encoding` by case-insensitive lookup, handing back its
/// value as received.
fn get_encoding(headers: &Vec<Header>) -> (r: Option<String>)
    ensures
        match r {
            Some(v) => content_encoding_of(hdrs_view(headers@)) == Some(v@),
            None => content_encoding_of(hdrs_view(headers@)) is None,
        },
{
    let ghost hv = hdrs_view(headers@);
    let mut j: usize = 0;
    while j < headers.len()
        invariant
            j <= headers@.len(),
            hv == hdrs_view(headers@),
            find_name_ci(hv, "content-encoding"@, 0) == find_name_ci(
                hv,
                "content-encoding"@,
                j as int,
            ),
        decreases headers@.len() - j,
    {
        proof {
            assert(hv[j as int] == headers@[j as int]@);
        }
        if eq_ignore_case(headers[j].name.as_str(), "content-encoding") {
            return Some(headers[j].value.clone());
        }
        j += 1;
    }
    None
}

// ---------------------------------------------------------------------------
// The two parse functions, as mathematics
// ---------------------------------------------------------------------------

/// Where the header lines of a head `[0, he)` begin: after the start line's
/// `\r\n`, or nowhere when the start line is the whole head.
pub open spec fn spec_line_end(b: Seq<u8>, he: int) -> int {
    match find_crlf_in(b, 0, he) {
        Some(e) => e,
        None => he,
    }
}

/// What `parse_request` returns, as a function of the buffer contents.
pub open spec fn spec_parse_request(b: Seq<u8>) -> Result<ReqView, ParseErrorView> {
    match find_head_end(b, 0) {
        None => Err(ParseErrorView::Truncated),
        Some(he) => {
            let line_end = spec_line_end(b, he);
            match spec_request_line(b, line_end) {
                None => Err(ParseErrorView::Malformed),
                Some(parts) => match (
                    utf8_of(parts.0),
                    utf8_of(parts.1),
                    utf8_of(parts.2),
                ) {
                    (Some(method), Some(path), Some(version)) => {
                        let hstart = if line_end >= he {
                            he
                        } else {
                            line_end + 2
                        };
                        match spec_header_block(b, hstart, he, Seq::empty()) {
                            None => Err(ParseErrorView::Malformed),
                            Some(hs) => match content_length_of(hs) {
                                Some(n) => {
                                    if n == 0 {
                                        Ok(req_view(method, path, version, hs, None))
                                    } else if he + 4 + n <= b.len() {
                                        Ok(
                                            req_view(
                                                method,
                                                path,
                                                version,
                                                hs,
                                                Some(
                                                    utf8_or(
                                                        b.subrange(he + 4, he + 4 + n),
                                                        "Body encoding error"@,
                                                    ),
                                                ),
                                            ),
                                        )
                                    } else {
                                        Err(ParseErrorView::Truncated)
                                    }
                                },
                                None => Ok(req_view(method, path, version, hs, None)),
                            },
                        }
                    },
                    _ => Err(ParseErrorView::Malformed),
                },
            }
        },
    }
}

pub open spec fn req_view(
    method: Seq<char>,
    path: Seq<char>,
    version: Seq<char>,
    headers: Seq<(Seq<char>, Seq<char>)>,
    body: Option<Seq<char>>,
) -> ReqView {
    ReqView { method, path, version, headers, body }
}

/// What `parse_response` returns, as a function of the buffer contents. A
/// declared `Content-Length` always frames a body slice, which is plain
/// UTF-8 text when no `Content-Encoding` is given, gzip-compressed text when
/// the encoding is exactly `gzip`, and an error for any other encoding.
pub open spec fn spec_parse_response(b: Seq<u8>) -> Result<RespView, ParseErrorView> {
    match find_head_end(b, 0) {
        None => Err(ParseErrorView::Truncated),
        Some(he) => {
            let line_end = spec_line_end(b, he);
            match spec_status_line(b, line_end) {
                None => Err(ParseErrorView::Malformed),
                Some(parts) => match (utf8_of(parts.0), reason_text(parts.2)) {
                    (Some(version), Some(reason)) => {
                        let hstart = if line_end >= he {
                            he
                        } else {
                            line_end + 2
                        };
                        match spec_header_block(b, hstart, he, Seq::empty()) {
                            None => Err(ParseErrorView::Malformed),
                            Some(hs) => match content_length_of(hs) {
                                None => Ok(resp_view(version, parts.1, reason, hs, None)),
                                Some(n) => {
                                    if he + 4 + n <= b.len() {
                                        spec_response_body(
                                            version,
                                            parts.1,
                                            reason,
                                            hs,
                                            b.subrange(he + 4, he + 4 + n),
                                        )
                                    } else {
                                        Err(ParseErrorView::Truncated)
                                    }
                                },
                            },
                        }
                    },
                    _ => Err(ParseErrorView::Malformed),
                },
            }
        },
    }
}

/// The decoded reason phrase: absent stays absent, and present bytes must be
/// valid UTF-8. The outer `None` marks a decode failure.
pub open spec fn reason_text(r: Option<Seq<u8>>) -> Option<Option<Seq<char>>> {
    match r {
        None => Some(None),
        Some(bytes) => match utf8_of(bytes) {
            Some(t) => Some(Some(t)),
            None => None,
        },
    }
}

/// Decode a framed response body according to the declared content encoding.
pub open spec fn spec_response_body(
    version: Seq<char>,
    code: u16,
    reason: Option<Seq<char>>,
    hs: Seq<(Seq<char>, Seq<char>)>,
    raw: Seq<u8>,
) -> Result<RespView, ParseErrorView> {
    match content_encoding_of(hs) {
        None => Ok(resp_view(version, code, reason, hs, Some(utf8_or(raw, "Encoding error"@)))),
        Some(enc) => {
            if enc == "gzip"@ {
                match gunzip_text_of(raw) {
                    Some(t) => Ok(resp_view(version, code, reason, hs, Some(t))),
                    None => Err(ParseErrorView::DecompressionFailure),
                }
            } else {
                Err(ParseErrorView::UnknownContentEncoding(enc))
            }
        },
    }
}

pub open spec fn resp_view(
    version: Seq<char>,
    code: u16,
    reason: Option<Seq<char>>,
    headers: Seq<(Seq<char>, Seq<char>)>,
    body: Option<Seq<char>>,
) -> RespView {
    RespView { version, code, reason, headers, body }
}

// ---------------------------------------------------------------------------
// The executable codec
// ---------------------------------------------------------------------------

/// Parse the header lines lying in `[hstart, he)` of `buf` into the header
/// mapping, later occurrences of a name overwriting earlier ones.
fn parse_header_block_exec(buf: &Vec<u8>, hstart: usize, he: usize) -> (r: Result<
    Vec<Header>,
    ParseError,
>)
    requires
        hstart <= he,
        he + 4 <= buf@.len(),
    ensures
        match r {
            Ok(hs) => spec_header_block(buf@, hstart as int, he as int, Seq::empty()) == Some(
                hdrs_view(hs@),
            ),
            Err(e) => spec_header_block(buf@, hstart as int, he as int, Seq::empty()) is None
                && e@ == ParseErrorView::Malformed,
        },
{
    let mut headers: Vec<Header> = Vec::new();
    let mut pos: usize = hstart;
    proof {
        assert(hdrs_view(headers@) =~= Seq::<(Seq<char>, Seq<char>)>::empty());
    }
    while pos < he
        invariant
            hstart <= pos <= he,
            he + 4 <= buf@.len(),
            spec_header_block(buf@, hstart as int, he as int, Seq::empty())
                == spec_header_block(buf@, pos as int, he as int, hdrs_view(headers@)),
        decreases he - pos,
    {
        let le = match find_crlf_in_exec(buf, pos, he) {
            Some(e) => e,
            None => he,
        };
        let colon = match find_byte_in_exec(buf, 58, pos, le) {
            Some(c) => c,
            None => {
                return Err(ParseError::Malformed);
            },
        };
        if colon == pos {
            return Err(ParseError::Malformed);
        }
        let vs = skip_ws_fwd_exec(buf, colon + 1, le);
        let ve = skip_ws_back_exec(buf, vs, le);
        let name_b = copy_range(buf, pos, colon);
        let value_b = copy_range(buf, vs, ve);
        let name = match utf8_decode(name_b) {
            Some(s) => s,
            None => {
                return Err(ParseError::Malformed);
            },
        };
        let value = match utf8_decode(value_b) {
            Some(s) => s,
            None => {
                return Err(ParseError::Malformed);
            },
        };
        proof {
            assert(spec_header_line(buf@, pos as int, le as int) == Some((name@, value@)));
        }
        upsert_header(&mut headers, name, value);
        if le == he {
            pos = he;
        } else {
            pos = le + 2;
        }
    }
    Ok(headers)
}

/// Parse the request line and header block up to the blank-line terminator,
/// then, when a positive `Content-Length` is declared, consume that many of
/// the immediately following bytes as the UTF-8 body; undecodable body bytes
/// degrade to a fixed sentinel rather than an error. Bytes beyond the
/// consumed message are ignored.
pub fn parse_request(buf: &Vec<u8>) -> (r: Result<Req, ParseError>)
    ensures
        match (r, spec_parse_request(buf@)) {
            (Ok(req), Ok(m)) => req@ == m,
            (Err(e), Err(me)) => e@ == me,
            _ => false,
        },
{
    let he = match find_head_end_exec(buf) {
        Some(h) => h,
        None => {
            return Err(ParseError::Truncated);
        },
    };
    let line_end = match find_crlf_in_exec(buf, 0, he) {
        Some(e) => e,
        None => he,
    };
    let s1 = match find_byte_in_exec(buf, 32, 0, line_end) {
        Some(i) => i,
        None => {
            return Err(ParseError::Malformed);
        },
    };
    let s2 = match find_byte_in_exec(buf, 32, s1 + 1, line_end) {
        Some(i) => i,
        None => {
            return Err(ParseError::Malformed);
        },
    };
    if s1 == 0 || s2 == s1 + 1 || line_end - (s2 + 1) < 5 {
        return Err(ParseError::Malformed);
    }
    if !(buf[s2 + 1] == 72 && buf[s2 + 2] == 84 && buf[s2 + 3] == 84 && buf[s2 + 4] == 80 && buf[s2
        + 5] == 47) {
        return Err(ParseError::Malformed);
    }
    let method_b = copy_range(buf, 0, s1);
    let path_b = copy_range(buf, s1 + 1, s2);
    let version_b = copy_range(buf, s2 + 6, line_end);
    let method = match utf8_decode(method_b) {
        Some(s) => s,
        None => {
            return Err(ParseError::Malformed);
        },
    };
    let path = match utf8_decode(path_b) {
        Some(s) => s,
        None => {
            return Err(ParseError::Malformed);
        },
    };
    let version = match utf8_decode(version_b) {
        Some(s) => s,
        None => {
            return Err(ParseError::Malformed);
        },
    };
    let hstart: usize = if line_end == he {
        he
    } else {
        line_end + 2
    };
    let headers = match parse_header_block_exec(buf, hstart, he) {
        Ok(hs) => hs,
        Err(e) => {
            return Err(e);
        },
    };
    let body: Option<String> = match get_content_length(&headers) {
        Some(n) => {
            if n == 0 {
                None
            } else {
                if n > buf.len() - (he + 4) {
                    return Err(ParseError::Truncated);
                }
                let body_b = copy_range(buf, he + 4, he + 4 + n);
                match utf8_decode(body_b) {
                    Some(s) => Some(s),
                    None => Some(String::from_str("Body encoding error")),
                }
            }
        },
        None => None,
    };
    Ok(Req { method, path, version, headers, body })
}

/// Parse the status line and header block up to the blank-line terminator,
/// then, when a `Content-Length` is declared, consume that many of the
/// immediately following bytes as the body: plain UTF-8 text (sentinel on a
/// failed decode) with no `Content-Encoding`, gzip-decompressed text when the
/// encoding is `gzip`, a hard error for a failed decompression or any other
/// declared encoding.
pub fn parse_response(buf: &Vec<u8>) -> (r: Result<Resp, ParseError>)
    ensures
        match (r, spec_parse_response(buf@)) {
            (Ok(resp), Ok(m)) => resp@ == m,
            (Err(e), Err(me)) => e@ == me,
            _ => false,
        },
{
    let he = match find_head_end_exec(buf) {
        Some(h) => h,
        None => {
            return Err(ParseError::Truncated);
        },
    };
    let line_end = match find_crlf_in_exec(buf, 0, he) {
        Some(e) => e,
        None => he,
    };
    let s1 = match find_byte_in_exec(buf, 32, 0, line_end) {
        Some(i) => i,
        None => {
            return Err(ParseError::Malformed);
        },
    };
    if s1 < 5 {
        return Err(ParseError::Malformed);
    }
    if !(buf[0] == 72 && buf[1] == 84 && buf[2] == 84 && buf[3] == 80 && buf[4] == 47) {
        return Err(ParseError::Malformed);
    }
    let s2opt = find_byte_in_exec(buf, 32, s1 + 1, line_end);
    let code_end = match s2opt {
        Some(s2) => s2,
        None => line_end,
    };
    let code = match parse_code(buf, s1 + 1, code_end) {
        Some(c) => c,
        None => {
            return Err(ParseError::Malformed);
        },
    };
    let version_b = copy_range(buf, 5, s1);
    let version = match utf8_decode(version_b) {
        Some(s) => s,
        None => {
            return Err(ParseError::Malformed);
        },
    };
    let reason: Option<String> = match s2opt {
        Some(s2) => {
            let reason_b = copy_range(buf, s2 + 1, line_end);
            match utf8_decode(reason_b) {
                Some(s) => Some(s),
                None => {
                    return Err(ParseError::Malformed);
                },
            }
        },
        None => None,
    };
    let hstart: usize = if line_end == he {
        he
    } else {
        line_end + 2
    };
    let headers = match parse_header_block_exec(buf, hstart, he) {
        Ok(hs) => hs,
        Err(e) => {
            return Err(e);
        },
    };
    let body: Option<String> = match get_content_length(&headers) {
        Some(n) => {
            if n > buf.len() - (he + 4) {
                return Err(ParseError::Truncated);
            }
            let raw = copy_range(buf, he + 4, he + 4 + n);
            match get_encoding(&headers) {
                None => match utf8_decode(raw) {
                    Some(s) => Some(s),
                    None => Some(String::from_str("Encoding error")),
                },
                Some(enc) => {
                    let gzip_name = String::from_str("gzip");
                    if enc == gzip_name {
                        match unzip_content(&raw) {
                            Some(s) => Some(s),
                            None => {
                                return Err(ParseError::DecompressionFailure);
                            },
                        }
                    } else {
                        return Err(ParseError::UnknownContentEncoding(enc));
                    }
                },
            }
        },
        None => None,
    };
    Ok(Resp { version, code, reason, headers, body })
}

// ---------------------------------------------------------------------------
// Purity of the codec
// ---------------------------------------------------------------------------

/// Parsing is a pure function of the buffer contents: two buffers holding the
/// same bytes parse to the same structured output, in either direction's
/// codec, however often the parse is repeated.
pub proof fn lemma_parse_is_pure(b1: Seq<u8>, b2: Seq<u8>)
    requires
        b1 =~= b2,
    ensures
        spec_parse_request(b1) == spec_parse_request(b2),
        spec_parse_response(b1) == spec_parse_response(b2),
{
    assert(b1 == b2);
}

} // verus!
