//! A minimal synchronous HTTP/1.x client library: URL parsing, request
//! serialization, response parsing, and a redirect-following state machine.
//! The transport (TCP, TLS) is supplied by the caller as a plain byte stream.
pub mod headers;
pub mod method;
pub mod response;
pub mod strings;
pub mod url;

use vstd::prelude::*;
use vstd::slice::slice_to_vec;
use vstd::string::StringSliceAdditionalSpecFns;
use crate::headers::{Headers, seq_to_map};
use crate::response::{Response, RespModel, get_response, spec_get_response, spec_header_fold, spec_dechunk};
use crate::strings::{crlf, crlf2, sp, colon_sp, dec_seq, u64_to_dec, spec_split, first_match_from, match_at};
use crate::url::{Protocol, Url, UrlSpec, default_port, spec_parse_url};

verus! {

broadcast use vstd::string::group_string_axioms;

/// The errors a request can end with, stage by stage: URL parsing,
/// transport, reading, and response parsing.
#[derive(Clone, Copy, Debug, PartialEq, Eq, Structural)]
pub enum HttpError {
    UnsupportedScheme,
    InvalidHost,
    MalformedUrl,
    ConnectionError,
    TlsError,
    EncodingError,
    IoError,
    InvalidResponse,
    InvalidRedirect,
    TooManyRedirects,
}

/// How many redirect hops are followed before `TooManyRedirects`.
pub const MAX_REDIRECTS: u32 = 10;

/// The Host header value: the host alone on the scheme's default port,
/// else `host:port`.
pub open spec fn spec_host_header(u: UrlSpec) -> Seq<char> {
    if u.port == default_port(u.protocol) {
        u.host
    } else {
        u.host + seq![':'] + dec_seq(u.port as int)
    }
}

/// One `"\r\n{name}: {value}"` line per header, in iteration order.
pub open spec fn spec_header_lines(hs: Seq<(Seq<char>, Seq<char>)>) -> Seq<char>
    decreases hs.len(),
{
    if hs.len() == 0 {
        Seq::empty()
    } else {
        spec_header_lines(hs.drop_last()) + crlf() + hs.last().0 + colon_sp() + hs.last().1
    }
}

/// The exact request head sent on the wire: request line, Host header,
/// the given headers, and the blank-line terminator.
pub open spec fn spec_request_head(
    method: Seq<char>,
    u: UrlSpec,
    hs: Seq<(Seq<char>, Seq<char>)>,
) -> Seq<char> {
    method + sp() + u.path + sp() + "HTTP/1.1"@ + crlf() + "Host: "@ + spec_host_header(u)
        + spec_header_lines(hs) + crlf2()
}

/// Serializes the request head for `method` against `url` with the given
/// headers. The serializer writes the headers as handed to it; it does
/// not inject `Content-Length` itself (the request builders do).
pub fn serialize_head(method: &str, url: &Url, headers: &Headers) -> (r: String)
    ensures
        r@ == spec_request_head(method@, url@, headers.seq_view()),
{
    proof {
        reveal_strlit(" ");
        reveal_strlit("\r\n");
        reveal_strlit(": ");
        reveal_strlit(":");
        assert(" "@ =~= sp());
        assert("\r\n"@ =~= crlf());
        assert(": "@ =~= colon_sp());
        assert(":"@ =~= seq![':']);
    }
    let mut r = String::from_str(method);
    r.append(" ");
    r.append(url.path.as_str());
    r.append(" ");
    r.append("HTTP/1.1");
    r.append("\r\n");
    r.append("Host: ");
    r.append(url.host.as_str());
    let is_default = match url.protocol {
        Protocol::HTTP => url.port == 80,
        Protocol::HTTPS => url.port == 443,
    };
    if !is_default {
        r.append(":");
        let p = u64_to_dec(url.port as u64);
        r.append(p.as_str());
    }
    assert(r@ =~= method@ + sp() + url@.path + sp() + "HTTP/1.1"@ + crlf() + "Host: "@
        + spec_host_header(url@));
    let n = headers.len();
    let mut i: usize = 0;
    let ghost base = r@;
    while i < n
        invariant
            n == headers.seq_view().len(),
            0 <= i <= n,
            r@ =~= base + spec_header_lines(headers.seq_view().take(i as int)),
        decreases n - i,
    {
        proof {
            reveal_strlit("\r\n");
            reveal_strlit(": ");
            assert("\r\n"@ =~= crlf());
            assert(": "@ =~= colon_sp());
        }
        r.append("\r\n");
        r.append(headers.key_at(i).as_str());
        r.append(": ");
        r.append(headers.value_at(i).as_str());
        proof {
            let hs = headers.seq_view();
            assert(hs.take(i + 1).drop_last() =~= hs.take(i as int));
            assert(hs.take(i + 1).last() == hs[i as int]);
            assert(r@ =~= base + spec_header_lines(hs.take(i + 1)));
        }
        i += 1;
    }
    assert(headers.seq_view().take(n as int) =~= headers.seq_view());
    r.append("\r\n");
    r.append("\r\n");
    assert(r@ =~= spec_request_head(method@, url@, headers.seq_view()));
    r
}

/// The full wire image of a request: the head's UTF-8 bytes, then the
/// body bytes verbatim.
pub fn request_bytes(head: &str, body: &[u8]) -> (r: Vec<u8>)
    ensures
        r@ == head.spec_bytes() + body@,
{
    let mut r = head.as_bytes_vec();
    let n = body.len();
    let mut i: usize = 0;
    while i < n
        invariant
            n == body@.len(),
            0 <= i <= n,
            r@ =~= head.spec_bytes() + body@.take(i as int),
        decreases n - i,
    {
        r.push(body[i]);
        assert(r@ =~= head.spec_bytes() + body@.take(i + 1));
        i += 1;
    }
    assert(body@.take(n as int) =~= body@);
    r
}

/// A request ready to send, together with the state the redirect loop
/// needs to follow a `Location`.
pub struct PendingRequest {
    pub method: String,
    pub url: Url,
    pub headers: Headers,
    pub body: Vec<u8>,
    pub head: String,
    pub hops: u32,
}

impl PendingRequest {
    /// The head is the exact serialization of method, URL, and headers.
    pub open spec fn wf(&self) -> bool {
        &&& self.headers.wf()
        &&& self.head@ == spec_request_head(self.method@, self.url@, self.headers.seq_view())
    }
}

/// What the request builders promise: the prepared request carries the
/// given method, parsed URL, headers, and body, and its head is their
/// exact serialization.
pub open spec fn spec_prepared(
    p: PendingRequest,
    method: Seq<char>,
    u: UrlSpec,
    hs: Seq<(Seq<char>, Seq<char>)>,
    body: Seq<u8>,
    hops: u32,
) -> bool {
    &&& p.method@ == method
    &&& p.url@ == u
    &&& p.headers.seq_view() == hs
    &&& p.body@ == body
    &&& p.head@ == spec_request_head(method, u, hs)
    &&& p.hops == hops
    &&& p.wf()
}

/// Parses the URL, injects `Content-Length` into the caller's headers,
/// and serializes the request head.
fn build_request(method: &str, url: &str, headers: &mut Headers, body: &[u8], hops: u32) -> (r:
    Result<PendingRequest, HttpError>)
    requires
        old(headers).wf(),
    ensures
        final(headers).wf(),
        match r {
            Result::Ok(p) => {
                &&& spec_parse_url(url@) is Ok
                &&& final(headers).map_view() == old(headers).map_view().insert(
                    "Content-Length"@,
                    dec_seq(body@.len() as int),
                )
                &&& spec_prepared(
                    p,
                    method@,
                    spec_parse_url(url@)->Ok_0,
                    final(headers).seq_view(),
                    body@,
                    hops,
                )
            },
            Result::Err(e) => spec_parse_url(url@) == Err::<UrlSpec, HttpError>(e) && *final(headers) == *old(headers),
        },
{
    let parsed = match Url::new(url) {
        Result::Ok(u) => u,
        Result::Err(e) => {
            return Err(e);
        },
    };
    let len_value = u64_to_dec(body.len() as u64);
    headers.insert(String::from_str("Content-Length"), len_value);
    let head = serialize_head(method, &parsed, headers);
    let own_headers = headers.duplicate();
    let own_body = slice_to_vec(body);
    let own_method = String::from_str(method);
    Ok(
        PendingRequest {
            method: own_method,
            url: parsed,
            headers: own_headers,
            body: own_body,
            head,
            hops,
        },
    )
}

/// Prepares a GET request: no body.
pub fn get(url: &str, headers: &mut Headers) -> (r: Result<PendingRequest, HttpError>)
    requires
        old(headers).wf(),
    ensures
        final(headers).wf(),
        match r {
            Result::Ok(p) => spec_parse_url(url@) is Ok && final(headers).map_view() == old(headers).map_view().insert("Content-Length"@, dec_seq(0)) && spec_prepared(
                p,
                "GET"@,
                spec_parse_url(url@)->Ok_0,
                final(headers).seq_view(),
                Seq::<u8>::empty(),
                0,
            ),
            Result::Err(e) => spec_parse_url(url@) == Err::<UrlSpec, HttpError>(e) && *final(headers) == *old(headers),
        },
{
    let body: Vec<u8> = Vec::new();
    build_request("GET", url, headers, body.as_slice(), 0)
}

/// Prepares a POST request with the given body.
pub fn post(url: &str, headers: &mut Headers, body: &[u8]) -> (r: Result<
    PendingRequest,
    HttpError,
>)
    requires
        old(headers).wf(),
    ensures
        final(headers).wf(),
        match r {
            Result::Ok(p) => spec_parse_url(url@) is Ok && final(headers).map_view() == old(headers).map_view().insert("Content-Length"@, dec_seq(body@.len() as int)) && spec_prepared(
                p,
                "POST"@,
                spec_parse_url(url@)->Ok_0,
                final(headers).seq_view(),
                body@,
                0,
            ),
            Result::Err(e) => spec_parse_url(url@) == Err::<UrlSpec, HttpError>(e) && *final(headers) == *old(headers),
        },
{
    build_request("POST", url, headers, body, 0)
}

/// Prepares a PUT request with the given body.
pub fn put(url: &str, headers: &mut Headers, body: &[u8]) -> (r: Result<PendingRequest, HttpError>)
    requires
        old(headers).wf(),
    ensures
        final(headers).wf(),
        match r {
            Result::Ok(p) => spec_parse_url(url@) is Ok && final(headers).map_view() == old(headers).map_view().insert("Content-Length"@, dec_seq(body@.len() as int)) && spec_prepared(
                p,
                "PUT"@,
                spec_parse_url(url@)->Ok_0,
                final(headers).seq_view(),
                body@,
                0,
            ),
            Result::Err(e) => spec_parse_url(url@) == Err::<UrlSpec, HttpError>(e) && *final(headers) == *old(headers),
        },
{
    build_request("PUT", url, headers, body, 0)
}

/// Prepares a DELETE request: no body.
pub fn delete(url: &str, headers: &mut Headers) -> (r: Result<PendingRequest, HttpError>)
    requires
        old(headers).wf(),
    ensures
        final(headers).wf(),
        match r {
            Result::Ok(p) => spec_parse_url(url@) is Ok && final(headers).map_view() == old(headers).map_view().insert("Content-Length"@, dec_seq(0)) && spec_prepared(
                p,
                "DELETE"@,
                spec_parse_url(url@)->Ok_0,
                final(headers).seq_view(),
                Seq::<u8>::empty(),
                0,
            ),
            Result::Err(e) => spec_parse_url(url@) == Err::<UrlSpec, HttpError>(e) && *final(headers) == *old(headers),
        },
{
    let body: Vec<u8> = Vec::new();
    build_request("DELETE", url, headers, body.as_slice(), 0)
}

/// Prepares an OPTIONS request: no body.
pub fn options(url: &str, headers: &mut Headers) -> (r: Result<PendingRequest, HttpError>)
    requires
        old(headers).wf(),
    ensures
        final(headers).wf(),
        match r {
            Result::Ok(p) => spec_parse_url(url@) is Ok && final(headers).map_view() == old(headers).map_view().insert("Content-Length"@, dec_seq(0)) && spec_prepared(
                p,
                "OPTIONS"@,
                spec_parse_url(url@)->Ok_0,
                final(headers).seq_view(),
                Seq::<u8>::empty(),
                0,
            ),
            Result::Err(e) => spec_parse_url(url@) == Err::<UrlSpec, HttpError>(e) && *final(headers) == *old(headers),
        },
{
    let body: Vec<u8> = Vec::new();
    build_request("OPTIONS", url, headers, body.as_slice(), 0)
}

/// Prepares a HEAD request: no body.
pub fn head(url: &str, headers: &mut Headers) -> (r: Result<PendingRequest, HttpError>)
    requires
        old(headers).wf(),
    ensures
        final(headers).wf(),
        match r {
            Result::Ok(p) => spec_parse_url(url@) is Ok && final(headers).map_view() == old(headers).map_view().insert("Content-Length"@, dec_seq(0)) && spec_prepared(
                p,
                "HEAD"@,
                spec_parse_url(url@)->Ok_0,
                final(headers).seq_view(),
                Seq::<u8>::empty(),
                0,
            ),
            Result::Err(e) => spec_parse_url(url@) == Err::<UrlSpec, HttpError>(e) && *final(headers) == *old(headers),
        },
{
    let body: Vec<u8> = Vec::new();
    build_request("HEAD", url, headers, body.as_slice(), 0)
}

/// A status code of the redirect class, 3xx.
pub open spec fn is_redirect(code: u16) -> bool {
    code / 100 == 3
}

/// The redirect class is exactly the window from 300 to 399.
pub proof fn lemma_redirect_range(code: u16)
    ensures
        is_redirect(code) <==> 300 <= code <= 399,
{
}

/// What one protocol step decides once the raw response is in hand.
pub enum Outcome {
    Done(Response),
    Redirect(PendingRequest),
}

/// Decides the step after a response: a non-3xx response is final; a 3xx
/// response with a `Location` header becomes one new request against
/// that URL with the same method, headers, and body, up to
/// `MAX_REDIRECTS` hops; a 3xx response without `Location` is
/// `InvalidRedirect`. The `Location` value must be an absolute URL: a
/// relative target fails with the URL parser's error.
pub fn next_step(p: &PendingRequest, raw: &str) -> (r: Result<Outcome, HttpError>)
    requires
        p.wf(),
    ensures
        match spec_get_response(raw@) {
            Result::Err(e) => r == Err::<Outcome, HttpError>(e),
            Result::Ok(m) => {
                if !is_redirect(m.status_code) {
                    &&& r is Ok
                    &&& r->Ok_0 is Done
                    &&& r->Ok_0->Done_0@ == m
                } else if !m.headers.contains_key("Location"@) {
                    r == Err::<Outcome, HttpError>(HttpError::InvalidRedirect)
                } else if p.hops >= MAX_REDIRECTS {
                    r == Err::<Outcome, HttpError>(HttpError::TooManyRedirects)
                } else {
                    match spec_parse_url(m.headers["Location"@]) {
                        Result::Err(e) => r == Err::<Outcome, HttpError>(e),
                        Result::Ok(u) => {
                            &&& r is Ok
                            &&& r->Ok_0 is Redirect
                            &&& spec_prepared(
                                r->Ok_0->Redirect_0,
                                p.method@,
                                u,
                                p.headers.seq_view(),
                                p.body@,
                                (p.hops + 1) as u32,
                            )
                        },
                    }
                }
            },
        },
{
    let resp = match get_response(raw) {
        Result::Ok(resp) => resp,
        Result::Err(e) => {
            return Err(e);
        },
    };
    if resp.status_code / 100 != 3 {
        return Ok(Outcome::Done(resp));
    }
    let location = match resp.headers.get("Location") {
        Option::Some(l) => l,
        Option::None => {
            return Err(HttpError::InvalidRedirect);
        },
    };
    if p.hops >= MAX_REDIRECTS {
        return Err(HttpError::TooManyRedirects);
    }
    let target = match Url::new(location.as_str()) {
        Result::Ok(u) => u,
        Result::Err(e) => {
            return Err(e);
        },
    };
    let headers = p.headers.duplicate();
    let head = serialize_head(p.method.as_str(), &target, &headers);
    let next = PendingRequest {
        method: String::from_str(p.method.as_str()),
        url: target,
        headers,
        body: slice_to_vec(p.body.as_slice()),
        head,
        hops: p.hops + 1,
    };
    Ok(Outcome::Redirect(next))
}

/// The `"{name}: {value}"` text of one header pair.
pub open spec fn spec_header_line(p: (Seq<char>, Seq<char>)) -> Seq<char> {
    p.0 + colon_sp() + p.1
}

/// A pair whose name and value hold no colon and no carriage return, so
/// its line splits back into exactly the pair.
pub open spec fn header_pair_ok(p: (Seq<char>, Seq<char>)) -> bool {
    &&& forall|k: int| 0 <= k < p.0.len() ==> p.0[k] != ':' && #[trigger] p.0[k] != '\r'
    &&& forall|k: int| 0 <= k < p.1.len() ==> p.1[k] != ':' && #[trigger] p.1[k] != '\r'
}

/// Every pair of the sequence is round-trippable.
pub open spec fn header_pairs_ok(hs: Seq<(Seq<char>, Seq<char>)>) -> bool {
    forall|i: int| 0 <= i < hs.len() ==> header_pair_ok(#[trigger] hs[i])
}

/// A round-trippable pair's line holds no carriage return and splits on
/// `": "` into exactly the pair.
proof fn lemma_header_line_facts(p: (Seq<char>, Seq<char>))
    requires
        header_pair_ok(p),
    ensures
        forall|k: int|
            0 <= k < spec_header_line(p).len() ==> #[trigger] spec_header_line(p)[k] != '\r',
        spec_split(spec_header_line(p), colon_sp()) == seq![p.0, p.1],
        spec_header_line(p).len() >= 2,
        spec_header_line(p)[0] != '\r',
{
    crate::strings::lemma_split_concat(p.0, colon_sp(), p.1);
    crate::strings::lemma_split_whole(p.1, colon_sp());
    let line = spec_header_line(p);
    assert(forall|k: int| 0 <= k < line.len() ==> #[trigger] line[k] != '\r') by {
        assert forall|k: int| 0 <= k < line.len() implies line[k] != '\r' by {
            if k < p.0.len() {
                assert(line[k] == p.0[k]);
            } else if k < p.0.len() + 2 {
                assert(line[k] == colon_sp()[k - p.0.len()]);
            } else {
                assert(line[k] == p.1[k - p.0.len() - 2]);
            }
        }
    }
}

/// The header block read from the front: the first pair's line behind
/// one separator, then the block of the remaining pairs.
proof fn lemma_header_lines_front(hs: Seq<(Seq<char>, Seq<char>)>)
    requires
        hs.len() > 0,
    ensures
        spec_header_lines(hs) == crlf() + spec_header_line(hs[0]) + spec_header_lines(
            hs.drop_first(),
        ),
    decreases hs.len(),
{
    if hs.len() == 1 {
        assert(hs.drop_last() =~= Seq::<(Seq<char>, Seq<char>)>::empty());
        assert(hs.drop_first() =~= Seq::<(Seq<char>, Seq<char>)>::empty());
        assert(hs.last() == hs[0]);
        assert(spec_header_lines(hs) =~= crlf() + spec_header_line(hs[0]) + spec_header_lines(
            hs.drop_first(),
        ));
    } else {
        let d = hs.drop_last();
        lemma_header_lines_front(d);
        assert(d[0] == hs[0]);
        assert(d.drop_first() =~= hs.drop_first().drop_last());
        assert(hs.drop_first().last() == hs.last());
        assert(spec_header_lines(hs) =~= crlf() + spec_header_line(hs[0]) + spec_header_lines(
            hs.drop_first(),
        ));
    }
}

/// A status line followed by a header block splits on `"\r\n"` into the
/// status line and one line per pair.
proof fn lemma_head_block_lines(a: Seq<char>, hs: Seq<(Seq<char>, Seq<char>)>)
    requires
        header_pairs_ok(hs),
        forall|k: int| 0 <= k < a.len() ==> #[trigger] a[k] != '\r',
    ensures
        spec_split(a + spec_header_lines(hs), crlf()) == seq![a] + hs.map_values(
            |p: (Seq<char>, Seq<char>)| spec_header_line(p),
        ),
    decreases hs.len(),
{
    let line_of = |p: (Seq<char>, Seq<char>)| spec_header_line(p);
    if hs.len() == 0 {
        assert(a + spec_header_lines(hs) =~= a);
        crate::strings::lemma_split_whole(a, crlf());
        assert(seq![a] + hs.map_values(line_of) =~= seq![a]);
    } else {
        lemma_header_lines_front(hs);
        lemma_header_line_facts(hs[0]);
        let line0 = spec_header_line(hs[0]);
        let rest = line0 + spec_header_lines(hs.drop_first());
        assert(a + spec_header_lines(hs) =~= a + crlf() + rest);
        crate::strings::lemma_split_concat(a, crlf(), rest);
        assert(header_pairs_ok(hs.drop_first())) by {
            assert(forall|i: int|
                0 <= i < hs.drop_first().len() ==> #[trigger] hs.drop_first()[i] == hs[i + 1]);
        }
        lemma_head_block_lines(line0, hs.drop_first());
        assert(hs.map_values(line_of) =~= seq![line0] + hs.drop_first().map_values(line_of));
        assert(spec_split(a + spec_header_lines(hs), crlf()) =~= seq![a] + hs.map_values(line_of));
    }
}

/// The first blank line of a well-formed reply sits exactly after the
/// status line and the header block.
proof fn lemma_first_blank(a: Seq<char>, hs: Seq<(Seq<char>, Seq<char>)>, tail: Seq<char>)
    requires
        header_pairs_ok(hs),
        forall|k: int| 0 <= k < a.len() ==> #[trigger] a[k] != '\r',
    ensures
        first_match_from(a + spec_header_lines(hs) + crlf2() + tail, crlf2(), 0) == Some(
            a.len() + spec_header_lines(hs).len() as int,
        ),
    decreases hs.len(),
{
    let s = a + spec_header_lines(hs) + crlf2() + tail;
    if hs.len() == 0 {
        assert(s =~= a + crlf2() + tail);
        assert(match_at(s, crlf2(), a.len() as int)) by {
            assert(s.subrange(a.len() as int, a.len() as int + 4) =~= crlf2());
        }
        assert(forall|p: int| 0 <= p < a.len() ==> !#[trigger] match_at(s, crlf2(), p)) by {
            assert forall|p: int| 0 <= p < a.len() implies !match_at(s, crlf2(), p) by {
                if p + 4 <= s.len() {
                    assert(s.subrange(p, p + 4)[0] == s[p]);
                    assert(s[p] == a[p]);
                }
            }
        }
        crate::strings::lemma_scan_first(s, crlf2(), 0, a.len() as int);
        assert(spec_header_lines(hs) =~= Seq::<char>::empty());
    } else {
        lemma_header_lines_front(hs);
        lemma_header_line_facts(hs[0]);
        let line0 = spec_header_line(hs[0]);
        let x = a + crlf();
        let s2 = line0 + spec_header_lines(hs.drop_first()) + crlf2() + tail;
        assert(s =~= x + s2);
        assert(header_pairs_ok(hs.drop_first())) by {
            assert(forall|i: int|
                0 <= i < hs.drop_first().len() ==> #[trigger] hs.drop_first()[i] == hs[i + 1]);
        }
        lemma_first_blank(line0, hs.drop_first(), tail);
        let k: int = line0.len() + spec_header_lines(hs.drop_first()).len() as int;
        assert(forall|p: int| 0 <= p < x.len() ==> !#[trigger] match_at(s, crlf2(), p)) by {
            assert forall|p: int| 0 <= p < x.len() implies !match_at(s, crlf2(), p) by {
                if p + 4 <= s.len() {
                    assert(s.subrange(p, p + 4)[0] == s[p]);
                    assert(s.subrange(p, p + 4)[2] == s[p + 2]);
                    if p < a.len() {
                        assert(s[p] == a[p]);
                    } else if p == a.len() {
                        assert(s[p + 2] == s2[0]);
                        assert(s2[0] == line0[0]);
                    } else {
                        assert(s[p] == crlf()[1]);
                    }
                }
            }
        }
        crate::strings::lemma_first_match_skip(s, crlf2(), 0, x.len() as int);
        crate::strings::lemma_first_match_shift(x, s2, crlf2(), 0);
        assert(first_match_from(s2, crlf2(), 0) == Some(k));
        assert(first_match_from(s, crlf2(), 0) == Some(x.len() + k));
        assert(spec_header_lines(hs).len() == 2 + k);
    }
}

/// Each pair's line folds into the map entry the pair denotes, so the
/// whole block folds to the pairs' map, later pairs winning.
proof fn lemma_header_fold_map(hs: Seq<(Seq<char>, Seq<char>)>)
    requires
        header_pairs_ok(hs),
    ensures
        spec_header_fold(hs.map_values(|p: (Seq<char>, Seq<char>)| spec_header_line(p)))
            == seq_to_map(hs),
    decreases hs.len(),
{
    let line_of = |p: (Seq<char>, Seq<char>)| spec_header_line(p);
    let m = hs.map_values(line_of);
    if hs.len() == 0 {
        assert(m.len() == 0);
        assert(spec_header_fold(m) =~= seq_to_map(hs));
    } else {
        assert(m.drop_last() =~= hs.drop_last().map_values(line_of));
        assert(header_pairs_ok(hs.drop_last()));
        lemma_header_fold_map(hs.drop_last());
        lemma_header_line_facts(hs.last());
        assert(m.last() == spec_header_line(hs.last()));
        assert(spec_split(m.last(), colon_sp()) == seq![hs.last().0, hs.last().1]);
        assert(spec_header_fold(m) =~= seq_to_map(hs));
    }
}

/// Round trip in general: a reply whose status line carries a serialized
/// status code and a reason phrase, and whose header block is the
/// serializer's own line format for any sequence of pairs, parses back
/// to that code, that phrase, and the pairs folded into a map, over any
/// body. The phrase may hold no space, and the pairs no colon, as the
/// wire format keeps neither apart from its separators.
pub proof fn lemma_reply_headers_roundtrip(
    code: u16,
    msg: Seq<char>,
    hs: Seq<(Seq<char>, Seq<char>)>,
    body: Seq<char>,
)
    requires
        msg.len() > 0,
        forall|i: int| 0 <= i < msg.len() ==> msg[i] != ' ' && #[trigger] msg[i] != '\r',
        header_pairs_ok(hs),
    ensures
        spec_get_response(
            "HTTP/1.1"@ + sp() + dec_seq(code as int) + sp() + msg + spec_header_lines(hs)
                + crlf2() + body,
        ) == Ok::<RespModel, HttpError>(
            RespModel {
                http_version: "HTTP/1.1"@,
                status_code: code,
                status_message: msg,
                headers: seq_to_map(hs),
                body: spec_dechunk(body),
            },
        ),
{
    reveal_strlit("HTTP/1.1");
    let ver = "HTTP/1.1"@;
    let dec = dec_seq(code as int);
    let sl = ver + sp() + dec + sp() + msg;
    let head = sl + spec_header_lines(hs);
    let raw = head + crlf2() + body;
    crate::strings::lemma_dec_roundtrip(code as int);
    assert(forall|k: int| 0 <= k < dec.len() ==> crate::strings::is_digit(#[trigger] dec[k]));
    assert(forall|k: int| 0 <= k < ver.len() ==> ver[k] != '\r' && #[trigger] ver[k] != ' ') by {
        assert(ver[0] == 'H');
        assert(ver[1] == 'T');
        assert(ver[2] == 'T');
        assert(ver[3] == 'P');
        assert(ver[4] == '/');
        assert(ver[5] == '1');
        assert(ver[6] == '.');
        assert(ver[7] == '1');
    }
    assert(forall|k: int| 0 <= k < sl.len() ==> #[trigger] sl[k] != '\r');

    // The first blank line closes the header block.
    lemma_first_blank(sl, hs, body);
    assert(raw =~= sl + spec_header_lines(hs) + crlf2() + body);
    assert(first_match_from(raw, crlf2(), 0) == Some(head.len() as int));
    assert(raw.take(head.len() as int) =~= head);
    assert(raw.skip(head.len() as int + 4) =~= body);

    // The header block splits into the status line and the pairs' lines.
    lemma_head_block_lines(sl, hs);
    let lines = spec_split(head, crlf());
    assert(lines[0] == sl);
    assert(lines.skip(1) =~= hs.map_values(|p: (Seq<char>, Seq<char>)| spec_header_line(p)));

    // The status line splits into version, code, and message tokens.
    crate::strings::lemma_split_concat(ver, sp(), dec + sp() + msg);
    assert(ver + sp() + (dec + sp() + msg) =~= sl);
    crate::strings::lemma_split_concat(dec, sp(), msg);
    crate::strings::lemma_split_whole(msg, sp());
    let toks = spec_split(sl, sp());
    assert(toks =~= seq![ver, dec, msg]);
    assert(crate::response::code_of_token(dec) == code);
    assert(toks.skip(2) =~= seq![msg]);
    assert(crate::strings::spec_join(seq![msg], sp()) == msg);
    assert(crate::response::spec_head_fields(head) == (ver, code, msg));

    // The pairs' lines fold back into the pairs' map.
    lemma_header_fold_map(hs);
    assert(crate::response::spec_head_headers(head) == seq_to_map(hs));

    // The statement's one concatenation is this proof's `raw`.
    assert("HTTP/1.1"@ + sp() + dec_seq(code as int) + sp() + msg + spec_header_lines(hs)
        + crlf2() + body =~= raw);
    assert(spec_get_response(raw) == Ok::<RespModel, HttpError>(
        RespModel {
            http_version: "HTTP/1.1"@,
            status_code: code,
            status_message: msg,
            headers: seq_to_map(hs),
            body: spec_dechunk(body),
        },
    ));
}

/// Relies on std::str::from_utf8: it returns `Ok` exactly when the bytes
/// are valid UTF-8, and the returned text is their decoding.
#[verifier::external_body]
fn utf8_prefix(buf: &[u8], n: usize) -> (r: Option<&str>)
    requires
        n <= buf@.len(),
    ensures
        r is Some <==> vstd::utf8::valid_utf8(buf@.take(n as int)),
        r is Some ==> r->Some_0@ == vstd::utf8::decode_utf8(buf@.take(n as int)),
{
    std::str::from_utf8(&buf[..n]).ok()
}

/// One step of the read loop: a zero-length read ends the stream, a
/// valid UTF-8 chunk is decoded and appended, and anything else is an
/// `EncodingError`. Returns whether the caller should read on.
pub fn read_step(acc: &mut String, chunk: &[u8], n: usize) -> (r: Result<bool, HttpError>)
    requires
        n <= chunk@.len(),
    ensures
        n == 0 ==> r == Ok::<bool, HttpError>(false) && final(acc)@ == old(acc)@,
        n > 0 && vstd::utf8::valid_utf8(chunk@.take(n as int)) ==> r == Ok::<bool, HttpError>(true)
            && final(acc)@ == old(acc)@ + vstd::utf8::decode_utf8(chunk@.take(n as int)),
        n > 0 && !vstd::utf8::valid_utf8(chunk@.take(n as int)) ==> r == Err::<bool, HttpError>(
            HttpError::EncodingError,
        ) && final(acc)@ == old(acc)@,
{
    if n == 0 {
        return Ok(false);
    }
    match utf8_prefix(chunk, n) {
        Option::Some(text) => {
            acc.append(text);
            Ok(true)
        },
        Option::None => Err(HttpError::EncodingError),
    }
}

} // verus!
