//! The URL parser: a verified parser for absolute `http`/`https` URLs of
//! the form `scheme "://" host [":" port] [path-and-query]`.
//!
//! The path component is carried verbatim, query included, so that the
//! request line reproduces the text after the authority exactly; an absent
//! path becomes `"/"`.
use vstd::prelude::*;
use crate::HttpError;
use crate::strings::{
    first_match_from, match_at, is_digits, dec_val, find_from, parse_u16,
    lemma_first_match_in_range, str_eq,
};

verus! {

broadcast use vstd::string::group_string_axioms;

/// The scheme of a URL this client speaks.
#[derive(Clone, Copy, Debug, PartialEq, Eq, Structural)]
pub enum Protocol {
    HTTP,
    HTTPS,
}

/// The connection parameters a URL denotes.
pub struct Url {
    pub protocol: Protocol,
    pub host: String,
    pub port: u16,
    pub path: String,
}

/// The mathematical shape of a parsed URL.
pub struct UrlSpec {
    pub protocol: Protocol,
    pub host: Seq<char>,
    pub port: u16,
    pub path: Seq<char>,
}

impl View for Url {
    type V = UrlSpec;

    open spec fn view(&self) -> UrlSpec {
        UrlSpec {
            protocol: self.protocol,
            host: self.host@,
            port: self.port,
            path: self.path@,
        }
    }
}

/// The `"://"` separator after the scheme.
pub open spec fn scheme_sep() -> Seq<char> {
    seq![':', '/', '/']
}

/// The default port of a scheme: 80 for `http`, 443 for `https`.
pub open spec fn default_port(p: Protocol) -> u16 {
    match p {
        Protocol::HTTP => 80,
        Protocol::HTTPS => 443,
    }
}

/// The first position at or after `i` that ends a host: `':'`, `'/'`,
/// `'?'`, or the end of the string.
pub open spec fn host_end(s: Seq<char>, i: int) -> int
    decreases s.len() - i,
{
    if i < 0 || i >= s.len() {
        s.len() as int
    } else if s[i] == ':' || s[i] == '/' || s[i] == '?' {
        i
    } else {
        host_end(s, i + 1)
    }
}

/// The first position at or after `i` where the path begins: `'/'`,
/// `'?'`, or the end of the string.
pub open spec fn path_start(s: Seq<char>, i: int) -> int
    decreases s.len() - i,
{
    if i < 0 || i >= s.len() {
        s.len() as int
    } else if s[i] == '/' || s[i] == '?' {
        i
    } else {
        path_start(s, i + 1)
    }
}

/// The path component taken verbatim from position `p` on: `"/"` when
/// empty, and prefixed with `'/'` when it starts with `'?'`.
pub open spec fn path_of(s: Seq<char>, p: int) -> Seq<char> {
    let raw = s.skip(p);
    if raw.len() == 0 {
        seq!['/']
    } else if raw[0] == '/' {
        raw
    } else {
        seq!['/'] + raw
    }
}

/// What parsing the text after `scheme "://"` yields: host, port, path.
pub open spec fn spec_parse_authority(s: Seq<char>, a: int, proto: Protocol) -> Result<
    UrlSpec,
    HttpError,
> {
    let he = host_end(s, a);
    if he == a {
        Err(HttpError::InvalidHost)
    } else {
        let host = s.subrange(a, he);
        if he < s.len() && s[he] == ':' {
            let pe = path_start(s, he + 1);
            let ptxt = s.subrange(he + 1, pe);
            if is_digits(ptxt) && dec_val(ptxt) <= u16::MAX {
                Ok(
                    UrlSpec {
                        protocol: proto,
                        host,
                        port: dec_val(ptxt) as u16,
                        path: path_of(s, pe),
                    },
                )
            } else {
                Err(HttpError::MalformedUrl)
            }
        } else {
            Ok(UrlSpec { protocol: proto, host, port: default_port(proto), path: path_of(s, he) })
        }
    }
}

/// What parsing a whole URL yields. The scheme is the text before the
/// first `"://"`; it must be exactly `http` or `https`.
pub open spec fn spec_parse_url(s: Seq<char>) -> Result<UrlSpec, HttpError> {
    match first_match_from(s, scheme_sep(), 0) {
        Option::None => Err(HttpError::MalformedUrl),
        Option::Some(i) => {
            let scheme = s.take(i);
            if i == 0 {
                Err(HttpError::MalformedUrl)
            } else if scheme == "http"@ {
                spec_parse_authority(s, i + 3, Protocol::HTTP)
            } else if scheme == "https"@ {
                spec_parse_authority(s, i + 3, Protocol::HTTPS)
            } else {
                Err(HttpError::UnsupportedScheme)
            }
        },
    }
}

/// Scans for the end of the host region.
fn host_end_exec(s: &str, a: usize) -> (r: usize)
    requires
        a <= s@.len(),
    ensures
        r == host_end(s@, a as int),
        a <= r <= s@.len(),
    decreases s@.len() - a,
{
    let n = s.unicode_len();
    let mut i: usize = a;
    while i < n
        invariant
            n == s@.len(),
            a <= i <= n,
            host_end(s@, a as int) == host_end(s@, i as int),
        decreases n - i,
    {
        let c = s.get_char(i);
        if c == ':' || c == '/' || c == '?' {
            return i;
        }
        i += 1;
    }
    n
}

/// Scans for the start of the path region.
fn path_start_exec(s: &str, a: usize) -> (r: usize)
    requires
        a <= s@.len(),
    ensures
        r == path_start(s@, a as int),
        a <= r <= s@.len(),
    decreases s@.len() - a,
{
    let n = s.unicode_len();
    let mut i: usize = a;
    while i < n
        invariant
            n == s@.len(),
            a <= i <= n,
            path_start(s@, a as int) == path_start(s@, i as int),
        decreases n - i,
    {
        let c = s.get_char(i);
        if c == '/' || c == '?' {
            return i;
        }
        i += 1;
    }
    n
}

/// Builds the path component from position `p` on.
fn path_exec(s: &str, p: usize) -> (r: String)
    requires
        p <= s@.len(),
    ensures
        r@ == path_of(s@, p as int),
{
    proof {
        reveal_strlit("/");
    }
    let n = s.unicode_len();
    if p == n {
        let r = String::from_str("/");
        assert(r@ =~= path_of(s@, p as int));
        r
    } else if s.get_char(p) == '/' {
        let r = String::from_str(s.substring_char(p, n));
        assert(r@ =~= path_of(s@, p as int));
        r
    } else {
        let mut r = String::from_str("/");
        r.append(s.substring_char(p, n));
        assert(r@ =~= path_of(s@, p as int));
        r
    }
}

/// A position whose character is not `':'` cannot start the scheme
/// separator.
proof fn lemma_no_colon_no_match(s: Seq<char>, i: int)
    requires
        0 <= i,
        i + 3 <= s.len(),
        s[i] != ':',
    ensures
        !match_at(s, scheme_sep(), i),
{
    assert(s.subrange(i, i + 3)[0] == s[i]);
}

/// When no `':'` occurs before `b` and the separator sits at `b`, the
/// first separator is at `b`.
proof fn lemma_sep_scan(s: Seq<char>, j: int, b: int)
    requires
        0 <= j <= b,
        b + 3 <= s.len(),
        forall|k: int| j <= k < b ==> s[k] != ':',
        match_at(s, scheme_sep(), b),
    ensures
        first_match_from(s, scheme_sep(), j) == Some(b),
    decreases b - j,
{
    if j == b {
    } else {
        lemma_no_colon_no_match(s, j);
        lemma_sep_scan(s, j + 1, b);
    }
}

/// A region free of `':'`, `'/'`, `'?'` scans to its first stop.
proof fn lemma_host_end_scan(s: Seq<char>, a: int, b: int)
    requires
        0 <= a <= b <= s.len(),
        forall|k: int| a <= k < b ==> s[k] != ':' && s[k] != '/' && s[k] != '?',
        b == s.len() || s[b] == ':' || s[b] == '/' || s[b] == '?',
    ensures
        host_end(s, a) == b,
    decreases b - a,
{
    if a < b {
        lemma_host_end_scan(s, a + 1, b);
    }
}

/// Parsing recovers host and path exactly: for any nonempty host free of
/// `':'`, `'/'`, `'?'` and any path starting with `'/'`, the URL
/// `http://{host}{path}` parses to that host, that path, and port 80.
pub proof fn lemma_parse_http_roundtrip(host: Seq<char>, path: Seq<char>)
    requires
        host.len() as int > 0,
        forall|k: int| 0 <= k < host.len() as int ==> host[k] != ':' && host[k] != '/' && host[k] != '?',
        path.len() > 0,
        path[0] == '/',
    ensures
        spec_parse_url("http://"@ + host + path) == Ok::<UrlSpec, HttpError>(
            UrlSpec { protocol: Protocol::HTTP, host: host, port: 80, path: path },
        ),
{
    reveal_strlit("http://");
    reveal_strlit("http");
    let s = "http://"@ + host + path;
    assert(s.len() == 7 + host.len() as int + path.len());
    assert(match_at(s, scheme_sep(), 4)) by {
        assert(s.subrange(4, 7) =~= scheme_sep());
    }
    lemma_sep_scan(s, 0, 4);
    assert(s.take(4) =~= "http"@);
    lemma_host_end_scan(s, 7, 7 + host.len() as int);
    assert(s.subrange(7, 7 + host.len() as int) =~= host);
    assert(s[7 + host.len() as int] == path[0]);
    assert(path_of(s, 7 + host.len() as int) == path) by {
        assert(s.skip(7 + host.len() as int) =~= path);
    }
}

/// The same recovery over `https`: the URL `https://{host}{path}` parses
/// to that host, that path, and port 443.
pub proof fn lemma_parse_https_roundtrip(host: Seq<char>, path: Seq<char>)
    requires
        host.len() as int > 0,
        forall|k: int| 0 <= k < host.len() as int ==> host[k] != ':' && host[k] != '/' && host[k] != '?',
        path.len() > 0,
        path[0] == '/',
    ensures
        spec_parse_url("https://"@ + host + path) == Ok::<UrlSpec, HttpError>(
            UrlSpec { protocol: Protocol::HTTPS, host: host, port: 443, path: path },
        ),
{
    reveal_strlit("https://");
    reveal_strlit("https");
    reveal_strlit("http");
    let s = "https://"@ + host + path;
    assert(s.len() == 8 + host.len() as int + path.len());
    assert(match_at(s, scheme_sep(), 5)) by {
        assert(s.subrange(5, 8) =~= scheme_sep());
    }
    lemma_sep_scan(s, 0, 5);
    assert(s.take(5) =~= "https"@);
    assert(s.take(5) != "http"@);
    lemma_host_end_scan(s, 8, 8 + host.len() as int);
    assert(s.subrange(8, 8 + host.len() as int) =~= host);
    assert(s[8 + host.len() as int] == path[0]);
    assert(path_of(s, 8 + host.len() as int) == path) by {
        assert(s.skip(8 + host.len() as int) =~= path);
    }
}

/// Any scheme other than `http` and `https` is rejected with
/// `UnsupportedScheme`, whatever follows the separator.
pub proof fn lemma_unsupported_scheme(scheme: Seq<char>, rest: Seq<char>)
    requires
        scheme.len() > 0,
        forall|k: int| 0 <= k < scheme.len() ==> scheme[k] != ':',
        scheme != "http"@,
        scheme != "https"@,
    ensures
        spec_parse_url(scheme + "://"@ + rest) == Err::<UrlSpec, HttpError>(
            HttpError::UnsupportedScheme,
        ),
{
    reveal_strlit("://");
    let s = scheme + "://"@ + rest;
    let b = scheme.len() as int;
    assert(match_at(s, scheme_sep(), b)) by {
        assert(s.subrange(b, b + 3) =~= scheme_sep());
    }
    assert(forall|k: int| 0 <= k < b ==> s[k] != ':') by {
        assert(forall|k: int| 0 <= k < b ==> s[k] == scheme[k]);
    }
    lemma_sep_scan(s, 0, b);
    assert(s.take(b) =~= scheme);
}

impl Url {
    /// Parses an absolute URL. Returns `UnsupportedScheme` for a scheme
    /// other than `http`/`https`, `InvalidHost` for an empty host,
    /// and `MalformedUrl` when `"://"` is missing, the scheme is empty,
    /// or the port is not a number below 65536.
    pub fn new(url: &str) -> (r: Result<Url, HttpError>)
        ensures
            match r {
                Result::Ok(u) => spec_parse_url(url@) == Ok::<UrlSpec, HttpError>(u@),
                Result::Err(e) => spec_parse_url(url@) == Err::<UrlSpec, HttpError>(e),
            },
    {
        proof {
            reveal_strlit("://");
            reveal_strlit("http");
            reveal_strlit("https");
            assert("://"@ =~= scheme_sep());
        }
        let i = match find_from(url, "://", 0) {
            Option::Some(i) => i,
            Option::None => {
                return Err(HttpError::MalformedUrl);
            },
        };
        proof {
            lemma_first_match_in_range(url@, scheme_sep(), 0);
        }
        if i == 0 {
            return Err(HttpError::MalformedUrl);
        }
        let scheme = url.substring_char(0, i);
        assert(scheme@ == url@.take(i as int));
        let protocol: Protocol;
        if str_eq(scheme, "http") {
            protocol = Protocol::HTTP;
        } else if str_eq(scheme, "https") {
            protocol = Protocol::HTTPS;
        } else {
            return Err(HttpError::UnsupportedScheme);
        }
        let a = i + 3;
        let he = host_end_exec(url, a);
        if he == a {
            return Err(HttpError::InvalidHost);
        }
        let host = String::from_str(url.substring_char(a, he));
        let n = url.unicode_len();
        if he < n && url.get_char(he) == ':' {
            let pe = path_start_exec(url, he + 1);
            let ptxt = url.substring_char(he + 1, pe);
            match parse_u16(ptxt) {
                Option::Some(port) => {
                    let path = path_exec(url, pe);
                    Ok(Url { protocol, host, port, path })
                },
                Option::None => Err(HttpError::MalformedUrl),
            }
        } else {
            let path = path_exec(url, he);
            let port = match protocol {
                Protocol::HTTP => 80,
                Protocol::HTTPS => 443,
            };
            Ok(Url { protocol, host, port, path })
        }
    }
}

} // verus!
