//! The response parser: splits a raw response into status line, header
//! fields, and body, and undoes the ad-hoc chunk framing of the body.
use vstd::prelude::*;
use crate::HttpError;
use crate::headers::Headers;
use crate::strings::{
    spec_split, spec_join, crlf, crlf2, sp, colon_sp, is_digit, is_digits, dec_val, dec_seq,
    first_match_from, match_at, split_str, join_from, parse_u16, find_from,
    lemma_first_match_in_range, lemma_split_nonempty, lemma_dec_roundtrip, lemma_scan_first,
    lemma_split_concat, lemma_split_whole,
};

verus! {

broadcast use vstd::string::group_string_axioms;

/// A parsed HTTP response. A `status_code` of 0 signals a status line
/// that did not parse, not a real code.
pub struct Response {
    pub http_version: String,
    pub status_code: u16,
    pub status_message: String,
    pub headers: Headers,
    pub body: String,
}

/// The mathematical shape of a parsed response.
pub struct RespModel {
    pub http_version: Seq<char>,
    pub status_code: u16,
    pub status_message: Seq<char>,
    pub headers: Map<Seq<char>, Seq<char>>,
    pub body: Seq<char>,
}

impl View for Response {
    type V = RespModel;

    open spec fn view(&self) -> RespModel {
        RespModel {
            http_version: self.http_version@,
            status_code: self.status_code,
            status_message: self.status_message@,
            headers: self.headers.map_view(),
            body: self.body@,
        }
    }
}

/// The reason phrase the table assigns a status code, `""` when the
/// code is unknown. The table keeps the historical phrases for 306
/// ("Switch Proxy") and 308 ("Resume Incomplete") deliberately; 201 is
/// the canonical "Created".
pub open spec fn spec_reason_phrase(code: u16) -> Seq<char> {
    if code == 100 { "Continue"@ }
    else if code == 101 { "Switching Protocols"@ }
    else if code == 103 { "Checkpoint"@ }
    else if code == 200 { "OK"@ }
    else if code == 201 { "Created"@ }
    else if code == 202 { "Accepted"@ }
    else if code == 203 { "Non-Authoritative Information"@ }
    else if code == 204 { "No Content"@ }
    else if code == 205 { "Reset Content"@ }
    else if code == 206 { "Partial Content"@ }
    else if code == 300 { "Multiple Choices"@ }
    else if code == 301 { "Moved Permanently"@ }
    else if code == 302 { "Found"@ }
    else if code == 303 { "See Other"@ }
    else if code == 304 { "Not Modified"@ }
    else if code == 306 { "Switch Proxy"@ }
    else if code == 307 { "Temporary Redirect"@ }
    else if code == 308 { "Resume Incomplete"@ }
    else if code == 400 { "Bad Request"@ }
    else if code == 401 { "Unauthorized"@ }
    else if code == 402 { "Payment Required"@ }
    else if code == 403 { "Forbidden"@ }
    else if code == 404 { "Not Found"@ }
    else if code == 405 { "Method Not Allowed"@ }
    else if code == 406 { "Not Acceptable"@ }
    else if code == 407 { "Proxy Authentication Required"@ }
    else if code == 408 { "Request Timeout"@ }
    else if code == 409 { "Conflict"@ }
    else if code == 410 { "Gone"@ }
    else if code == 411 { "Length Required"@ }
    else if code == 412 { "Precondition Failed"@ }
    else if code == 413 { "Request Entity Too Large"@ }
    else if code == 414 { "Request-URI Too Long"@ }
    else if code == 415 { "Unsupported Media Type"@ }
    else if code == 416 { "Requested Range Not Satisfiable"@ }
    else if code == 417 { "Expectation Failed"@ }
    else if code == 500 { "Internal Server Error"@ }
    else if code == 501 { "Not Implemented"@ }
    else if code == 502 { "Bad Gateway"@ }
    else if code == 503 { "Service Unavailable"@ }
    else if code == 504 { "Gateway Timeout"@ }
    else if code == 505 { "HTTP Version Not Supported"@ }
    else if code == 511 { "Network Authentication Required"@ }
    else { ""@ }
}

/// The status code a token denotes, 0 when it does not parse as a `u16`.
pub open spec fn code_of_token(t: Seq<char>) -> u16 {
    if is_digits(t) && dec_val(t) <= u16::MAX {
        dec_val(t) as u16
    } else {
        0
    }
}

/// The status-line fields of a header block: version, code, message.
/// A line of fewer than two tokens leaves all three at their defaults.
/// With exactly two tokens the message comes from the reason-phrase
/// table; from three on it is the remaining tokens joined by spaces.
pub open spec fn spec_head_fields(head: Seq<char>) -> (Seq<char>, u16, Seq<char>) {
    let lines = spec_split(head, crlf());
    let toks = spec_split(lines[0], sp());
    if toks.len() < 2 {
        (""@, 0u16, ""@)
    } else {
        let code = code_of_token(toks[1]);
        let msg = if toks.len() == 2 {
            spec_reason_phrase(code)
        } else {
            spec_join(toks.skip(2), sp())
        };
        (toks[0], code, msg)
    }
}

/// Header lines folded into a map: a line splitting on `": "` into
/// exactly two parts adds a pair, any other line is skipped; a later
/// duplicate name wins.
pub open spec fn spec_header_fold(lines: Seq<Seq<char>>) -> Map<Seq<char>, Seq<char>>
    decreases lines.len(),
{
    if lines.len() == 0 {
        Map::empty()
    } else {
        let m = spec_header_fold(lines.drop_last());
        let parts = spec_split(lines.last(), colon_sp());
        if parts.len() == 2 {
            m.insert(parts[0], parts[1])
        } else {
            m
        }
    }
}

/// The header map of a header block: every line after the first, folded.
pub open spec fn spec_head_headers(head: Seq<char>) -> Map<Seq<char>, Seq<char>> {
    spec_header_fold(spec_split(head, crlf()).skip(1))
}

/// The pieces at odd zero-based positions from `i` on, concatenated.
pub open spec fn odd_concat(pieces: Seq<Seq<char>>, i: int) -> Seq<char>
    decreases pieces.len() - i,
{
    if i < 0 || i >= pieces.len() {
        Seq::empty()
    } else {
        let rest = odd_concat(pieces, i + 1);
        if i % 2 == 1 {
            pieces[i] + rest
        } else {
            rest
        }
    }
}

/// The de-chunking transform: a body without `"\r\n"` is kept as it is;
/// otherwise the `"\r\n"`-split pieces at even one-based positions (the
/// assumed chunk payloads) are kept and the rest (the assumed size
/// markers) discarded.
pub open spec fn spec_dechunk(body: Seq<char>) -> Seq<char> {
    let pieces = spec_split(body, crlf());
    if pieces.len() == 1 {
        body
    } else {
        odd_concat(pieces, 0)
    }
}

/// What parsing a whole raw response yields: the text before the first
/// blank line is the header block, the rest is the body, de-chunked;
/// without a blank line the response is invalid.
pub open spec fn spec_get_response(raw: Seq<char>) -> Result<RespModel, HttpError> {
    match first_match_from(raw, crlf2(), 0) {
        Option::None => Err(HttpError::InvalidResponse),
        Option::Some(i) => {
            let head = raw.take(i);
            let fields = spec_head_fields(head);
            Ok(
                RespModel {
                    http_version: fields.0,
                    status_code: fields.1,
                    status_message: fields.2,
                    headers: spec_head_headers(head),
                    body: spec_dechunk(raw.skip(i + 4)),
                },
            )
        },
    }
}

impl Response {
    /// The reason phrase of the table, `""` when the code is unknown.
    pub fn get_status_message(status_code: u16) -> (r: String)
        ensures
            r@ == spec_reason_phrase(status_code),
    {
        let phrase: &str = match status_code {
            100 => "Continue",
            101 => "Switching Protocols",
            103 => "Checkpoint",
            200 => "OK",
            201 => "Created",
            202 => "Accepted",
            203 => "Non-Authoritative Information",
            204 => "No Content",
            205 => "Reset Content",
            206 => "Partial Content",
            300 => "Multiple Choices",
            301 => "Moved Permanently",
            302 => "Found",
            303 => "See Other",
            304 => "Not Modified",
            306 => "Switch Proxy",
            307 => "Temporary Redirect",
            308 => "Resume Incomplete",
            400 => "Bad Request",
            401 => "Unauthorized",
            402 => "Payment Required",
            403 => "Forbidden",
            404 => "Not Found",
            405 => "Method Not Allowed",
            406 => "Not Acceptable",
            407 => "Proxy Authentication Required",
            408 => "Request Timeout",
            409 => "Conflict",
            410 => "Gone",
            411 => "Length Required",
            412 => "Precondition Failed",
            413 => "Request Entity Too Large",
            414 => "Request-URI Too Long",
            415 => "Unsupported Media Type",
            416 => "Requested Range Not Satisfiable",
            417 => "Expectation Failed",
            500 => "Internal Server Error",
            501 => "Not Implemented",
            502 => "Bad Gateway",
            503 => "Service Unavailable",
            504 => "Gateway Timeout",
            505 => "HTTP Version Not Supported",
            511 => "Network Authentication Required",
            _ => "",
        };
        String::from_str(phrase)
    }

    /// Parses a header block and attaches an already-extracted body.
    /// Malformed header lines are skipped, not errors.
    pub fn new(headers: &str, body: &str) -> (r: Response)
        ensures
            r.http_version@ == spec_head_fields(headers@).0,
            r.status_code == spec_head_fields(headers@).1,
            r.status_message@ == spec_head_fields(headers@).2,
            r.headers.map_view() == spec_head_headers(headers@),
            r.headers.wf(),
            r.body@ == body@,
    {
        proof {
            reveal_strlit("\r\n");
            reveal_strlit(" ");
            reveal_strlit(": ");
            reveal_strlit("");
            assert("\r\n"@ =~= crlf());
            assert(" "@ =~= sp());
            assert(": "@ =~= colon_sp());
            lemma_split_nonempty(headers@, crlf());
        }
        let lines = split_str(headers, "\r\n");
        let ghost lvs = lines@.map_values(|p: String| p@);
        assert(lvs == spec_split(headers@, crlf()));
        let toks = split_str(lines[0].as_str(), " ");
        let ghost tvs = toks@.map_values(|p: String| p@);
        assert(tvs == spec_split(lvs[0], sp()));
        let http_version: String;
        let status_code: u16;
        let status_message: String;
        if toks.len() < 2 {
            http_version = String::from_str("");
            status_code = 0;
            status_message = String::from_str("");
        } else {
            http_version = String::from_str(toks[0].as_str());
            status_code = match parse_u16(toks[1].as_str()) {
                Option::Some(v) => v,
                Option::None => 0,
            };
            assert(status_code == code_of_token(tvs[1]));
            if toks.len() == 2 {
                status_message = Response::get_status_message(status_code);
            } else {
                status_message = join_from(&toks, " ", 2);
            }
        }
        let mut hdrs = Headers::new();
        let n = lines.len();
        let mut i: usize = 1;
        assert(hdrs.map_view() =~= spec_header_fold(lvs.subrange(1, 1)));
        while i < n
            invariant
                n == lines@.len(),
                1 <= i <= n,
                lvs == lines@.map_values(|p: String| p@),
                hdrs.wf(),
                hdrs.map_view() == spec_header_fold(lvs.subrange(1, i as int)),
            decreases n - i,
        {
            proof {
                reveal_strlit(": ");
                assert(": "@ =~= colon_sp());
            }
            let parts = split_str(lines[i].as_str(), ": ");
            let ghost pvs = parts@.map_values(|p: String| p@);
            assert(pvs == spec_split(lvs[i as int], colon_sp()));
            if parts.len() == 2 {
                let k = String::from_str(parts[0].as_str());
                let v = String::from_str(parts[1].as_str());
                hdrs.insert(k, v);
            }
            proof {
                assert(lvs.subrange(1, i + 1).drop_last() =~= lvs.subrange(1, i as int));
                assert(lvs.subrange(1, i + 1).last() == lvs[i as int]);
            }
            i += 1;
        }
        assert(lvs.subrange(1, n as int) =~= lvs.skip(1));
        let r = Response {
            http_version,
            status_code,
            status_message,
            headers: hdrs,
            body: String::from_str(body),
        };
        assert(r.http_version@ == spec_head_fields(headers@).0);
        r
    }
}

/// Undoes the chunk framing of a body block.
fn dechunk(body: &str) -> (r: String)
    ensures
        r@ == spec_dechunk(body@),
{
    proof {
        reveal_strlit("\r\n");
        assert("\r\n"@ =~= crlf());
        lemma_split_nonempty(body@, crlf());
    }
    let pieces = split_str(body, "\r\n");
    let ghost pvs = pieces@.map_values(|p: String| p@);
    assert(pvs == spec_split(body@, crlf()));
    if pieces.len() == 1 {
        return String::from_str(body);
    }
    let n = pieces.len();
    let mut acc = String::new();
    let mut i: usize = 0;
    while i < n
        invariant
            n == pvs.len(),
            pvs == pieces@.map_values(|p: String| p@),
            0 <= i <= n,
            odd_concat(pvs, 0) =~= acc@ + odd_concat(pvs, i as int),
        decreases n - i,
    {
        if i % 2 == 1 {
            acc.append(pieces[i].as_str());
            assert(odd_concat(pvs, i as int) =~= pvs[i as int] + odd_concat(pvs, i + 1));
        }
        proof {
            assert(odd_concat(pvs, 0) =~= acc@ + odd_concat(pvs, i + 1));
        }
        i += 1;
    }
    assert(odd_concat(pvs, n as int) =~= Seq::empty());
    assert(acc@ =~= odd_concat(pvs, 0));
    acc
}

/// Parses a raw response buffer: the text before the first blank line
/// becomes the status line and headers, the rest the de-chunked body.
/// Returns `InvalidResponse` when no blank line is present.
pub fn get_response(raw: &str) -> (r: Result<Response, HttpError>)
    ensures
        match r {
            Result::Ok(resp) => spec_get_response(raw@) == Ok::<RespModel, HttpError>(resp@)
                && resp.headers.wf(),
            Result::Err(e) => spec_get_response(raw@) == Err::<RespModel, HttpError>(e),
        },
{
    proof {
        reveal_strlit("\r\n\r\n");
        assert("\r\n\r\n"@ =~= crlf2());
    }
    let i = match find_from(raw, "\r\n\r\n", 0) {
        Option::Some(i) => i,
        Option::None => {
            return Err(HttpError::InvalidResponse);
        },
    };
    proof {
        lemma_first_match_in_range(raw@, crlf2(), 0);
    }
    let n = raw.unicode_len();
    let head = raw.substring_char(0, i);
    let body_block = raw.substring_char(i + 4, n);
    let content = dechunk(body_block);
    let resp = Response::new(head, content.as_str());
    proof {
        assert(head@ =~= raw@.take(i as int));
        assert(body_block@ =~= raw@.skip(i as int + 4));
    }
    Ok(resp)
}

/// Round trip: a reply whose status line carries a serialized status
/// code and a reason phrase, and whose one header line carries a
/// name–value pair, parses back to exactly those parts. The phrase may
/// hold no space, and the pair no colon, as the wire format keeps
/// neither apart from its separators.
pub proof fn lemma_reply_roundtrip(
    code: u16,
    msg: Seq<char>,
    name: Seq<char>,
    value: Seq<char>,
    body: Seq<char>,
)
    requires
        msg.len() > 0,
        forall|i: int| 0 <= i < msg.len() ==> msg[i] != ' ' && #[trigger] msg[i] != '\r',
        name.len() > 0,
        forall|i: int| 0 <= i < name.len() ==> name[i] != ':' && #[trigger] name[i] != '\r',
        forall|i: int| 0 <= i < value.len() ==> value[i] != ':' && #[trigger] value[i] != '\r',
    ensures
        spec_get_response(
            "HTTP/1.1"@ + sp() + dec_seq(code as int) + sp() + msg + crlf() + name + colon_sp()
                + value + crlf2() + body,
        ) == Ok::<RespModel, HttpError>(
            RespModel {
                http_version: "HTTP/1.1"@,
                status_code: code,
                status_message: msg,
                headers: Map::<Seq<char>, Seq<char>>::empty().insert(name, value),
                body: spec_dechunk(body),
            },
        ),
{
    reveal_strlit("HTTP/1.1");
    let ver = "HTTP/1.1"@;
    let dec = dec_seq(code as int);
    let sl = ver + sp() + dec + sp() + msg;
    let hline = name + colon_sp() + value;
    let head = sl + crlf() + hline;
    let raw = head + crlf2() + body;
    lemma_dec_roundtrip(code as int);
    assert(forall|k: int| 0 <= k < dec.len() ==> is_digit(#[trigger] dec[k]));
    assert(forall|k: int| 0 <= k < ver.len() ==> ver[k] != '\r' && #[trigger] ver[k] != ' ') by {
        assert(ver[0] == 'H');
        assert(ver[1] == 'T');
        assert(ver[2] == 'T');
        assert(ver[3] == 'P');
        assert(ver[4] == '/');
        assert(ver[5] == '1');
        assert(ver[6] == '.');
        assert(ver[7] == '1');
    }
    assert(forall|k: int| 0 <= k < sl.len() ==> #[trigger] sl[k] != '\r');
    assert(forall|k: int| 0 <= k < hline.len() ==> #[trigger] hline[k] != '\r');

    // The first blank line sits right after the header block.
    assert(match_at(raw, crlf2(), head.len() as int)) by {
        assert(raw.subrange(head.len() as int, head.len() as int + 4) =~= crlf2());
    }
    assert(forall|p: int| 0 <= p < head.len() ==> !#[trigger] match_at(raw, crlf2(), p)) by {
        assert forall|p: int| 0 <= p < head.len() implies !match_at(raw, crlf2(), p) by {
            if p + 4 <= raw.len() {
                assert(raw.subrange(p, p + 4)[0] == raw[p]);
                assert(raw.subrange(p, p + 4)[2] == raw[p + 2]);
                if p < sl.len() {
                    assert(raw[p] == sl[p]);
                } else if p == sl.len() {
                    assert(raw[p + 2] == hline[0]);
                } else if p == sl.len() + 1 {
                    assert(raw[p] == '\n');
                } else {
                    assert(raw[p] == hline[p - sl.len() - 2]);
                }
            }
        }
    }
    lemma_scan_first(raw, crlf2(), 0, head.len() as int);
    assert(raw.take(head.len() as int) =~= head);
    assert(raw.skip(head.len() as int + 4) =~= body);

    // The header block splits into the status line and the header line.
    lemma_split_concat(sl, crlf(), hline);
    lemma_split_whole(hline, crlf());
    let lines = spec_split(head, crlf());
    assert(lines =~= seq![sl, hline]);

    // The status line splits into version, code, and message tokens.
    lemma_split_concat(ver, sp(), dec + sp() + msg);
    assert(ver + sp() + (dec + sp() + msg) =~= sl);
    lemma_split_concat(dec, sp(), msg);
    lemma_split_whole(msg, sp());
    let toks = spec_split(sl, sp());
    assert(toks =~= seq![ver, dec, msg]);
    assert(code_of_token(dec) == code);
    assert(toks.skip(2) =~= seq![msg]);
    assert(spec_join(seq![msg], sp()) == msg);
    assert(spec_head_fields(head) == (ver, code, msg));

    // The one header line yields the one pair.
    lemma_split_concat(name, colon_sp(), value);
    assert(name + colon_sp() + value =~= hline);
    lemma_split_whole(value, colon_sp());
    let parts = spec_split(hline, colon_sp());
    assert(parts =~= seq![name, value]);
    let tail = lines.skip(1);
    assert(tail =~= seq![hline]);
    assert(tail.len() == 1);
    assert(tail.last() == hline);
    assert(tail.drop_last() =~= Seq::<Seq<char>>::empty());
    assert(spec_header_fold(tail.drop_last()) =~= Map::<Seq<char>, Seq<char>>::empty());
    assert(spec_split(tail.last(), colon_sp()) == seq![name, value]);
    assert(spec_header_fold(tail) =~= Map::<Seq<char>, Seq<char>>::empty().insert(name, value));
    assert(spec_head_headers(head) == Map::<Seq<char>, Seq<char>>::empty().insert(name, value));

    // The statement's one concatenation is this proof's `raw`.
    assert("HTTP/1.1"@ + sp() + dec_seq(code as int) + sp() + msg + crlf() + name + colon_sp()
        + value + crlf2() + body =~= raw);
    assert(spec_get_response(raw) == Ok::<RespModel, HttpError>(
        RespModel {
            http_version: "HTTP/1.1"@,
            status_code: code,
            status_message: msg,
            headers: Map::<Seq<char>, Seq<char>>::empty().insert(name, value),
            body: spec_dechunk(body),
        },
    ));
}

/// A body free of `"\r\n"` separators is kept as it is: splitting
/// yields one piece, so the de-chunking transform is the identity.
pub proof fn lemma_dechunk_plain(body: Seq<char>)
    requires
        forall|k: int| 0 <= k < body.len() ==> #[trigger] body[k] != '\r',
    ensures
        spec_dechunk(body) == body,
{
    lemma_split_whole(body, crlf());
}

/// Parsing is a function of the buffer alone: two responses parsed from
/// the same raw text agree field for field.
pub proof fn lemma_parse_idempotent(r1: Response, r2: Response, raw: Seq<char>)
    requires
        spec_get_response(raw) == Ok::<RespModel, HttpError>(r1@),
        spec_get_response(raw) == Ok::<RespModel, HttpError>(r2@),
    ensures
        r1.http_version@ == r2.http_version@,
        r1.status_code == r2.status_code,
        r1.status_message@ == r2.status_message@,
        r1.headers.map_view() == r2.headers.map_view(),
        r1.body@ == r2.body@,
{
}

} // verus!
