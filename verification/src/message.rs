//! The message assembler: a start line, then an optional header block,
//! then an optional body, parsed from a complete buffer or from a
//! sequence of logical lines.
//!
//! The header collection is present in the result only when at least
//! one header line was read: a block that is just the blank terminator
//! collapses to an absent collection.  The body is the remaining lines
//! joined in order with nothing between them, and is present only when
//! at least one line remains.

use vstd::prelude::*;
use crate::error::{ParseError, ParseErrorV};
use crate::headers::{colsp, header_block, pairs_map, HTTPHeaders};
use crate::method::method_str;
use crate::start_line::{
    request_line_spec, request_line_str, status_line_spec, status_line_str, RequestLine,
    RequestLineV, StatusLine, StatusLineV,
};
use crate::strutil::{
    concat_all, crlf, join_with, lemma_concat_all_push, lemma_concat_all_single,
    lemma_split_nonempty, sep_free, split_on, split_str, views_of,
};

verus! {

/// The logical lines of a complete buffer: chunks delimited by the
/// two-character terminator, with a final terminator producing no
/// empty trailing line.  An empty buffer has no lines at all.
pub open spec fn message_lines(s: Seq<char>) -> Seq<Seq<char>> {
    let ls = split_on(s, crlf());
    if ls.last().len() == 0 {
        ls.drop_last()
    } else {
        ls
    }
}

/// A start-line token free of the space separator and of the line
/// terminator, as every parsed token is.
pub open spec fn wf_token(t: Seq<char>) -> bool {
    sep_free(t, crate::strutil::sp()) && sep_free(t, crlf())
}

/// A body that can stand after the blank separator: non-empty, and
/// free of the line terminator.
pub open spec fn wf_body(body: Option<Seq<char>>) -> bool {
    match body {
        Option::Some(b) => b.len() > 0 && sep_free(b, crlf()),
        Option::None => true,
    }
}

pub open spec fn body_str(body: Option<Seq<char>>) -> Seq<char> {
    match body {
        Option::Some(b) => b,
        Option::None => Seq::empty(),
    }
}

/// The logical lines a message encodes to: the start line, one line
/// per header pair, the blank separator, and the body.
pub open spec fn encode_lines(
    start: Seq<char>,
    hpairs: Seq<(Seq<char>, Seq<char>)>,
    body: Option<Seq<char>>,
) -> Seq<Seq<char>> {
    seq![start] + hpairs.map_values(|p: (Seq<char>, Seq<char>)| crate::headers::header_line_str(p))
        + seq![Seq::<char>::empty()] + seq![body_str(body)]
}

/// The wire form of a message: its logical lines joined with the
/// terminator, per the grammar
/// `start-line CRLF (header-line CRLF)* CRLF body`.
pub open spec fn encode_message(
    start: Seq<char>,
    hpairs: Seq<(Seq<char>, Seq<char>)>,
    body: Option<Seq<char>>,
) -> Seq<char> {
    join_with(encode_lines(start, hpairs, body), crlf())
}

/// The wire form written out flat: the start line and terminator, the
/// header block, the blank separator, and the body.
pub proof fn lemma_encode_message_flat(
    start: Seq<char>,
    hpairs: Seq<(Seq<char>, Seq<char>)>,
    body: Option<Seq<char>>,
)
    ensures
        encode_message(start, hpairs, body) == start + crlf()
            + crate::headers::headers_block_str(hpairs) + crlf() + body_str(body),
    decreases hpairs.len(),
{
    let el = encode_lines(start, hpairs, body);
    if hpairs.len() == 0 {
        reveal_with_fuel(join_with, 3);
        assert(el =~= seq![start, Seq::<char>::empty(), body_str(body)]);
        assert(el.skip(1) =~= seq![Seq::<char>::empty(), body_str(body)]);
        assert(el.skip(1).skip(1) =~= seq![body_str(body)]);
        assert(join_with(el, crlf()) == start + crlf() + (Seq::<char>::empty() + crlf()
            + body_str(body)));
        assert(start + crlf() + (Seq::<char>::empty() + crlf() + body_str(body)) =~= start
            + crlf() + crate::headers::headers_block_str(hpairs) + crlf() + body_str(body));
    } else {
        let hl0 = crate::headers::header_line_str(hpairs[0]);
        lemma_encode_message_flat(hl0, hpairs.skip(1), body);
        assert(el.skip(1) =~= encode_lines(hl0, hpairs.skip(1), body)) by {
            assert(hpairs.map_values(
                |p: (Seq<char>, Seq<char>)| crate::headers::header_line_str(p),
            )[0] == hl0);
            assert(hpairs.skip(1).map_values(
                |p: (Seq<char>, Seq<char>)| crate::headers::header_line_str(p),
            ) =~= hpairs.map_values(
                |p: (Seq<char>, Seq<char>)| crate::headers::header_line_str(p),
            ).skip(1));
        }
        assert(el.len() >= 2);
        assert(join_with(el, crlf()) == start + crlf() + join_with(el.skip(1), crlf()));
        assert(crate::headers::headers_block_str(hpairs) == hl0 + crlf()
            + crate::headers::headers_block_str(hpairs.skip(1)));
        assert(start + crlf() + (hl0 + crlf() + crate::headers::headers_block_str(hpairs.skip(1))
            + crlf() + body_str(body)) =~= start + crlf()
            + crate::headers::headers_block_str(hpairs) + crlf() + body_str(body));
    }
}

/// Every encoded line is free of the line terminator, so splitting the
/// wire form recovers exactly the encoded lines.
proof fn lemma_encoded_lines_split(
    start: Seq<char>,
    hpairs: Seq<(Seq<char>, Seq<char>)>,
    body: Option<Seq<char>>,
)
    requires
        sep_free(start, crlf()),
        crate::headers::wf_header_pairs(hpairs),
        wf_body(body),
    ensures
        split_on(encode_message(start, hpairs, body), crlf()) == encode_lines(
            start,
            hpairs,
            body,
        ),
{
    let el = encode_lines(start, hpairs, body);
    let hls = hpairs.map_values(|p: (Seq<char>, Seq<char>)| crate::headers::header_line_str(p));
    assert forall|i: int| 0 <= i < el.len() implies sep_free(#[trigger] el[i], crlf()) by {
        if i == 0 {
            assert(el[0] == start);
        } else if i <= hpairs.len() {
            assert(el[i] == hls[i - 1]);
            let p = hpairs[i - 1];
            assert(crate::headers::wf_pair(p));
            assert(colsp().len() == 2 && colsp()[0] == ':');
            crate::strutil::lemma_short_sep_free(colsp(), crlf());
            crate::strutil::lemma_sep_free_concat2(p.0, colsp(), crlf());
            assert((p.0 + colsp()).len() > 0 && (p.0 + colsp()).last() == ' ');
            crate::strutil::lemma_sep_free_concat2(p.0 + colsp(), p.1, crlf());
            assert(el[i] == p.0 + colsp() + p.1);
        } else if i == hpairs.len() + 1 {
            assert(el[i] =~= Seq::<char>::empty());
            crate::strutil::lemma_short_sep_free(el[i], crlf());
        } else {
            assert(el[i] == body_str(body));
            if body is None {
                crate::strutil::lemma_short_sep_free(Seq::<char>::empty(), crlf());
            }
        }
    }
    crate::strutil::lemma_split_of_join(el, crlf());
}

/// A start line assembled from terminator-free tokens is itself free
/// of the line terminator.
pub proof fn lemma_start_line_crlf_free(a: Seq<char>, b: Seq<char>, c: Seq<char>)
    requires
        sep_free(a, crlf()),
        sep_free(b, crlf()),
        sep_free(c, crlf()),
    ensures
        sep_free(a + crate::strutil::sp() + b + crate::strutil::sp() + c, crlf()),
{
    let sp = crate::strutil::sp();
    crate::strutil::lemma_short_sep_free(sp, crlf());
    crate::strutil::lemma_sep_free_concat2(a, sp, crlf());
    assert((a + sp).len() > 0 && (a + sp).last() == ' ');
    crate::strutil::lemma_sep_free_concat2(a + sp, b, crlf());
    crate::strutil::lemma_sep_free_concat2(a + sp + b, sp, crlf());
    assert((a + sp + b + sp).len() > 0 && (a + sp + b + sp).last() == ' ');
    crate::strutil::lemma_sep_free_concat2(a + sp + b + sp, c, crlf());
}

/// Every logical line of a buffer is free of the line terminator.
pub proof fn lemma_message_lines_crlf_free(s: Seq<char>)
    ensures
        forall|j: int|
            0 <= j < message_lines(s).len() ==> sep_free(#[trigger] message_lines(s)[j], crlf()),
{
    crate::strutil::lemma_split_chunks_sep_free(s, crlf());
    let ls = split_on(s, crlf());
    assert forall|j: int| 0 <= j < message_lines(s).len() implies sep_free(
        #[trigger] message_lines(s)[j],
        crlf(),
    ) by {
        assert(message_lines(s)[j] == ls[j]);
    }
}

/// The line structure of an encoded message: the start line, then a
/// header block that reads back as the encoded pairs, then the body
/// exactly when one was encoded.
proof fn lemma_encoded_message_lines(
    start: Seq<char>,
    hpairs: Seq<(Seq<char>, Seq<char>)>,
    body: Option<Seq<char>>,
)
    requires
        sep_free(start, crlf()),
        crate::headers::wf_header_pairs(hpairs),
        wf_body(body),
    ensures
        ({
            let lines = message_lines(encode_message(start, hpairs, body));
            &&& lines.len() >= 2
            &&& lines[0] == start
            &&& header_block(lines, 1, Map::empty()) == Ok::<_, ParseErrorV>((
                pairs_map(hpairs),
                hpairs.len() as int + 2,
            ))
            &&& (body is Some ==> hpairs.len() + 2 < lines.len() && concat_all(
                lines.skip(hpairs.len() as int + 2),
            ) == body_str(body))
            &&& (body is None ==> hpairs.len() + 2 == lines.len())
        }),
{
    let em = encode_message(start, hpairs, body);
    let el = encode_lines(start, hpairs, body);
    let k = hpairs.len() as int;
    lemma_encoded_lines_split(start, hpairs, body);
    assert(el.len() == k + 3);
    assert(el.last() == body_str(body));
    let lines = message_lines(em);
    match body {
        Option::Some(b) => {
            assert(el.last().len() > 0);
            assert(lines == el);
            assert(lines.skip(k + 2) =~= seq![b]);
            lemma_concat_all_single(b);
        },
        Option::None => {
            assert(el.last().len() == 0);
            assert(lines == el.drop_last());
            assert(lines.len() == k + 2);
        },
    }
    assert(lines[0] == start);
    let hls = hpairs.map_values(|p: (Seq<char>, Seq<char>)| crate::headers::header_line_str(p));
    assert forall|j: int| 0 <= j < hpairs.len() implies lines[1 + j]
        == crate::headers::header_line_str(#[trigger] hpairs[j]) by {
        assert(lines[1 + j] == el[1 + j]);
        assert(el[1 + j] == hls[j]);
    }
    assert(lines[1 + k] == el[1 + k]);
    assert(el[1 + k] =~= Seq::<char>::empty());
    crate::headers::lemma_header_block_encoded(lines, 1, hpairs, Map::empty());
    crate::headers::lemma_insert_all_is_pairs_map(hpairs);
}

/// Re-encoding a request's parts per the grammar and re-parsing them
/// recovers the request: start-line fields and body verbatim, and the
/// headers as the map the pairs build, regardless of their order.  The
/// tokens must be free of the separators they never carry when parsed;
/// the body must be non-empty and terminator-free.
pub proof fn lemma_request_round_trip(
    rl: RequestLineV,
    hpairs: Seq<(Seq<char>, Seq<char>)>,
    body: Option<Seq<char>>,
)
    requires
        wf_token(rl.request_target),
        wf_token(rl.http_version),
        crate::headers::wf_header_pairs(hpairs),
        wf_body(body),
    ensures
        parse_request_lines_spec(message_lines(encode_message(request_line_str(rl), hpairs, body)))
            == Ok::<_, ParseErrorV>(
            HTTPRequestV {
                request_line: rl,
                headers: if hpairs.len() == 0 {
                    Option::None
                } else {
                    Option::Some(pairs_map(hpairs))
                },
                body: body,
            },
        ),
{
    crate::method::lemma_method_str_free(rl.method);
    lemma_start_line_crlf_free(
        crate::method::method_str(rl.method),
        rl.request_target,
        rl.http_version,
    );
    lemma_encoded_message_lines(request_line_str(rl), hpairs, body);
    crate::start_line::lemma_request_line_round(rl);
    crate::headers::lemma_pairs_map_empty(hpairs);
}

/// Re-encoding a response's parts per the grammar and re-parsing them
/// recovers the response, under the same conditions as for requests;
/// the version token must also carry its validated prefix.
pub proof fn lemma_response_round_trip(
    sl: StatusLineV,
    hpairs: Seq<(Seq<char>, Seq<char>)>,
    body: Option<Seq<char>>,
)
    requires
        wf_token(sl.http_version),
        crate::start_line::is_http_version(sl.http_version),
        wf_token(sl.status_text),
        crate::headers::wf_header_pairs(hpairs),
        wf_body(body),
    ensures
        parse_response_lines_spec(message_lines(encode_message(status_line_str(sl), hpairs, body)))
            == Ok::<_, ParseErrorV>(
            HTTPResponseV {
                status_line: sl,
                headers: if hpairs.len() == 0 {
                    Option::None
                } else {
                    Option::Some(pairs_map(hpairs))
                },
                body: body,
            },
        ),
{
    let code = crate::number::dec_str(sl.status_code as nat);
    crate::number::lemma_dec_str_val(sl.status_code as nat);
    assert forall|i: int| 0 <= i < code.len() implies code[i] != '\r' by {
        assert(crate::number::is_digit(code[i]));
    }
    crate::strutil::lemma_sep_free_no_first(code, crlf());
    lemma_start_line_crlf_free(sl.http_version, code, sl.status_text);
    lemma_encoded_message_lines(status_line_str(sl), hpairs, body);
    crate::start_line::lemma_status_line_round(sl);
    crate::headers::lemma_pairs_map_empty(hpairs);
}

/// A message that is a lone request start line has no headers and no
/// body.
pub proof fn lemma_lone_request_line(lines: Seq<Seq<char>>)
    requires
        lines.len() == 1,
        request_line_spec(lines[0]) is Ok,
    ensures
        parse_request_lines_spec(lines) matches Ok(req) && req.headers is None && req.body is None
            && Ok::<_, ParseErrorV>(req.request_line) == request_line_spec(lines[0]),
{
}

/// A message that is a lone status line has no headers and no body.
pub proof fn lemma_lone_status_line(lines: Seq<Seq<char>>)
    requires
        lines.len() == 1,
        status_line_spec(lines[0]) is Ok,
    ensures
        parse_response_lines_spec(lines) matches Ok(resp) && resp.headers is None && resp.body
            is None && Ok::<_, ParseErrorV>(resp.status_line) == status_line_spec(lines[0]),
{
}

/// The model of a parsed request.
pub struct HTTPRequestV {
    pub request_line: RequestLineV,
    pub headers: Option<Map<Seq<char>, Seq<char>>>,
    pub body: Option<Seq<char>>,
}

/// The model of a parsed response.
pub struct HTTPResponseV {
    pub status_line: StatusLineV,
    pub headers: Option<Map<Seq<char>, Seq<char>>>,
    pub body: Option<Seq<char>>,
}

/// What a line sequence means as a request message: the first line
/// under the request-line grammar, then the header block, then the
/// body; the first failure is the result.  The header collection is
/// present exactly when it has at least one entry, and the body exactly
/// when a line remains after the header block.
pub open spec fn parse_request_lines_spec(lines: Seq<Seq<char>>) -> Result<
    HTTPRequestV,
    ParseErrorV,
> {
    if lines.len() == 0 {
        Err(ParseErrorV::MissingStartLine)
    } else {
        match request_line_spec(lines[0]) {
            Err(e) => Err(e),
            Ok(rl) => if lines.len() == 1 {
                Ok(HTTPRequestV { request_line: rl, headers: Option::None, body: Option::None })
            } else {
                match header_block(lines, 1, Map::empty()) {
                    Err(e) => Err(e),
                    Ok(p) => Ok(
                        HTTPRequestV {
                            request_line: rl,
                            headers: if p.0 == Map::<Seq<char>, Seq<char>>::empty() {
                                Option::None
                            } else {
                                Option::Some(p.0)
                            },
                            body: if p.1 < lines.len() {
                                Option::Some(concat_all(lines.skip(p.1)))
                            } else {
                                Option::None
                            },
                        },
                    ),
                }
            },
        }
    }
}

/// What a line sequence means as a response message; as for requests,
/// with the first line under the status-line grammar.
pub open spec fn parse_response_lines_spec(lines: Seq<Seq<char>>) -> Result<
    HTTPResponseV,
    ParseErrorV,
> {
    if lines.len() == 0 {
        Err(ParseErrorV::MissingStartLine)
    } else {
        match status_line_spec(lines[0]) {
            Err(e) => Err(e),
            Ok(sl) => if lines.len() == 1 {
                Ok(HTTPResponseV { status_line: sl, headers: Option::None, body: Option::None })
            } else {
                match header_block(lines, 1, Map::empty()) {
                    Err(e) => Err(e),
                    Ok(p) => Ok(
                        HTTPResponseV {
                            status_line: sl,
                            headers: if p.0 == Map::<Seq<char>, Seq<char>>::empty() {
                                Option::None
                            } else {
                                Option::Some(p.0)
                            },
                            body: if p.1 < lines.len() {
                                Option::Some(concat_all(lines.skip(p.1)))
                            } else {
                                Option::None
                            },
                        },
                    ),
                }
            },
        }
    }
}

/// A parsed request message.
#[derive(Debug, Clone)]
pub struct HTTPRequest {
    request_line: RequestLine,
    headers: Option<HTTPHeaders>,
    body: Option<String>,
}

impl View for HTTPRequest {
    type V = HTTPRequestV;

    closed spec fn view(&self) -> HTTPRequestV {
        HTTPRequestV {
            request_line: self.request_line@,
            headers: match self.headers {
                Option::Some(h) => Option::Some(h@),
                Option::None => Option::None,
            },
            body: match self.body {
                Option::Some(b) => Option::Some(b@),
                Option::None => Option::None,
            },
        }
    }
}

/// A parsed response message.
#[derive(Debug, Clone)]
pub struct HTTPResponse {
    status_line: StatusLine,
    headers: Option<HTTPHeaders>,
    body: Option<String>,
}

impl View for HTTPResponse {
    type V = HTTPResponseV;

    closed spec fn view(&self) -> HTTPResponseV {
        HTTPResponseV {
            status_line: self.status_line@,
            headers: match self.headers {
                Option::Some(h) => Option::Some(h@),
                Option::None => Option::None,
            },
            body: match self.body {
                Option::Some(b) => Option::Some(b@),
                Option::None => Option::None,
            },
        }
    }
}

/// The remaining lines joined in order with nothing between them.
fn collect_rest(lines: &Vec<String>, from: usize) -> (r: String)
    requires
        from <= lines@.len(),
    ensures
        r@ == concat_all(views_of(lines@).skip(from as int)),
{
    let ghost lv = views_of(lines@);
    let mut out = String::new();
    let mut i: usize = from;
    proof {
        assert(lv.subrange(from as int, from as int) =~= Seq::<Seq<char>>::empty());
    }
    while i < lines.len()
        invariant
            from <= i <= lines@.len(),
            lv == views_of(lines@),
            out@ == concat_all(lv.subrange(from as int, i as int)),
        decreases lines@.len() - i,
    {
        out.append(lines[i].as_str());
        proof {
            lemma_concat_all_push(lv.subrange(from as int, i as int), lv[i as int]);
            assert(lv.subrange(from as int, i as int + 1) =~= lv.subrange(
                from as int,
                i as int,
            ).push(lv[i as int]));
            assert(lv[i as int] == lines@[i as int]@);
        }
        i = i + 1;
    }
    proof {
        assert(lv.subrange(from as int, lv.len() as int) =~= lv.skip(from as int));
    }
    out
}

/// The buffer's logical lines, as `message_lines` describes.
fn buffer_lines(s: &str) -> (r: Vec<String>)
    ensures
        views_of(r@) == message_lines(s@),
{
    let mut sep: Vec<char> = Vec::new();
    sep.push('\r');
    sep.push('\n');
    proof {
        assert(sep@ =~= crlf());
    }
    let mut ls = split_str(s, &sep);
    proof {
        lemma_split_nonempty(s@, crlf());
        assert(views_of(ls@).last() == ls@[ls@.len() - 1]@);
    }
    if ls[ls.len() - 1].as_str().unicode_len() == 0 {
        let ghost before = ls@;
        ls.pop();
        proof {
            assert(views_of(ls@) =~= views_of(before).drop_last());
        }
    }
    ls
}

impl HTTPRequest {
    /// Parses a sequence of logical lines as a request message, exactly
    /// as `parse_request_lines_spec` describes.
    pub fn from_lines(lines: &Vec<String>) -> (r: Result<HTTPRequest, ParseError>)
        ensures
            match r {
                Ok(req) => parse_request_lines_spec(views_of(lines@)) == Ok::<_, ParseErrorV>(
                    req@,
                ) && ((forall|j: int|
                    0 <= j < lines@.len() ==> sep_free(#[trigger] views_of(lines@)[j], crlf()))
                    ==> (wf_token(req@.request_line.request_target) && wf_token(
                    req@.request_line.http_version,
                ) && crate::headers::wf_header_pairs(req.headers_pairs()))),
                Err(e) => parse_request_lines_spec(views_of(lines@)) == Err::<HTTPRequestV, _>(
                    e@,
                ),
            },
    {
        let ghost lv = views_of(lines@);
        if lines.len() == 0 {
            return Err(ParseError::MissingStartLine);
        }
        proof {
            assert(lv[0] == lines@[0]@);
        }
        let request_line = match RequestLine::from_str(lines[0].as_str()) {
            Ok(rl) => rl,
            Err(e) => {
                return Err(e);
            },
        };
        proof {
            if forall|j: int| 0 <= j < lv.len() ==> sep_free(#[trigger] lv[j], crlf()) {
                assert(sep_free(lv[0], crlf()));
                crate::start_line::lemma_request_line_tokens_wf(lv[0], request_line@);
            }
        }
        if lines.len() == 1 {
            let result = HTTPRequest { request_line, headers: Option::None, body: Option::None };
            proof {
                assert(result.headers_pairs() =~= Seq::<(Seq<char>, Seq<char>)>::empty());
            }
            return Ok(result);
        }
        let parsed = match HTTPHeaders::new(lines, 1) {
            Ok(p) => p,
            Err(e) => {
                return Err(e);
            },
        };
        let (hs, next) = parsed;
        let headers = if hs.is_empty() {
            Option::None
        } else {
            Option::Some(hs)
        };
        let body = if next < lines.len() {
            Option::Some(collect_rest(lines, next))
        } else {
            Option::None
        };
        let result = HTTPRequest { request_line, headers, body };
        proof {
            if result.headers is None {
                assert(result.headers_pairs() =~= Seq::<(Seq<char>, Seq<char>)>::empty());
            }
        }
        Ok(result)
    }

    /// Parses a complete buffer as a request message: the buffer's
    /// logical lines, read as `parse_request_lines_spec` describes.
    pub fn from_buffer(s: &str) -> (r: Result<HTTPRequest, ParseError>)
        ensures
            match r {
                Ok(req) => parse_request_lines_spec(message_lines(s@)) == Ok::<_, ParseErrorV>(
                    req@,
                ) && wf_token(req@.request_line.request_target) && wf_token(
                    req@.request_line.http_version,
                ) && crate::headers::wf_header_pairs(req.headers_pairs()),
                Err(e) => parse_request_lines_spec(message_lines(s@)) == Err::<HTTPRequestV, _>(
                    e@,
                ),
            },
    {
        let lines = buffer_lines(s);
        proof {
            lemma_message_lines_crlf_free(s@);
        }
        HTTPRequest::from_lines(&lines)
    }

    /// The request's start line.
    pub fn request_line(&self) -> (r: &RequestLine)
        ensures
            r@ == self@.request_line,
    {
        &self.request_line
    }

    /// The header collection, absent when no header line was read.
    pub fn headers(&self) -> (r: &Option<HTTPHeaders>)
        ensures
            match r {
                Option::Some(h) => self@.headers == Option::Some(h@),
                Option::None => self@.headers is None,
            },
    {
        &self.headers
    }

    /// The body, absent when no line remained after the header block.
    pub fn body(&self) -> (r: &Option<String>)
        ensures
            match r {
                Option::Some(b) => self@.body == Option::Some(b@),
                Option::None => self@.body is None,
            },
    {
        &self.body
    }

    /// The header pairs in the order read, empty when the collection
    /// is absent.
    pub closed spec fn headers_pairs(&self) -> Seq<(Seq<char>, Seq<char>)> {
        match self.headers {
            Option::Some(h) => h.pairs_view(),
            Option::None => Seq::empty(),
        }
    }

    /// The wire form of the message, as `encode_message` describes.
    /// The view's header map is exactly the map the encoded pairs
    /// build, so `lemma_request_round_trip` applies to the result.
    pub fn encode(&self) -> (r: String)
        ensures
            r@ == encode_message(
                request_line_str(self@.request_line),
                self.headers_pairs(),
                self@.body,
            ),
            self@.headers matches Option::Some(m) ==> m == pairs_map(self.headers_pairs()),
            self@.headers is None ==> self.headers_pairs() == Seq::<(Seq<char>, Seq<char>)>::empty(),
    {
        let mut out = self.request_line.encode();
        out.append("\r\n");
        match &self.headers {
            Option::Some(h) => {
                let hb = h.encode();
                out.append(hb.as_str());
            },
            Option::None => {},
        }
        out.append("\r\n");
        match &self.body {
            Option::Some(b) => out.append(b.as_str()),
            Option::None => {},
        }
        proof {
            reveal_strlit("\r\n");
            assert("\r\n"@ =~= crlf());
            lemma_encode_message_flat(
                request_line_str(self@.request_line),
                self.headers_pairs(),
                self@.body,
            );
            if self.headers is None {
                assert(self.headers_pairs() =~= Seq::<(Seq<char>, Seq<char>)>::empty());
            }
            assert(out@ =~= encode_message(
                request_line_str(self@.request_line),
                self.headers_pairs(),
                self@.body,
            ));
        }
        out
    }
}

impl HTTPResponse {
    /// Parses a sequence of logical lines as a response message,
    /// exactly as `parse_response_lines_spec` describes.
    pub fn from_lines(lines: &Vec<String>) -> (r: Result<HTTPResponse, ParseError>)
        ensures
            match r {
                Ok(resp) => parse_response_lines_spec(views_of(lines@)) == Ok::<_, ParseErrorV>(
                    resp@,
                ) && ((forall|j: int|
                    0 <= j < lines@.len() ==> sep_free(#[trigger] views_of(lines@)[j], crlf()))
                    ==> (wf_token(resp@.status_line.http_version)
                    && crate::start_line::is_http_version(resp@.status_line.http_version)
                    && wf_token(resp@.status_line.status_text)
                    && crate::headers::wf_header_pairs(resp.headers_pairs()))),
                Err(e) => parse_response_lines_spec(views_of(lines@)) == Err::<HTTPResponseV, _>(
                    e@,
                ),
            },
    {
        let ghost lv = views_of(lines@);
        if lines.len() == 0 {
            return Err(ParseError::MissingStartLine);
        }
        proof {
            assert(lv[0] == lines@[0]@);
        }
        let status_line = match StatusLine::from_str(lines[0].as_str()) {
            Ok(sl) => sl,
            Err(e) => {
                return Err(e);
            },
        };
        proof {
            if forall|j: int| 0 <= j < lv.len() ==> sep_free(#[trigger] lv[j], crlf()) {
                assert(sep_free(lv[0], crlf()));
                crate::start_line::lemma_status_line_tokens_wf(lv[0], status_line@);
            }
        }
        if lines.len() == 1 {
            let result = HTTPResponse { status_line, headers: Option::None, body: Option::None };
            proof {
                assert(result.headers_pairs() =~= Seq::<(Seq<char>, Seq<char>)>::empty());
            }
            return Ok(result);
        }
        let parsed = match HTTPHeaders::new(lines, 1) {
            Ok(p) => p,
            Err(e) => {
                return Err(e);
            },
        };
        let (hs, next) = parsed;
        let headers = if hs.is_empty() {
            Option::None
        } else {
            Option::Some(hs)
        };
        let body = if next < lines.len() {
            Option::Some(collect_rest(lines, next))
        } else {
            Option::None
        };
        let result = HTTPResponse { status_line, headers, body };
        proof {
            if result.headers is None {
                assert(result.headers_pairs() =~= Seq::<(Seq<char>, Seq<char>)>::empty());
            }
        }
        Ok(result)
    }

    /// Parses a complete buffer as a response message: the buffer's
    /// logical lines, read as `parse_response_lines_spec` describes.
    pub fn from_buffer(s: &str) -> (r: Result<HTTPResponse, ParseError>)
        ensures
            match r {
                Ok(resp) => parse_response_lines_spec(message_lines(s@)) == Ok::<_, ParseErrorV>(
                    resp@,
                ) && wf_token(resp@.status_line.http_version)
                    && crate::start_line::is_http_version(resp@.status_line.http_version)
                    && wf_token(resp@.status_line.status_text)
                    && crate::headers::wf_header_pairs(resp.headers_pairs()),
                Err(e) => parse_response_lines_spec(message_lines(s@)) == Err::<
                    HTTPResponseV,
                    _,
                >(e@),
            },
    {
        let lines = buffer_lines(s);
        proof {
            lemma_message_lines_crlf_free(s@);
        }
        HTTPResponse::from_lines(&lines)
    }

    /// The response's start line.
    pub fn status_line(&self) -> (r: &StatusLine)
        ensures
            r@ == self@.status_line,
    {
        &self.status_line
    }

    /// The header collection, absent when no header line was read.
    pub fn headers(&self) -> (r: &Option<HTTPHeaders>)
        ensures
            match r {
                Option::Some(h) => self@.headers == Option::Some(h@),
                Option::None => self@.headers is None,
            },
    {
        &self.headers
    }

    /// The body, absent when no line remained after the header block.
    pub fn body(&self) -> (r: &Option<String>)
        ensures
            match r {
                Option::Some(b) => self@.body == Option::Some(b@),
                Option::None => self@.body is None,
            },
    {
        &self.body
    }

    /// The header pairs in the order read, empty when the collection
    /// is absent.
    pub closed spec fn headers_pairs(&self) -> Seq<(Seq<char>, Seq<char>)> {
        match self.headers {
            Option::Some(h) => h.pairs_view(),
            Option::None => Seq::empty(),
        }
    }

    /// The wire form of the message, as `encode_message` describes.
    /// The view's header map is exactly the map the encoded pairs
    /// build, so `lemma_response_round_trip` applies to the result.
    pub fn encode(&self) -> (r: String)
        ensures
            r@ == encode_message(
                status_line_str(self@.status_line),
                self.headers_pairs(),
                self@.body,
            ),
            self@.headers matches Option::Some(m) ==> m == pairs_map(self.headers_pairs()),
            self@.headers is None ==> self.headers_pairs() == Seq::<(Seq<char>, Seq<char>)>::empty(),
    {
        let mut out = self.status_line.encode();
        out.append("\r\n");
        match &self.headers {
            Option::Some(h) => {
                let hb = h.encode();
                out.append(hb.as_str());
            },
            Option::None => {},
        }
        out.append("\r\n");
        match &self.body {
            Option::Some(b) => out.append(b.as_str()),
            Option::None => {},
        }
        proof {
            reveal_strlit("\r\n");
            assert("\r\n"@ =~= crlf());
            lemma_encode_message_flat(
                status_line_str(self@.status_line),
                self.headers_pairs(),
                self@.body,
            );
            if self.headers is None {
                assert(self.headers_pairs() =~= Seq::<(Seq<char>, Seq<char>)>::empty());
            }
            assert(out@ =~= encode_message(
                status_line_str(self@.status_line),
                self.headers_pairs(),
                self@.body,
            ));
        }
        out
    }
}

/// Re-encoding a parsed request and re-parsing the result recovers a
/// message equal to it in every field, the headers as maps.  The body
/// must be absent, or non-empty and free of the line terminator: a
/// parsed body can be empty or carry a terminator read from separate
/// lines, and such a body does not survive the grammar.
pub proof fn lemma_request_reencode_reparse(req: HTTPRequest)
    requires
        wf_token(req@.request_line.request_target),
        wf_token(req@.request_line.http_version),
        crate::headers::wf_header_pairs(req.headers_pairs()),
        req@.headers is Some <==> req.headers_pairs().len() > 0,
        wf_body(req@.body),
    ensures
        parse_request_lines_spec(
            message_lines(
                encode_message(
                    request_line_str(req@.request_line),
                    req.headers_pairs(),
                    req@.body,
                ),
            ),
        ) == Ok::<_, ParseErrorV>(req@),
{
    lemma_request_round_trip(req@.request_line, req.headers_pairs(), req@.body);
}

/// Re-encoding a parsed response and re-parsing the result recovers a
/// message equal to it in every field, under the same conditions as
/// for requests.
pub proof fn lemma_response_reencode_reparse(resp: HTTPResponse)
    requires
        wf_token(resp@.status_line.http_version),
        crate::start_line::is_http_version(resp@.status_line.http_version),
        wf_token(resp@.status_line.status_text),
        crate::headers::wf_header_pairs(resp.headers_pairs()),
        resp@.headers is Some <==> resp.headers_pairs().len() > 0,
        wf_body(resp@.body),
    ensures
        parse_response_lines_spec(
            message_lines(
                encode_message(
                    status_line_str(resp@.status_line),
                    resp.headers_pairs(),
                    resp@.body,
                ),
            ),
        ) == Ok::<_, ParseErrorV>(resp@),
{
    lemma_response_round_trip(resp@.status_line, resp.headers_pairs(), resp@.body);
}

/// A message of the basic one-header shape — a request line, one
/// header line, the blank separator, and a body — reads back as
/// exactly those parts.
pub proof fn lemma_basic_request_form(
    m: crate::method::Method,
    target: Seq<char>,
    version: Seq<char>,
    key: Seq<char>,
    value: Seq<char>,
    body: Seq<char>,
)
    requires
        wf_token(target),
        wf_token(version),
        crate::headers::wf_pair((key, value)),
        body.len() > 0,
        sep_free(body, crlf()),
    ensures
        ({
            let input = method_str(m) + crate::strutil::sp() + target + crate::strutil::sp()
                + version + crlf() + key + colsp() + value + crlf() + crlf() + body;
            parse_request_lines_spec(message_lines(input)) == Ok::<_, ParseErrorV>(
                HTTPRequestV {
                    request_line: RequestLineV {
                        method: m,
                        request_target: target,
                        http_version: version,
                    },
                    headers: Option::Some(
                        Map::<Seq<char>, Seq<char>>::empty().insert(key, value),
                    ),
                    body: Option::Some(body),
                },
            )
        }),
{
    let rl = RequestLineV { method: m, request_target: target, http_version: version };
    let hp = seq![(key, value)];
    assert(crate::headers::wf_header_pairs(hp)) by {
        assert forall|i: int| 0 <= i < hp.len() implies crate::headers::wf_pair(
            #[trigger] hp[i],
        ) by {
            assert(hp[i] == (key, value));
        }
    }
    lemma_request_round_trip(rl, hp, Option::Some(body));
    lemma_encode_message_flat(request_line_str(rl), hp, Option::Some(body));
    reveal_with_fuel(crate::headers::headers_block_str, 2);
    assert(hp.skip(1) =~= Seq::<(Seq<char>, Seq<char>)>::empty());
    assert(crate::headers::headers_block_str(hp) == crate::headers::header_line_str(hp[0])
        + crlf() + Seq::<char>::empty());
    let input = method_str(m) + crate::strutil::sp() + target + crate::strutil::sp() + version
        + crlf() + key + colsp() + value + crlf() + crlf() + body;
    assert(input =~= encode_message(request_line_str(rl), hp, Option::Some(body)));
    reveal_with_fuel(crate::headers::pairs_map, 2);
    assert(hp.drop_last() =~= Seq::<(Seq<char>, Seq<char>)>::empty());
    assert(pairs_map(hp) == Map::<Seq<char>, Seq<char>>::empty().insert(key, value));
}

} // verus!
