//! The two start-line grammars: the request line (method, target,
//! version) and the status line (version, code, reason word).
//!
//! A start line is split on single spaces; the first three tokens are
//! taken and any further ones are ignored, so a multi-word reason
//! phrase keeps only its first word.

use vstd::prelude::*;
use crate::error::{ParseError, ParseErrorV};
use crate::method::{method_of, method_str, Method};
use crate::number::{dec_str, parse_status_code, parse_u16_spec, u16_to_string};
use crate::strutil::{join_with, lemma_split_nonempty, sep_free, sp, split_on, split_str, views_of};

verus! {

/// The literal prefix every HTTP version token must carry.
pub open spec fn http_prefix() -> Seq<char> {
    seq!['H', 'T', 'T', 'P', '/']
}

/// A token of the version grammar: the literal prefix, then anything.
pub open spec fn is_http_version(s: Seq<char>) -> bool {
    s.len() >= 5 && s.subrange(0, 5) == http_prefix()
}

/// The model of a request line.
pub struct RequestLineV {
    pub method: Method,
    pub request_target: Seq<char>,
    pub http_version: Seq<char>,
}

/// The model of a status line.
pub struct StatusLineV {
    pub http_version: Seq<char>,
    pub status_code: u16,
    pub status_text: Seq<char>,
}

/// What a source line means under the request-line grammar: the first
/// token must name a verb, and a target and version token must follow;
/// the target and version are stored verbatim.
pub open spec fn request_line_spec(s: Seq<char>) -> Result<RequestLineV, ParseErrorV> {
    let toks = split_on(s, sp());
    match method_of(toks[0]) {
        Option::None => Err(ParseErrorV::InvalidMethod(toks[0])),
        Option::Some(m) => if toks.len() < 2 {
            Err(ParseErrorV::MissingRequestTarget)
        } else if toks.len() < 3 {
            Err(ParseErrorV::MissingVersion)
        } else {
            Ok(
                RequestLineV {
                    method: m,
                    request_target: toks[1],
                    http_version: toks[2],
                },
            )
        },
    }
}

/// What a source line means under the status-line grammar: a validated
/// version token, a status code that reads as an unsigned 16-bit
/// integer, and a reason word.
pub open spec fn status_line_spec(s: Seq<char>) -> Result<StatusLineV, ParseErrorV> {
    let toks = split_on(s, sp());
    if !is_http_version(toks[0]) {
        Err(ParseErrorV::InvalidVersion(toks[0]))
    } else if toks.len() < 2 {
        Err(ParseErrorV::MissingStatusCode)
    } else {
        match parse_u16_spec(toks[1]) {
            Option::None => Err(ParseErrorV::InvalidStatusCode(toks[1])),
            Option::Some(c) => if toks.len() < 3 {
                Err(ParseErrorV::MissingStatusText)
            } else {
                Ok(
                    StatusLineV {
                        http_version: toks[0],
                        status_code: c,
                        status_text: toks[2],
                    },
                )
            },
        }
    }
}

/// The wire form of a request line.
pub open spec fn request_line_str(rl: RequestLineV) -> Seq<char> {
    method_str(rl.method) + sp() + rl.request_target + sp() + rl.http_version
}

/// The wire form of a status line.
pub open spec fn status_line_str(sl: StatusLineV) -> Seq<char> {
    sl.http_version + sp() + dec_str(sl.status_code as nat) + sp() + sl.status_text
}

/// A request line rebuilt from its parts reads back as those parts:
/// the tokens must be space-free, as parsed tokens always are.
pub proof fn lemma_request_line_round(rl: RequestLineV)
    requires
        sep_free(rl.request_target, sp()),
        sep_free(rl.http_version, sp()),
    ensures
        request_line_spec(request_line_str(rl)) == Ok::<_, ParseErrorV>(rl),
{
    let parts = seq![method_str(rl.method), rl.request_target, rl.http_version];
    reveal_with_fuel(join_with, 3);
    assert(parts.skip(1) =~= seq![rl.request_target, rl.http_version]);
    assert(parts.skip(1).skip(1) =~= seq![rl.http_version]);
    assert(request_line_str(rl) =~= join_with(parts, sp()));
    crate::method::lemma_method_str_free(rl.method);
    crate::strutil::lemma_split_of_join(parts, sp());
    crate::method::lemma_method_str_round(rl.method);
}

/// A status line rebuilt from its parts reads back as those parts: the
/// version and reason must be space-free and the version well-formed,
/// as parsed ones always are.
pub proof fn lemma_status_line_round(sl: StatusLineV)
    requires
        sep_free(sl.http_version, sp()),
        is_http_version(sl.http_version),
        sep_free(sl.status_text, sp()),
    ensures
        status_line_spec(status_line_str(sl)) == Ok::<_, ParseErrorV>(sl),
{
    let code = dec_str(sl.status_code as nat);
    crate::number::lemma_dec_str_val(sl.status_code as nat);
    assert forall|i: int| 0 <= i < code.len() implies code[i] != ' ' by {
        assert(crate::number::is_digit(code[i]));
    }
    crate::strutil::lemma_sep_free_no_first(code, sp());
    let parts = seq![sl.http_version, code, sl.status_text];
    reveal_with_fuel(join_with, 3);
    assert(parts.skip(1) =~= seq![code, sl.status_text]);
    assert(parts.skip(1).skip(1) =~= seq![sl.status_text]);
    assert(status_line_str(sl) =~= join_with(parts, sp()));
    crate::strutil::lemma_split_of_join(parts, sp());
    let toks = split_on(status_line_str(sl), sp());
    assert(toks == parts);
    assert(crate::number::is_digit(code[0]));
    assert(code[0] != '+');
    assert(parse_u16_spec(code) == Option::Some(sl.status_code));
}

/// The tokens of a parsed request line are space-free chunks of the
/// line, and inherit its freedom from the line terminator.
pub proof fn lemma_request_line_tokens_wf(s: Seq<char>, rl: RequestLineV)
    requires
        sep_free(s, crate::strutil::crlf()),
        request_line_spec(s) == Ok::<_, ParseErrorV>(rl),
    ensures
        sep_free(rl.request_target, sp()),
        sep_free(rl.request_target, crate::strutil::crlf()),
        sep_free(rl.http_version, sp()),
        sep_free(rl.http_version, crate::strutil::crlf()),
{
    crate::strutil::lemma_split_chunks_sep_free(s, sp());
    crate::strutil::lemma_split_chunks_inherit_free(s, sp(), crate::strutil::crlf());
}

/// The tokens of a parsed status line are space-free chunks of the
/// line, and inherit its freedom from the line terminator.
pub proof fn lemma_status_line_tokens_wf(s: Seq<char>, sl: StatusLineV)
    requires
        sep_free(s, crate::strutil::crlf()),
        status_line_spec(s) == Ok::<_, ParseErrorV>(sl),
    ensures
        sep_free(sl.http_version, sp()),
        sep_free(sl.http_version, crate::strutil::crlf()),
        is_http_version(sl.http_version),
        sep_free(sl.status_text, sp()),
        sep_free(sl.status_text, crate::strutil::crlf()),
{
    crate::strutil::lemma_split_chunks_sep_free(s, sp());
    crate::strutil::lemma_split_chunks_inherit_free(s, sp(), crate::strutil::crlf());
}

/// Checks the version-token grammar, as `is_http_version` describes.
pub fn is_version_token(s: &str) -> (r: bool)
    ensures
        r == is_http_version(s@),
{
    let n = s.unicode_len();
    if n < 5 {
        return false;
    }
    let ok = s.get_char(0) == 'H' && s.get_char(1) == 'T' && s.get_char(2) == 'T' && s.get_char(3)
        == 'P' && s.get_char(4) == '/';
    proof {
        if ok {
            assert(s@.subrange(0, 5) =~= http_prefix());
        } else {
            if s@.subrange(0, 5) == http_prefix() {
                assert(s@[0] == s@.subrange(0, 5)[0]);
                assert(s@[1] == s@.subrange(0, 5)[1]);
                assert(s@[2] == s@.subrange(0, 5)[2]);
                assert(s@[3] == s@.subrange(0, 5)[3]);
                assert(s@[4] == s@.subrange(0, 5)[4]);
            }
        }
    }
    ok
}

/// The first line of a request message.
#[derive(Debug, Clone)]
pub struct RequestLine {
    method: Method,
    request_target: String,
    http_version: String,
}

impl View for RequestLine {
    type V = RequestLineV;

    closed spec fn view(&self) -> RequestLineV {
        RequestLineV {
            method: self.method,
            request_target: self.request_target@,
            http_version: self.http_version@,
        }
    }
}

impl RequestLine {
    /// Parses a source line under the request-line grammar, exactly as
    /// `request_line_spec` describes.
    pub fn from_str(s: &str) -> (r: Result<RequestLine, ParseError>)
        ensures
            match r {
                Ok(rl) => request_line_spec(s@) == Ok::<_, ParseErrorV>(rl@),
                Err(e) => request_line_spec(s@) == Err::<RequestLineV, _>(e@),
            },
    {
        let mut sep: Vec<char> = Vec::new();
        sep.push(' ');
        proof {
            assert(sep@ =~= sp());
        }
        let toks = split_str(s, &sep);
        proof {
            lemma_split_nonempty(s@, sp());
            assert(views_of(toks@)[0] == split_on(s@, sp())[0]);
        }
        let method = match Method::from_str(toks[0].as_str()) {
            Ok(m) => m,
            Err(e) => {
                return Err(e);
            },
        };
        if toks.len() < 2 {
            return Err(ParseError::MissingRequestTarget);
        }
        if toks.len() < 3 {
            return Err(ParseError::MissingVersion);
        }
        proof {
            assert(views_of(toks@)[1] == split_on(s@, sp())[1]);
            assert(views_of(toks@)[2] == split_on(s@, sp())[2]);
        }
        let request_target = toks[1].clone();
        let http_version = toks[2].clone();
        Ok(RequestLine { method, request_target, http_version })
    }

    /// The verb of the request.
    pub fn method(&self) -> (r: Method)
        ensures
            r == self@.method,
    {
        self.method
    }

    /// The request-target token, stored verbatim.
    pub fn request_target(&self) -> (r: &String)
        ensures
            r@ == self@.request_target,
    {
        &self.request_target
    }

    /// The version token, stored verbatim.
    pub fn http_version(&self) -> (r: &String)
        ensures
            r@ == self@.http_version,
    {
        &self.http_version
    }

    /// The wire form, as `request_line_str` describes.
    pub fn encode(&self) -> (r: String)
        ensures
            r@ == request_line_str(self@),
    {
        let mut out = self.method.name().to_owned();
        out.append(" ");
        out.append(self.request_target.as_str());
        out.append(" ");
        out.append(self.http_version.as_str());
        proof {
            reveal_strlit(" ");
            assert(" "@ =~= sp());
            assert(out@ =~= request_line_str(self@));
        }
        out
    }
}

/// The first line of a response message.
#[derive(Debug, Clone)]
pub struct StatusLine {
    http_version: String,
    status_code: u16,
    status_text: String,
}

impl View for StatusLine {
    type V = StatusLineV;

    closed spec fn view(&self) -> StatusLineV {
        StatusLineV {
            http_version: self.http_version@,
            status_code: self.status_code,
            status_text: self.status_text@,
        }
    }
}

impl StatusLine {
    /// Parses a source line under the status-line grammar, exactly as
    /// `status_line_spec` describes.
    pub fn from_str(s: &str) -> (r: Result<StatusLine, ParseError>)
        ensures
            match r {
                Ok(sl) => status_line_spec(s@) == Ok::<_, ParseErrorV>(sl@),
                Err(e) => status_line_spec(s@) == Err::<StatusLineV, _>(e@),
            },
    {
        let mut sep: Vec<char> = Vec::new();
        sep.push(' ');
        proof {
            assert(sep@ =~= sp());
        }
        let toks = split_str(s, &sep);
        proof {
            lemma_split_nonempty(s@, sp());
            assert(views_of(toks@)[0] == split_on(s@, sp())[0]);
        }
        if !is_version_token(toks[0].as_str()) {
            let t = toks[0].clone();
            return Err(ParseError::InvalidVersion(t));
        }
        if toks.len() < 2 {
            return Err(ParseError::MissingStatusCode);
        }
        proof {
            assert(views_of(toks@)[1] == split_on(s@, sp())[1]);
        }
        let status_code = match parse_status_code(toks[1].as_str()) {
            Ok(c) => c,
            Err(e) => {
                return Err(e);
            },
        };
        if toks.len() < 3 {
            return Err(ParseError::MissingStatusText);
        }
        proof {
            assert(views_of(toks@)[2] == split_on(s@, sp())[2]);
        }
        let http_version = toks[0].clone();
        let status_text = toks[2].clone();
        Ok(StatusLine { http_version, status_code, status_text })
    }

    /// The validated version token.
    pub fn http_version(&self) -> (r: &String)
        ensures
            r@ == self@.http_version,
    {
        &self.http_version
    }

    /// The validated status code.
    pub fn status_code(&self) -> (r: u16)
        ensures
            r == self@.status_code,
    {
        self.status_code
    }

    /// The reason word: only the first whitespace-delimited word of the
    /// reason phrase is retained.
    pub fn status_text(&self) -> (r: &String)
        ensures
            r@ == self@.status_text,
    {
        &self.status_text
    }

    /// The wire form, as `status_line_str` describes.
    pub fn encode(&self) -> (r: String)
        ensures
            r@ == status_line_str(self@),
    {
        let mut out = self.http_version.clone();
        out.append(" ");
        let code = u16_to_string(self.status_code);
        out.append(code.as_str());
        out.append(" ");
        out.append(self.status_text.as_str());
        proof {
            reveal_strlit(" ");
            assert(" "@ =~= sp());
            assert(out@ =~= status_line_str(self@));
        }
        out
    }
}

} // verus!
