//! The HTTP method and its validator.
//!
//! A token is matched case-insensitively against exactly the eight
//! canonical verb spellings; anything else is rejected.

use vstd::prelude::*;
use crate::error::{ParseError, ParseErrorV};

verus! {

/// One of the eight known HTTP verbs.
#[derive(Debug, Clone, Copy, PartialEq, Eq, Structural)]
pub enum Method {
    GET,
    POST,
    HEAD,
    OPTIONS,
    DELETE,
    PUT,
    CONNECT,
    TRACE,
}

/// ASCII upper-case letters folded to lower case; all else unchanged.
pub open spec fn lower_char(c: char) -> char {
    if 'A' <= c && c <= 'Z' {
        (c as u8 + 32) as char
    } else {
        c
    }
}

/// The token with each character case-folded.
pub open spec fn lower_seq(s: Seq<char>) -> Seq<char> {
    s.map_values(|c: char| lower_char(c))
}

/// The verb a token names under case-insensitive matching, if any.
pub open spec fn method_of(s: Seq<char>) -> Option<Method> {
    let l = lower_seq(s);
    if l == lower_seq("GET"@) {
        Some(Method::GET)
    } else if l == lower_seq("POST"@) {
        Some(Method::POST)
    } else if l == lower_seq("HEAD"@) {
        Some(Method::HEAD)
    } else if l == lower_seq("OPTIONS"@) {
        Some(Method::OPTIONS)
    } else if l == lower_seq("DELETE"@) {
        Some(Method::DELETE)
    } else if l == lower_seq("PUT"@) {
        Some(Method::PUT)
    } else if l == lower_seq("CONNECT"@) {
        Some(Method::CONNECT)
    } else if l == lower_seq("TRACE"@) {
        Some(Method::TRACE)
    } else {
        None
    }
}

/// The canonical spelling of a verb.
pub open spec fn method_str(m: Method) -> Seq<char> {
    match m {
        Method::GET => "GET"@,
        Method::POST => "POST"@,
        Method::HEAD => "HEAD"@,
        Method::OPTIONS => "OPTIONS"@,
        Method::DELETE => "DELETE"@,
        Method::PUT => "PUT"@,
        Method::CONNECT => "CONNECT"@,
        Method::TRACE => "TRACE"@,
    }
}

fn lower_char_x(c: char) -> (r: char)
    ensures
        r == lower_char(c),
{
    if c >= 'A' && c <= 'Z' {
        (c as u8 + 32) as char
    } else {
        c
    }
}

/// Case-insensitive string equality, folding ASCII letters.
fn eq_nocase(s: &str, t: &str) -> (r: bool)
    ensures
        r == (lower_seq(s@) == lower_seq(t@)),
{
    let ns = s.unicode_len();
    let nt = t.unicode_len();
    if ns != nt {
        proof {
            assert(lower_seq(s@).len() == s@.len());
            assert(lower_seq(t@).len() == t@.len());
        }
        return false;
    }
    let mut i: usize = 0;
    while i < ns
        invariant
            0 <= i <= ns,
            ns == s@.len(),
            ns == t@.len(),
            forall|j: int| 0 <= j < i ==> lower_seq(s@)[j] == lower_seq(t@)[j],
        decreases ns - i,
    {
        let cs = lower_char_x(s.get_char(i));
        let ct = lower_char_x(t.get_char(i));
        proof {
            assert(lower_seq(s@)[i as int] == lower_char(s@[i as int]));
            assert(lower_seq(t@)[i as int] == lower_char(t@[i as int]));
        }
        if cs != ct {
            return false;
        }
        i = i + 1;
    }
    proof {
        assert(lower_seq(s@) =~= lower_seq(t@));
    }
    true
}

impl Method {
    /// Matches a token against the eight canonical verb spellings,
    /// ignoring ASCII case, exactly as `method_of` describes.
    pub fn from_str(s: &str) -> (r: Result<Method, ParseError>)
        ensures
            match r {
                Ok(m) => method_of(s@) == Some(m),
                Err(e) => method_of(s@) is None && e@ == ParseErrorV::InvalidMethod(s@),
            },
    {
        if eq_nocase(s, "GET") {
            Ok(Method::GET)
        } else if eq_nocase(s, "POST") {
            Ok(Method::POST)
        } else if eq_nocase(s, "HEAD") {
            Ok(Method::HEAD)
        } else if eq_nocase(s, "OPTIONS") {
            Ok(Method::OPTIONS)
        } else if eq_nocase(s, "DELETE") {
            Ok(Method::DELETE)
        } else if eq_nocase(s, "PUT") {
            Ok(Method::PUT)
        } else if eq_nocase(s, "CONNECT") {
            Ok(Method::CONNECT)
        } else if eq_nocase(s, "TRACE") {
            Ok(Method::TRACE)
        } else {
            Err(ParseError::InvalidMethod(s.to_owned()))
        }
    }

    /// The canonical spelling, as `method_str` describes.
    pub fn name(&self) -> (r: &'static str)
        ensures
            r@ == method_str(*self),
    {
        match self {
            Method::GET => "GET",
            Method::POST => "POST",
            Method::HEAD => "HEAD",
            Method::OPTIONS => "OPTIONS",
            Method::DELETE => "DELETE",
            Method::PUT => "PUT",
            Method::CONNECT => "CONNECT",
            Method::TRACE => "TRACE",
        }
    }
}

/// The canonical spelling of each verb names that verb.
pub proof fn lemma_method_str_round(m: Method)
    ensures
        method_of(method_str(m)) == Some(m),
{
    reveal_strlit("GET");
    reveal_strlit("POST");
    reveal_strlit("HEAD");
    reveal_strlit("OPTIONS");
    reveal_strlit("DELETE");
    reveal_strlit("PUT");
    reveal_strlit("CONNECT");
    reveal_strlit("TRACE");
    assert(lower_seq("GET"@).len() == 3);
    assert(lower_seq("POST"@).len() == 4);
    assert(lower_seq("HEAD"@).len() == 4);
    assert(lower_seq("OPTIONS"@).len() == 7);
    assert(lower_seq("DELETE"@).len() == 6);
    assert(lower_seq("PUT"@).len() == 3);
    assert(lower_seq("CONNECT"@).len() == 7);
    assert(lower_seq("TRACE"@).len() == 5);
    assert(lower_seq("GET"@)[0] == 'g');
    assert(lower_seq("POST"@)[0] == 'p');
    assert(lower_seq("HEAD"@)[0] == 'h');
    assert(lower_seq("OPTIONS"@)[0] == 'o');
    assert(lower_seq("DELETE"@)[0] == 'd');
    assert(lower_seq("PUT"@)[0] == 'p');
    assert(lower_seq("CONNECT"@)[0] == 'c');
    assert(lower_seq("TRACE"@)[0] == 't');
}

/// A canonical spelling holds neither a space nor a line-terminator
/// character.
pub proof fn lemma_method_str_free(m: Method)
    ensures
        crate::strutil::sep_free(method_str(m), crate::strutil::sp()),
        crate::strutil::sep_free(method_str(m), crate::strutil::crlf()),
{
    reveal_strlit("GET");
    reveal_strlit("POST");
    reveal_strlit("HEAD");
    reveal_strlit("OPTIONS");
    reveal_strlit("DELETE");
    reveal_strlit("PUT");
    reveal_strlit("CONNECT");
    reveal_strlit("TRACE");
    let s = method_str(m);
    assert forall|i: int| 0 <= i < s.len() implies s[i] != ' ' && s[i] != '\r' by {
        match m {
            Method::GET => {},
            Method::POST => {},
            Method::HEAD => {},
            Method::OPTIONS => {},
            Method::DELETE => {},
            Method::PUT => {},
            Method::CONNECT => {},
            Method::TRACE => {},
        }
    }
    crate::strutil::lemma_sep_free_no_first(s, crate::strutil::sp());
    crate::strutil::lemma_sep_free_no_first(s, crate::strutil::crlf());
}

} // verus!
