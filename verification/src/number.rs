//! The status-code validator: decimal parsing of unsigned 16-bit
//! integers, and the decimal spelling used when a status line is
//! re-encoded.

use vstd::prelude::*;
use crate::error::{ParseError, ParseErrorV};

verus! {

/// An ASCII decimal digit.
pub open spec fn is_digit(c: char) -> bool {
    '0' <= c && c <= '9'
}

pub open spec fn digit_val(c: char) -> nat {
    (c as int - '0' as int) as nat
}

/// A non-empty, all-digit token.
pub open spec fn is_digits(s: Seq<char>) -> bool {
    s.len() > 0 && forall|i: int| 0 <= i < s.len() ==> is_digit(#[trigger] s[i])
}

/// The value of a digit string read in base ten.
pub open spec fn dec_val(s: Seq<char>) -> nat
    decreases s.len(),
{
    if s.len() == 0 {
        0
    } else {
        dec_val(s.drop_last()) * 10 + digit_val(s.last())
    }
}

/// The unsigned 16-bit integer a token denotes, if any: an optional
/// leading `+`, then decimal digits, with a value of at most 65535.
pub open spec fn parse_u16_spec(s: Seq<char>) -> Option<u16> {
    let t = if s.len() > 0 && s[0] == '+' {
        s.skip(1)
    } else {
        s
    };
    if is_digits(t) && dec_val(t) <= 65535 {
        Some(dec_val(t) as u16)
    } else {
        None
    }
}

/// Reading one more digit can only grow the value.
proof fn lemma_dec_val_prefix(s: Seq<char>, i: int)
    requires
        0 <= i <= s.len(),
    ensures
        dec_val(s.subrange(0, i)) <= dec_val(s),
    decreases s.len() - i,
{
    if i == s.len() {
        assert(s.subrange(0, i) =~= s);
    } else {
        lemma_dec_val_prefix(s, i + 1);
        let p = s.subrange(0, i + 1);
        assert(p.drop_last() =~= s.subrange(0, i));
        assert(dec_val(s.subrange(0, i)) <= dec_val(p));
    }
}

/// Parses a token as an unsigned 16-bit decimal integer, exactly as
/// `parse_u16_spec` describes; any other token is rejected.
pub fn parse_status_code(s: &str) -> (r: Result<u16, ParseError>)
    ensures
        match r {
            Ok(v) => parse_u16_spec(s@) == Some(v),
            Err(e) => parse_u16_spec(s@) is None && e@ == ParseErrorV::InvalidStatusCode(s@),
        },
{
    let n = s.unicode_len();
    let start: usize = if n > 0 && s.get_char(0) == '+' {
        1
    } else {
        0
    };
    let ghost t = if s@.len() > 0 && s@[0] == '+' {
        s@.skip(1)
    } else {
        s@
    };
    proof {
        assert(t =~= s@.subrange(start as int, n as int));
    }
    if start == n {
        // no digits at all
        return Err(ParseError::InvalidStatusCode(s.to_owned()));
    }
    let mut value: u32 = 0;
    let mut i: usize = start;
    while i < n
        invariant
            start <= i <= n,
            n == s@.len(),
            t == s@.subrange(start as int, n as int),
            t == (if s@.len() > 0 && s@[0] == '+' {
                s@.skip(1)
            } else {
                s@
            }),
            value == dec_val(t.subrange(0, i - start)),
            value <= 65535,
            forall|j: int| 0 <= j < i - start ==> is_digit(#[trigger] t[j]),
        decreases n - i,
    {
        let c = s.get_char(i);
        if c < '0' || c > '9' {
            proof {
                assert(t[i - start] == s@[i as int]);
                assert(!is_digit(t[i - start]));
            }
            return Err(ParseError::InvalidStatusCode(s.to_owned()));
        }
        let d: u32 = (c as u32) - 48;
        proof {
            let p = t.subrange(0, i - start + 1);
            assert(p.drop_last() =~= t.subrange(0, i - start));
            assert(p.last() == s@[i as int]);
            assert(d == digit_val(s@[i as int]));
        }
        let next: u32 = value * 10 + d;
        if next > 65535 {
            proof {
                lemma_dec_val_prefix(t, i - start + 1);
                assert(dec_val(t) >= next);
            }
            return Err(ParseError::InvalidStatusCode(s.to_owned()));
        }
        value = next;
        i = i + 1;
    }
    proof {
        assert(t.subrange(0, n - start) =~= t);
        assert(is_digits(t));
    }
    Ok(value as u16)
}

pub open spec fn digit_char(d: nat) -> char {
    ((d + '0' as int) as u8) as char
}

/// The decimal spelling of a number, most significant digit first.
pub open spec fn dec_str(n: nat) -> Seq<char>
    decreases n,
{
    if n < 10 {
        seq![digit_char(n)]
    } else {
        dec_str(n / 10).push(digit_char(n % 10))
    }
}

/// The decimal spelling reads back as the number it spells.
pub proof fn lemma_dec_str_val(n: nat)
    ensures
        is_digits(dec_str(n)),
        dec_val(dec_str(n)) == n,
        forall|i: int| 0 <= i < dec_str(n).len() ==> is_digit(#[trigger] dec_str(n)[i]),
    decreases n,
{
    if n < 10 {
        reveal_with_fuel(dec_val, 2);
        let s = dec_str(n);
        assert(s.drop_last() =~= Seq::<char>::empty());
        assert(dec_val(s) == digit_val(digit_char(n)));
    } else {
        lemma_dec_str_val(n / 10);
        let s = dec_str(n);
        assert(s.drop_last() =~= dec_str(n / 10));
        assert(s.last() == digit_char(n % 10));
        assert(dec_val(s) == dec_val(dec_str(n / 10)) * 10 + digit_val(digit_char(n % 10)));
        assert(digit_val(digit_char(n % 10)) == n % 10);
        assert((n / 10) * 10 + n % 10 == n);
    }
}

fn digit_str(d: u32) -> (r: &'static str)
    requires
        d < 10,
    ensures
        r@ == seq![digit_char(d as nat)],
{
    let r: &'static str = if d == 0 {
        "0"
    } else if d == 1 {
        "1"
    } else if d == 2 {
        "2"
    } else if d == 3 {
        "3"
    } else if d == 4 {
        "4"
    } else if d == 5 {
        "5"
    } else if d == 6 {
        "6"
    } else if d == 7 {
        "7"
    } else if d == 8 {
        "8"
    } else {
        "9"
    };
    proof {
        reveal_strlit("0");
        reveal_strlit("1");
        reveal_strlit("2");
        reveal_strlit("3");
        reveal_strlit("4");
        reveal_strlit("5");
        reveal_strlit("6");
        reveal_strlit("7");
        reveal_strlit("8");
        reveal_strlit("9");
        assert(r@ =~= seq![digit_char(d as nat)]);
    }
    r
}

/// The decimal spelling of a status code, as `dec_str` describes.
pub fn u16_to_string(n: u16) -> (r: String)
    ensures
        r@ == dec_str(n as nat),
    decreases n,
{
    let d: u32 = (n % 10) as u32;
    if n < 10 {
        digit_str(n as u32).to_owned()
    } else {
        let mut prefix = u16_to_string(n / 10);
        prefix.append(digit_str(d));
        proof {
            assert(dec_str((n / 10) as nat) + seq![digit_char((n % 10) as nat)] =~= dec_str(
                n as nat,
            ));
        }
        prefix
    }
}

} // verus!
