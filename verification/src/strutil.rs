//! Verified string splitting and joining.
//!
//! The message grammar is built from three separators: the two-character
//! line terminator, the single space of a start line, and the
//! two-character `": "` of a header line.  `split_on` gives the meaning
//! of splitting a character sequence on such a separator, scanning left
//! to right; `join_with` is its inverse on separator-free chunks.

use vstd::prelude::*;

verus! {

/// The chunks of `s` delimited by `sep`, scanning left to right.
/// Splitting never yields an empty result: a string without the
/// separator is one chunk, and each separator occurrence adds one.
pub open spec fn split_on(s: Seq<char>, sep: Seq<char>) -> Seq<Seq<char>>
    recommends
        sep.len() > 0,
    decreases s.len(),
{
    if sep.len() == 0 {
        seq![s]
    } else if s.len() >= sep.len() && s.subrange(0, sep.len() as int) == sep {
        seq![Seq::<char>::empty()] + split_on(s.skip(sep.len() as int), sep)
    } else if s.len() == 0 {
        seq![Seq::<char>::empty()]
    } else {
        let rest = split_on(s.skip(1), sep);
        seq![seq![s[0]] + rest[0]] + rest.skip(1)
    }
}

/// The chunks of `parts` concatenated with `sep` between consecutive ones.
pub open spec fn join_with(parts: Seq<Seq<char>>, sep: Seq<char>) -> Seq<char>
    decreases parts.len(),
{
    if parts.len() == 0 {
        Seq::empty()
    } else if parts.len() == 1 {
        parts[0]
    } else {
        parts[0] + sep + join_with(parts.skip(1), sep)
    }
}

/// `s` holds `sub` as a contiguous subsequence.
pub open spec fn contains_seq(s: Seq<char>, sub: Seq<char>) -> bool {
    exists|i: int|
        0 <= i && i + sub.len() <= s.len() && #[trigger] s.subrange(i, i + sub.len()) == sub
}

/// `s` is free of the separator `sep`.
pub open spec fn sep_free(s: Seq<char>, sep: Seq<char>) -> bool {
    !contains_seq(s, sep)
}

/// A separator on which joining inverts splitting: a single character,
/// or two distinct characters (so no occurrence can straddle a chunk
/// boundary in the joined string).
pub open spec fn good_sep(sep: Seq<char>) -> bool {
    sep.len() == 1 || (sep.len() == 2 && sep[0] != sep[1])
}

/// Splitting yields at least one chunk.
pub proof fn lemma_split_nonempty(s: Seq<char>, sep: Seq<char>)
    ensures
        split_on(s, sep).len() >= 1,
    decreases s.len(),
{
    if sep.len() == 0 {
    } else if s.len() >= sep.len() && s.subrange(0, sep.len() as int) == sep {
        lemma_split_nonempty(s.skip(sep.len() as int), sep);
    } else if s.len() == 0 {
    } else {
        lemma_split_nonempty(s.skip(1), sep);
    }
}

/// An occurrence of `sub` at position `i` witnesses containment.
pub proof fn lemma_contains_at(s: Seq<char>, sub: Seq<char>, i: int)
    requires
        0 <= i,
        i + sub.len() <= s.len(),
        s.subrange(i, i + sub.len()) == sub,
    ensures
        contains_seq(s, sub),
{
}

/// A separator-free string is a single chunk.
pub proof fn lemma_sep_free_single(s: Seq<char>, sep: Seq<char>)
    requires
        sep.len() > 0,
        sep_free(s, sep),
    ensures
        split_on(s, sep) =~= seq![s],
    decreases s.len(),
{
    if s.len() >= sep.len() && s.subrange(0, sep.len() as int) == sep {
        assert(s.subrange(0, 0 + sep.len() as int) == sep);
        lemma_contains_at(s, sep, 0);
    } else if s.len() == 0 {
        assert(Seq::<char>::empty() =~= s);
    } else {
        assert(sep_free(s.skip(1), sep)) by {
            if contains_seq(s.skip(1), sep) {
                let i = choose|i: int|
                    0 <= i && i + sep.len() <= s.skip(1).len() && #[trigger] s.skip(1).subrange(
                        i,
                        i + sep.len(),
                    ) == sep;
                assert(s.subrange(i + 1, i + 1 + sep.len() as int) =~= s.skip(1).subrange(
                    i,
                    i + sep.len(),
                ));
            }
        }
        lemma_sep_free_single(s.skip(1), sep);
        assert(seq![s[0]] + split_on(s.skip(1), sep)[0] =~= s);
    }
}

/// The first chunk of a split is a prefix of the string.
pub proof fn lemma_split_first_prefix(s: Seq<char>, sep: Seq<char>)
    requires
        sep.len() > 0,
    ensures
        split_on(s, sep)[0].len() <= s.len(),
        split_on(s, sep)[0] == s.subrange(0, split_on(s, sep)[0].len() as int),
    decreases s.len(),
{
    lemma_split_nonempty(s, sep);
    if s.len() >= sep.len() && s.subrange(0, sep.len() as int) == sep {
        assert(split_on(s, sep)[0] =~= s.subrange(0, 0));
    } else if s.len() == 0 {
        assert(split_on(s, sep)[0] =~= s.subrange(0, 0));
    } else {
        lemma_split_first_prefix(s.skip(1), sep);
        let r0 = split_on(s.skip(1), sep)[0];
        assert(seq![s[0]] + r0 =~= s.subrange(0, r0.len() as int + 1));
    }
}

/// Every chunk of a split is free of the separator.
pub proof fn lemma_split_chunks_sep_free(s: Seq<char>, sep: Seq<char>)
    requires
        sep.len() > 0,
    ensures
        forall|i: int|
            0 <= i < split_on(s, sep).len() ==> sep_free(#[trigger] split_on(s, sep)[i], sep),
    decreases s.len(),
{
    if s.len() >= sep.len() && s.subrange(0, sep.len() as int) == sep {
        lemma_split_chunks_sep_free(s.skip(sep.len() as int), sep);
        assert(sep_free(Seq::<char>::empty(), sep));
        let r = split_on(s.skip(sep.len() as int), sep);
        assert forall|i: int| 0 <= i < split_on(s, sep).len() implies sep_free(
            #[trigger] split_on(s, sep)[i],
            sep,
        ) by {
            if i >= 1 {
                assert(split_on(s, sep)[i] == r[i - 1]);
            }
        }
    } else if s.len() == 0 {
        assert(sep_free(Seq::<char>::empty(), sep));
    } else {
        lemma_split_chunks_sep_free(s.skip(1), sep);
        lemma_split_first_prefix(s.skip(1), sep);
        let r = split_on(s.skip(1), sep);
        let e0 = seq![s[0]] + r[0];
        assert(sep_free(e0, sep)) by {
            if contains_seq(e0, sep) {
                let i = choose|i: int|
                    0 <= i && i + sep.len() <= e0.len() && #[trigger] e0.subrange(i, i + sep.len()) == sep;
                if i == 0 {
                    // an occurrence at the front of the prefix is one at the
                    // front of `s`, which the scan would have consumed
                    assert(e0 =~= s.subrange(0, e0.len() as int));
                    assert(s.subrange(0, sep.len() as int) =~= e0.subrange(0, sep.len() as int));
                } else {
                    // an occurrence past the front lies inside the first
                    // chunk of the tail, which is separator-free
                    assert(r[0].subrange(i - 1, i - 1 + sep.len()) =~= e0.subrange(
                        i,
                        i + sep.len(),
                    ));
                    lemma_contains_at(r[0], sep, i - 1);
                }
            }
        }
        assert forall|i: int| 0 <= i < split_on(s, sep).len() implies sep_free(
            #[trigger] split_on(s, sep)[i],
            sep,
        ) by {
            if i == 0 {
                assert(split_on(s, sep)[0] == e0);
            } else {
                assert(split_on(s, sep)[i] == r.skip(1)[i - 1]);
                assert(r.skip(1)[i - 1] == r[i]);
            }
        }
    }
}

/// Dropping characters from the front keeps a string separator-free.
pub proof fn lemma_sep_free_skip(s: Seq<char>, sep: Seq<char>, k: int)
    requires
        sep_free(s, sep),
        0 <= k <= s.len(),
    ensures
        sep_free(s.skip(k), sep),
{
    if contains_seq(s.skip(k), sep) {
        let i = choose|i: int|
            0 <= i && i + sep.len() <= s.skip(k).len() && #[trigger] s.skip(k).subrange(
                i,
                i + sep.len(),
            ) == sep;
        assert(s.subrange(k + i, k + i + sep.len() as int) =~= s.skip(k).subrange(
            i,
            i + sep.len(),
        ));
        lemma_contains_at(s, sep, k + i);
    }
}

/// Chunks of a split are substrings, so they stay free of any other
/// separator the whole string is free of.
pub proof fn lemma_split_chunks_inherit_free(s: Seq<char>, sep: Seq<char>, other: Seq<char>)
    requires
        sep.len() > 0,
        sep_free(s, other),
    ensures
        forall|i: int|
            0 <= i < split_on(s, sep).len() ==> sep_free(#[trigger] split_on(s, sep)[i], other),
    decreases s.len(),
{
    if s.len() >= sep.len() && s.subrange(0, sep.len() as int) == sep {
        lemma_sep_free_skip(s, other, sep.len() as int);
        lemma_split_chunks_inherit_free(s.skip(sep.len() as int), sep, other);
        let r = split_on(s.skip(sep.len() as int), sep);
        assert(sep_free(Seq::<char>::empty(), other)) by {
            if contains_seq(Seq::<char>::empty(), other) {
                let i = choose|i: int|
                    0 <= i && i + other.len() <= Seq::<char>::empty().len()
                        && #[trigger] Seq::<char>::empty().subrange(i, i + other.len()) == other;
                assert(Seq::<char>::empty().subrange(i, i + other.len()) =~= s.subrange(i, i
                    + other.len()));
                lemma_contains_at(s, other, i);
            }
        }
        assert forall|i: int| 0 <= i < split_on(s, sep).len() implies sep_free(
            #[trigger] split_on(s, sep)[i],
            other,
        ) by {
            if i >= 1 {
                assert(split_on(s, sep)[i] == r[i - 1]);
            }
        }
    } else if s.len() == 0 {
        assert forall|i: int| 0 <= i < split_on(s, sep).len() implies sep_free(
            #[trigger] split_on(s, sep)[i],
            other,
        ) by {
            assert(split_on(s, sep)[i] == s);
        }
    } else {
        lemma_sep_free_skip(s, other, 1);
        lemma_split_chunks_inherit_free(s.skip(1), sep, other);
        lemma_split_first_prefix(s.skip(1), sep);
        let r = split_on(s.skip(1), sep);
        let e0 = seq![s[0]] + r[0];
        assert(sep_free(e0, other)) by {
            if contains_seq(e0, other) {
                let i = choose|i: int|
                    0 <= i && i + other.len() <= e0.len() && #[trigger] e0.subrange(
                        i,
                        i + other.len(),
                    ) == other;
                assert(e0 =~= s.subrange(0, e0.len() as int));
                assert(s.subrange(i, i + other.len() as int) =~= e0.subrange(i, i + other.len()));
                lemma_contains_at(s, other, i);
            }
        }
        assert forall|i: int| 0 <= i < split_on(s, sep).len() implies sep_free(
            #[trigger] split_on(s, sep)[i],
            other,
        ) by {
            if i == 0 {
                assert(split_on(s, sep)[0] == e0);
            } else {
                assert(split_on(s, sep)[i] == r.skip(1)[i - 1]);
                assert(r.skip(1)[i - 1] == r[i]);
            }
        }
    }
}

/// Dropping the first character keeps a string separator-free.
proof fn lemma_sep_free_skip1(s: Seq<char>, sep: Seq<char>)
    requires
        sep_free(s, sep),
        s.len() >= 1,
    ensures
        sep_free(s.skip(1), sep),
{
    if contains_seq(s.skip(1), sep) {
        let i = choose|i: int|
            0 <= i && i + sep.len() <= s.skip(1).len() && #[trigger] s.skip(1).subrange(
                i,
                i + sep.len(),
            ) == sep;
        assert(s.subrange(i + 1, i + 1 + sep.len() as int) =~= s.skip(1).subrange(
            i,
            i + sep.len(),
        ));
    }
}

/// Splitting after prepending one separator-free chunk and a separator
/// peels off exactly that chunk.
proof fn lemma_split_peel(p: Seq<char>, t: Seq<char>, sep: Seq<char>)
    requires
        good_sep(sep),
        sep_free(p, sep),
    ensures
        split_on(p + sep + t, sep) == seq![p] + split_on(t, sep),
    decreases p.len(),
{
    let s = p + sep + t;
    if p.len() == 0 {
        assert(p =~= Seq::<char>::empty());
        assert(s.subrange(0, sep.len() as int) =~= sep);
        assert(s.skip(sep.len() as int) =~= t);
        assert(split_on(s, sep) == seq![Seq::<char>::empty()] + split_on(
            s.skip(sep.len() as int),
            sep,
        ));
        assert(seq![Seq::<char>::empty()] == seq![p]);
    } else {
        // `s` cannot begin with the separator
        if s.len() >= sep.len() && s.subrange(0, sep.len() as int) == sep {
            if sep.len() == 1 {
                assert(p.subrange(0, 0 + sep.len() as int) =~= s.subrange(0, sep.len() as int));
                lemma_contains_at(p, sep, 0);
            } else {
                if p.len() >= 2 {
                    assert(p.subrange(0, 0 + sep.len() as int) =~= s.subrange(
                        0,
                        sep.len() as int,
                    ));
                    lemma_contains_at(p, sep, 0);
                } else {
                    // the occurrence would straddle the boundary, forcing
                    // the separator's two characters to coincide
                    assert(s[1] == sep[0]);
                    assert(sep[1] == s.subrange(0, 2)[1]);
                }
            }
            assert(false);
        }
        lemma_sep_free_skip1(p, sep);
        lemma_split_peel(p.skip(1), t, sep);
        assert(s.skip(1) =~= p.skip(1) + sep + t);
        let r = split_on(s.skip(1), sep);
        assert(r == seq![p.skip(1)] + split_on(t, sep));
        lemma_split_nonempty(t, sep);
        assert(r[0] == p.skip(1));
        assert(r.skip(1) =~= split_on(t, sep));
        assert(seq![s[0]] + r[0] =~= p);
        assert(split_on(s, sep) == seq![seq![s[0]] + r[0]] + r.skip(1));
        assert(seq![seq![s[0]] + r[0]] == seq![p]);
    }
}

/// Joining separator-free chunks and splitting again returns the chunks.
pub proof fn lemma_split_of_join(parts: Seq<Seq<char>>, sep: Seq<char>)
    requires
        good_sep(sep),
        parts.len() >= 1,
        forall|i: int| 0 <= i < parts.len() ==> sep_free(#[trigger] parts[i], sep),
    ensures
        split_on(join_with(parts, sep), sep) == parts,
    decreases parts.len(),
{
    if parts.len() == 1 {
        lemma_sep_free_single(parts[0], sep);
        assert(split_on(join_with(parts, sep), sep) =~= parts);
    } else {
        lemma_split_of_join(parts.skip(1), sep);
        lemma_split_peel(parts[0], join_with(parts.skip(1), sep), sep);
        assert(seq![parts[0]] + parts.skip(1) =~= parts);
    }
}

/// A string in which the separator's first character never occurs is
/// separator-free.
pub proof fn lemma_sep_free_no_first(s: Seq<char>, sep: Seq<char>)
    requires
        sep.len() >= 1,
        forall|i: int| 0 <= i < s.len() ==> s[i] != sep[0],
    ensures
        sep_free(s, sep),
{
    if contains_seq(s, sep) {
        let i = choose|i: int|
            0 <= i && i + sep.len() <= s.len() && #[trigger] s.subrange(i, i + sep.len()) == sep;
        assert(s.subrange(i, i + sep.len())[0] == s[i]);
    }
}

/// A string too short for the separator, or of its length but starting
/// otherwise, is separator-free.
pub proof fn lemma_short_sep_free(s: Seq<char>, sep: Seq<char>)
    requires
        sep.len() == 2,
        s.len() < 2 || (s.len() == 2 && s[0] != sep[0]),
    ensures
        sep_free(s, sep),
{
    if contains_seq(s, sep) {
        let i = choose|i: int|
            0 <= i && i + sep.len() <= s.len() && #[trigger] s.subrange(i, i + sep.len()) == sep;
        assert(s.subrange(i, i + sep.len())[0] == s[i]);
    }
}

/// Concatenation keeps freedom of a two-character separator when the
/// boundary cannot form it.
pub proof fn lemma_sep_free_concat2(a: Seq<char>, b: Seq<char>, sep: Seq<char>)
    requires
        sep.len() == 2,
        sep_free(a, sep),
        sep_free(b, sep),
        a.len() > 0 && b.len() > 0 ==> !(a.last() == sep[0] && b[0] == sep[1]),
    ensures
        sep_free(a + b, sep),
{
    let s = a + b;
    if contains_seq(s, sep) {
        let i = choose|i: int|
            0 <= i && i + sep.len() <= s.len() && #[trigger] s.subrange(i, i + sep.len()) == sep;
        assert(s.subrange(i, i + sep.len())[0] == s[i]);
        assert(s.subrange(i, i + sep.len())[1] == s[i + 1]);
        if i + 2 <= a.len() {
            assert(a.subrange(i, i + sep.len() as int) =~= s.subrange(i, i + sep.len()));
            lemma_contains_at(a, sep, i);
        } else if i >= a.len() {
            assert(b.subrange(i - a.len(), i - a.len() + sep.len() as int) =~= s.subrange(
                i,
                i + sep.len(),
            ));
            lemma_contains_at(b, sep, i - a.len());
        } else {
            assert(s[i] == a.last() && s[i + 1] == b[0]);
        }
    }
}

/// The two-character line terminator of the message grammar.
pub open spec fn crlf() -> Seq<char> {
    seq!['\r', '\n']
}

/// The single-space separator of a start line.
pub open spec fn sp() -> Seq<char> {
    seq![' ']
}

/// The views of a sequence of strings.
pub open spec fn views_of(v: Seq<String>) -> Seq<Seq<char>> {
    v.map_values(|x: String| x@)
}

/// All chunks concatenated, in order, with nothing between them.
pub open spec fn concat_all(ls: Seq<Seq<char>>) -> Seq<char>
    decreases ls.len(),
{
    if ls.len() == 0 {
        Seq::empty()
    } else {
        ls[0] + concat_all(ls.skip(1))
    }
}

pub proof fn lemma_concat_all_push(ls: Seq<Seq<char>>, x: Seq<char>)
    ensures
        concat_all(ls.push(x)) == concat_all(ls) + x,
    decreases ls.len(),
{
    reveal_with_fuel(concat_all, 2);
    if ls.len() == 0 {
        assert(ls.push(x).skip(1) =~= Seq::<Seq<char>>::empty());
        assert(x + Seq::<char>::empty() =~= x);
        assert(Seq::<char>::empty() + x =~= x);
        assert(concat_all(ls.push(x)) =~= concat_all(ls) + x);
    } else {
        lemma_concat_all_push(ls.skip(1), x);
        assert(ls.push(x).skip(1) =~= ls.skip(1).push(x));
        assert(ls[0] + (concat_all(ls.skip(1)) + x) =~= (ls[0] + concat_all(ls.skip(1))) + x);
    }
}

pub proof fn lemma_concat_all_single(x: Seq<char>)
    ensures
        concat_all(seq![x]) == x,
{
    reveal_with_fuel(concat_all, 2);
    assert(seq![x].skip(1) =~= Seq::<Seq<char>>::empty());
    assert(x + Seq::<char>::empty() =~= x);
    assert(concat_all(seq![x]) =~= x);
}

/// The chunk under construction, prepended to the first chunk of what the
/// rest of the string still splits into.
spec fn prepend_first(p: Seq<char>, ls: Seq<Seq<char>>) -> Seq<Seq<char>> {
    seq![p + ls[0]] + ls.skip(1)
}

/// Splits `s` on the one- or two-character separator `sep`, scanning left
/// to right, as `split_on` describes.
pub fn split_str(s: &str, sep: &Vec<char>) -> (r: Vec<String>)
    requires
        1 <= sep@.len() <= 2,
    ensures
        views_of(r@) == split_on(s@, sep@),
{
    let n = s.unicode_len();
    let k = sep.len();
    let mut acc: Vec<String> = Vec::new();
    let mut start: usize = 0;
    let mut i: usize = 0;
    proof {
        lemma_split_nonempty(s@.skip(0), sep@);
        assert(s@.skip(0) =~= s@);
        assert(s@.subrange(0, 0) =~= Seq::<char>::empty());
        assert(views_of(acc@) =~= Seq::<Seq<char>>::empty());
        assert(Seq::<char>::empty() + split_on(s@, sep@)[0] =~= split_on(s@, sep@)[0]);
        assert(prepend_first(Seq::<char>::empty(), split_on(s@, sep@)) =~= split_on(s@, sep@));
    }
    while i < n
        invariant
            start <= i <= n,
            n == s@.len(),
            1 <= k <= 2,
            k == sep@.len(),
            split_on(s@, sep@) == views_of(acc@) + prepend_first(
                s@.subrange(start as int, i as int),
                split_on(s@.skip(i as int), sep@),
            ),
        decreases n - i,
    {
        let ghost sp = sep@;
        let ghost tail = s@.skip(i as int);
        let matched: bool = if k == 1 {
            s.get_char(i) == sep[0]
        } else {
            i + 1 < n && s.get_char(i) == sep[0] && s.get_char(i + 1) == sep[1]
        };
        proof {
            assert(tail.len() == n - i);
            if matched {
                assert(tail.subrange(0, k as int) =~= sp);
            } else {
                if tail.len() >= k && tail.subrange(0, k as int) == sp {
                    assert(tail.subrange(0, k as int)[0] == s@[i as int]);
                    if k == 2 {
                        assert(tail.subrange(0, k as int)[1] == s@[i as int + 1]);
                    }
                    assert(false);
                }
            }
        }
        if matched {
            let chunk = s.substring_char(start, i).to_owned();
            proof {
                let cur = s@.subrange(start as int, i as int);
                let x = split_on(s@.skip(i as int + k as int), sp);
                lemma_split_nonempty(x[0] + Seq::<char>::empty(), sp);
                lemma_split_nonempty(s@.skip(i as int + k as int), sp);
                assert(tail.skip(k as int) =~= s@.skip(i as int + k as int));
                assert(split_on(tail, sp) == seq![Seq::<char>::empty()] + x);
                assert(cur + Seq::<char>::empty() =~= cur);
                assert((seq![Seq::<char>::empty()] + x).skip(1) =~= x);
                assert(prepend_first(cur, split_on(tail, sp)) =~= seq![cur] + x);
                assert(views_of(acc@.push(chunk)) =~= views_of(acc@).push(cur));
                assert(s@.subrange(i as int + k, i as int + k) =~= Seq::<char>::empty());
                assert(Seq::<char>::empty() + x[0] =~= x[0]);
                assert(prepend_first(Seq::<char>::empty(), x) =~= x);
                assert(views_of(acc@.push(chunk)) + x =~= views_of(acc@) + (seq![cur] + x));
            }
            acc.push(chunk);
            i = i + k;
            start = i;
        } else {
            proof {
                let cur = s@.subrange(start as int, i as int);
                let r = split_on(s@.skip(i as int + 1), sp);
                lemma_split_nonempty(s@.skip(i as int + 1), sp);
                assert(tail.skip(1) =~= s@.skip(i as int + 1));
                assert(split_on(tail, sp) == seq![seq![tail[0]] + r[0]] + r.skip(1));
                assert(cur + (seq![tail[0]] + r[0]) =~= s@.subrange(start as int, i as int + 1)
                    + r[0]);
                assert((seq![seq![tail[0]] + r[0]] + r.skip(1)).skip(1) =~= r.skip(1));
                assert(prepend_first(cur, split_on(tail, sp)) =~= prepend_first(
                    s@.subrange(start as int, i as int + 1),
                    r,
                ));
            }
            i = i + 1;
        }
    }
    let last = s.substring_char(start, n).to_owned();
    proof {
        let cur = s@.subrange(start as int, n as int);
        assert(s@.skip(n as int) =~= Seq::<char>::empty());
        assert(split_on(Seq::<char>::empty(), sep@) == seq![Seq::<char>::empty()]);
        assert(cur + Seq::<char>::empty() =~= cur);
        assert(seq![Seq::<char>::empty()].skip(1) =~= Seq::<Seq<char>>::empty());
        assert(prepend_first(cur, seq![Seq::<char>::empty()]) =~= seq![cur]);
        assert(views_of(acc@.push(last)) =~= views_of(acc@).push(cur));
        assert(views_of(acc@) + seq![cur] =~= views_of(acc@).push(cur));
    }
    acc.push(last);
    acc
}

/// Character-for-character string equality.
pub fn str_eq_str(a: &str, b: &str) -> (r: bool)
    ensures
        r == (a@ == b@),
{
    let na = a.unicode_len();
    let nb = b.unicode_len();
    if na != nb {
        return false;
    }
    let mut i: usize = 0;
    while i < na
        invariant
            0 <= i <= na,
            na == a@.len(),
            na == b@.len(),
            forall|j: int| 0 <= j < i ==> a@[j] == b@[j],
        decreases na - i,
    {
        if a.get_char(i) != b.get_char(i) {
            return false;
        }
        i = i + 1;
    }
    proof {
        assert(a@ =~= b@);
    }
    true
}

} // verus!
