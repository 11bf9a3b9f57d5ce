//! The header block: `key: value` lines between the start line and the
//! blank-line terminator, collected into an unordered map in which a
//! later occurrence of a key overwrites an earlier one.

use vstd::prelude::*;
use crate::error::{ParseError, ParseErrorV};
use crate::strutil::{crlf, join_with, sep_free, split_on, split_str, str_eq_str, views_of};

verus! {

/// The two-character separator between a header key and its value.
pub open spec fn colsp() -> Seq<char> {
    seq![':', ' ']
}

/// The map built by inserting each key/value pair in order: a later
/// pair overwrites an earlier one with the same key.
pub open spec fn pairs_map(ps: Seq<(Seq<char>, Seq<char>)>) -> Map<Seq<char>, Seq<char>>
    decreases ps.len(),
{
    if ps.len() == 0 {
        Map::empty()
    } else {
        pairs_map(ps.drop_last()).insert(ps.last().0, ps.last().1)
    }
}

pub proof fn lemma_pairs_map_push(ps: Seq<(Seq<char>, Seq<char>)>, k: Seq<char>, v: Seq<char>)
    ensures
        pairs_map(ps.push((k, v))) == pairs_map(ps).insert(k, v),
{
    assert(ps.push((k, v)).drop_last() =~= ps);
}

/// The header-block grammar from line `i` on, with the pairs read so
/// far in `acc`: lines are consumed until a blank line (consumed and
/// discarded) or the end of input; each consumed line must split on
/// `": "` into a key and a value, and a line with no value part fails,
/// naming the key found before the separator.  Yields the final map and
/// the index of the first line after the block.
pub open spec fn header_block(
    lines: Seq<Seq<char>>,
    i: int,
    acc: Map<Seq<char>, Seq<char>>,
) -> Result<(Map<Seq<char>, Seq<char>>, int), ParseErrorV>
    decreases lines.len() - i,
{
    if i < 0 || i >= lines.len() {
        Ok((acc, i))
    } else if lines[i].len() == 0 {
        Ok((acc, i + 1))
    } else {
        let toks = split_on(lines[i], colsp());
        if toks.len() < 2 {
            Err(ParseErrorV::MissingHeaderValue(toks[0]))
        } else {
            header_block(lines, i + 1, acc.insert(toks[0], toks[1]))
        }
    }
}

/// The wire form of one header pair, without its terminator.
pub open spec fn header_line_str(p: (Seq<char>, Seq<char>)) -> Seq<char> {
    p.0 + colsp() + p.1
}

/// The wire form of a run of header pairs, each line followed by the
/// terminator.
pub open spec fn headers_block_str(ps: Seq<(Seq<char>, Seq<char>)>) -> Seq<char>
    decreases ps.len(),
{
    if ps.len() == 0 {
        Seq::empty()
    } else {
        header_line_str(ps[0]) + crlf() + headers_block_str(ps.skip(1))
    }
}

pub proof fn lemma_headers_block_str_push(ps: Seq<(Seq<char>, Seq<char>)>, p: (Seq<char>, Seq<char>))
    ensures
        headers_block_str(ps.push(p)) == headers_block_str(ps) + header_line_str(p) + crlf(),
    decreases ps.len(),
{
    reveal_with_fuel(headers_block_str, 2);
    if ps.len() == 0 {
        assert(ps.push(p).skip(1) =~= Seq::<(Seq<char>, Seq<char>)>::empty());
        assert(header_line_str(p) + crlf() + Seq::<char>::empty() =~= header_line_str(p)
            + crlf());
        assert(Seq::<char>::empty() + header_line_str(p) + crlf() =~= header_line_str(p)
            + crlf());
    } else {
        lemma_headers_block_str_push(ps.skip(1), p);
        assert(ps.push(p).skip(1) =~= ps.skip(1).push(p));
        assert(header_line_str(ps[0]) + crlf() + (headers_block_str(ps.skip(1)) + header_line_str(
            p,
        ) + crlf()) =~= (header_line_str(ps[0]) + crlf() + headers_block_str(ps.skip(1)))
            + header_line_str(p) + crlf());
    }
}

/// The pairs inserted into `acc` in order, first to last.
pub open spec fn insert_all(
    acc: Map<Seq<char>, Seq<char>>,
    ps: Seq<(Seq<char>, Seq<char>)>,
) -> Map<Seq<char>, Seq<char>>
    decreases ps.len(),
{
    if ps.len() == 0 {
        acc
    } else {
        insert_all(acc.insert(ps[0].0, ps[0].1), ps.skip(1))
    }
}

proof fn lemma_insert_all_push(
    acc: Map<Seq<char>, Seq<char>>,
    ps: Seq<(Seq<char>, Seq<char>)>,
    p: (Seq<char>, Seq<char>),
)
    ensures
        insert_all(acc, ps.push(p)) == insert_all(acc, ps).insert(p.0, p.1),
    decreases ps.len(),
{
    reveal_with_fuel(insert_all, 2);
    if ps.len() == 0 {
        assert(ps.push(p).skip(1) =~= Seq::<(Seq<char>, Seq<char>)>::empty());
    } else {
        lemma_insert_all_push(acc.insert(ps[0].0, ps[0].1), ps.skip(1), p);
        assert(ps.push(p).skip(1) =~= ps.skip(1).push(p));
    }
}

/// Inserting the pairs in order builds exactly the header map.
pub proof fn lemma_insert_all_is_pairs_map(ps: Seq<(Seq<char>, Seq<char>)>)
    ensures
        insert_all(Map::empty(), ps) == pairs_map(ps),
    decreases ps.len(),
{
    if ps.len() == 0 {
    } else {
        lemma_insert_all_is_pairs_map(ps.drop_last());
        lemma_insert_all_push(Map::empty(), ps.drop_last(), ps.last());
        assert(ps.drop_last().push(ps.last()) =~= ps);
    }
}

/// The header map is empty exactly when there are no pairs.
pub proof fn lemma_pairs_map_empty(ps: Seq<(Seq<char>, Seq<char>)>)
    ensures
        (pairs_map(ps) == Map::<Seq<char>, Seq<char>>::empty()) == (ps.len() == 0),
{
    if ps.len() > 0 {
        assert(pairs_map(ps).contains_key(ps.last().0));
    }
}

/// A well-formed header pair: key and value free of the key/value
/// separator and of the line terminator.
pub open spec fn wf_pair(p: (Seq<char>, Seq<char>)) -> bool {
    sep_free(p.0, colsp()) && sep_free(p.0, crlf()) && sep_free(p.1, colsp()) && sep_free(
        p.1,
        crlf(),
    )
}

pub open spec fn wf_header_pairs(ps: Seq<(Seq<char>, Seq<char>)>) -> bool {
    forall|i: int| 0 <= i < ps.len() ==> wf_pair(#[trigger] ps[i])
}

/// A well-formed header line splits back into its key and value.
pub proof fn lemma_split_header_line(p: (Seq<char>, Seq<char>))
    requires
        wf_pair(p),
    ensures
        split_on(header_line_str(p), colsp()) == seq![p.0, p.1],
{
    let parts = seq![p.0, p.1];
    reveal_with_fuel(join_with, 2);
    assert(parts.skip(1) =~= seq![p.1]);
    assert(join_with(parts, colsp()) == p.0 + colsp() + p.1);
    crate::strutil::lemma_split_of_join(parts, colsp());
}

/// A run of well-formed header lines followed by a blank line reads as
/// the header block that inserts those pairs in order and stops after
/// the blank line.
pub proof fn lemma_header_block_encoded(
    lines: Seq<Seq<char>>,
    i: int,
    ps: Seq<(Seq<char>, Seq<char>)>,
    acc: Map<Seq<char>, Seq<char>>,
)
    requires
        0 <= i,
        i + ps.len() < lines.len(),
        forall|j: int| 0 <= j < ps.len() ==> lines[i + j] == header_line_str(#[trigger] ps[j]),
        wf_header_pairs(ps),
        lines[i + ps.len()].len() == 0,
    ensures
        header_block(lines, i, acc) == Ok::<_, ParseErrorV>((
            insert_all(acc, ps),
            i + ps.len() + 1,
        )),
    decreases ps.len(),
{
    if ps.len() == 0 {
    } else {
        assert(lines[i] == header_line_str(ps[0]));
        assert(wf_pair(ps[0]));
        lemma_split_header_line(ps[0]);
        assert(lines[i].len() == ps[0].0.len() + 2 + ps[0].1.len());
        assert forall|j: int| 0 <= j < ps.skip(1).len() implies lines[i + 1 + j]
            == header_line_str(#[trigger] ps.skip(1)[j]) by {
            assert(ps.skip(1)[j] == ps[j + 1]);
        }
        assert(wf_header_pairs(ps.skip(1))) by {
            assert forall|j: int| 0 <= j < ps.skip(1).len() implies wf_pair(
                #[trigger] ps.skip(1)[j],
            ) by {
                assert(ps.skip(1)[j] == ps[j + 1]);
            }
        }
        lemma_header_block_encoded(lines, i + 1, ps.skip(1), acc.insert(ps[0].0, ps[0].1));
    }
}

/// An immutable header collection, modelled as a map from key to value.
#[derive(Debug, Clone)]
pub struct HTTPHeaders {
    pairs: Vec<(String, String)>,
}

impl HTTPHeaders {
    /// The pairs as read, in order, as character sequences.
    pub closed spec fn pairs_view(&self) -> Seq<(Seq<char>, Seq<char>)> {
        self.pairs@.map_values(|p: (String, String)| (p.0@, p.1@))
    }
}

impl View for HTTPHeaders {
    type V = Map<Seq<char>, Seq<char>>;

    open spec fn view(&self) -> Map<Seq<char>, Seq<char>> {
        pairs_map(self.pairs_view())
    }
}

/// Keys absent from a suffix of the pairs do not affect the map there.
proof fn lemma_pairs_map_unread_suffix(ps: Seq<(Seq<char>, Seq<char>)>, j: int, k: Seq<char>)
    requires
        0 <= j <= ps.len(),
        forall|l: int| j <= l < ps.len() ==> (#[trigger] ps[l]).0 != k,
    ensures
        pairs_map(ps).contains_key(k) == pairs_map(ps.subrange(0, j)).contains_key(k),
        pairs_map(ps).contains_key(k) ==> pairs_map(ps)[k] == pairs_map(ps.subrange(0, j))[k],
    decreases ps.len() - j,
{
    if j == ps.len() {
        assert(ps.subrange(0, j) =~= ps);
    } else {
        let shorter = ps.drop_last();
        assert(ps.last().0 != k);
        lemma_pairs_map_unread_suffix(shorter, j, k);
        assert(shorter.subrange(0, j) =~= ps.subrange(0, j));
    }
}

impl HTTPHeaders {
    /// Consumes header lines from `lines` starting at index `start`,
    /// exactly as `header_block` describes, returning the collection
    /// and the index of the first line after the block.
    pub fn new(lines: &Vec<String>, start: usize) -> (r: Result<(HTTPHeaders, usize), ParseError>)
        requires
            start <= lines@.len(),
        ensures
            match r {
                Ok(p) => header_block(views_of(lines@), start as int, Map::empty()) == Ok::<
                    _,
                    ParseErrorV,
                >((p.0@, p.1 as int)) && p.1 <= lines@.len() && ((forall|j: int|
                    0 <= j < lines@.len() ==> sep_free(
                        #[trigger] views_of(lines@)[j],
                        crlf(),
                    )) ==> wf_header_pairs(p.0.pairs_view())),
                Err(e) => header_block(views_of(lines@), start as int, Map::empty()) == Err::<
                    (Map<Seq<char>, Seq<char>>, int),
                    _,
                >(e@),
            },
    {
        let ghost lv = views_of(lines@);
        let mut sep: Vec<char> = Vec::new();
        sep.push(':');
        sep.push(' ');
        proof {
            assert(sep@ =~= colsp());
        }
        let mut hs = HTTPHeaders { pairs: Vec::new() };
        let mut i: usize = start;
        proof {
            assert(hs.pairs_view() =~= Seq::<(Seq<char>, Seq<char>)>::empty());
        }
        while i < lines.len()
            invariant
                start <= i <= lines@.len(),
                lv == views_of(lines@),
                sep@ == colsp(),
                header_block(lv, start as int, Map::empty()) == header_block(lv, i as int, hs@),
                (forall|j: int| 0 <= j < lv.len() ==> sep_free(#[trigger] lv[j], crlf()))
                    ==> wf_header_pairs(hs.pairs_view()),
            decreases lines@.len() - i,
        {
            let line = &lines[i];
            proof {
                assert(line@ == lv[i as int]);
            }
            if line.as_str().unicode_len() == 0 {
                proof {
                    assert(header_block(lv, i as int, hs@) == Ok::<_, ParseErrorV>((
                        hs@,
                        i + 1 as int,
                    )));
                }
                return Ok((hs, i + 1));
            }
            let toks = split_str(line.as_str(), &sep);
            proof {
                crate::strutil::lemma_split_nonempty(line@, colsp());
                assert(views_of(toks@)[0] == split_on(line@, colsp())[0]);
            }
            if toks.len() < 2 {
                let k = toks[0].clone();
                return Err(ParseError::MissingHeaderValue(k));
            }
            proof {
                assert(views_of(toks@)[1] == split_on(line@, colsp())[1]);
            }
            let k = toks[0].clone();
            let v = toks[1].clone();
            let ghost old_pairs = hs.pairs_view();
            hs.pairs.push((k, v));
            proof {
                assert(hs.pairs_view() =~= old_pairs.push((
                    split_on(line@, colsp())[0],
                    split_on(line@, colsp())[1],
                )));
                lemma_pairs_map_push(
                    old_pairs,
                    split_on(line@, colsp())[0],
                    split_on(line@, colsp())[1],
                );
                if forall|j: int| 0 <= j < lv.len() ==> sep_free(#[trigger] lv[j], crlf()) {
                    assert(sep_free(lv[i as int], crlf()));
                    crate::strutil::lemma_split_chunks_sep_free(line@, colsp());
                    crate::strutil::lemma_split_chunks_inherit_free(line@, colsp(), crlf());
                    let p = (split_on(line@, colsp())[0], split_on(line@, colsp())[1]);
                    assert(wf_pair(p));
                    assert forall|j: int| 0 <= j < hs.pairs_view().len() implies wf_pair(
                        #[trigger] hs.pairs_view()[j],
                    ) by {
                        if j < old_pairs.len() {
                            assert(hs.pairs_view()[j] == old_pairs[j]);
                        } else {
                            assert(hs.pairs_view()[j] == p);
                        }
                    }
                }
            }
            i = i + 1;
        }
        Ok((hs, i))
    }

    /// Looks a key up: the value of the last header line with that key,
    /// if any line had it.
    pub fn get(&self, key: &str) -> (r: Option<&String>)
        ensures
            match r {
                Some(v) => self@.contains_key(key@) && v@ == self@[key@],
                None => !self@.contains_key(key@),
            },
    {
        let ghost ps = self.pairs_view();
        let mut j: usize = self.pairs.len();
        while j > 0
            invariant
                0 <= j <= self.pairs@.len(),
                ps == self.pairs_view(),
                forall|l: int| j <= l < ps.len() ==> (#[trigger] ps[l]).0 != key@,
            decreases j,
        {
            j = j - 1;
            if str_eq_str(self.pairs[j].0.as_str(), key) {
                proof {
                    lemma_pairs_map_unread_suffix(ps, j + 1, key@);
                    let front = ps.subrange(0, j + 1);
                    assert(front.drop_last() =~= ps.subrange(0, j as int));
                    assert(front.last() == ps[j as int]);
                    assert(pairs_map(front).contains_key(key@));
                    assert(pairs_map(front)[key@] == ps[j as int].1);
                }
                return Some(&self.pairs[j].1);
            }
            proof {
                assert(ps[j as int].0 != key@);
            }
        }
        proof {
            lemma_pairs_map_unread_suffix(ps, 0, key@);
            assert(ps.subrange(0, 0) =~= Seq::<(Seq<char>, Seq<char>)>::empty());
        }
        None
    }

    /// The wire form of the collection, as `headers_block_str`
    /// describes: each pair's line followed by the terminator, in the
    /// order the lines were read.
    pub fn encode(&self) -> (r: String)
        ensures
            r@ == headers_block_str(self.pairs_view()),
    {
        let ghost pv = self.pairs_view();
        let mut out = String::new();
        let mut i: usize = 0;
        proof {
            assert(pv.take(0) =~= Seq::<(Seq<char>, Seq<char>)>::empty());
        }
        while i < self.pairs.len()
            invariant
                0 <= i <= self.pairs@.len(),
                pv == self.pairs_view(),
                out@ == headers_block_str(pv.take(i as int)),
            decreases self.pairs@.len() - i,
        {
            out.append(self.pairs[i].0.as_str());
            out.append(": ");
            out.append(self.pairs[i].1.as_str());
            out.append("\r\n");
            proof {
                reveal_strlit(": ");
                reveal_strlit("\r\n");
                assert(": "@ =~= colsp());
                assert("\r\n"@ =~= crlf());
                lemma_headers_block_str_push(pv.take(i as int), pv[i as int]);
                assert(pv.take(i as int).push(pv[i as int]) =~= pv.take(i as int + 1));
                assert(out@ =~= headers_block_str(pv.take(i as int + 1)));
            }
            i = i + 1;
        }
        proof {
            assert(pv.take(self.pairs@.len() as int) =~= pv);
        }
        out
    }

    /// Whether the collection holds no header at all.
    pub fn is_empty(&self) -> (r: bool)
        ensures
            r == (self@ == Map::<Seq<char>, Seq<char>>::empty()),
    {
        if self.pairs.len() == 0 {
            proof {
                assert(self.pairs_view() =~= Seq::<(Seq<char>, Seq<char>)>::empty());
            }
            true
        } else {
            proof {
                let ps = self.pairs_view();
                assert(pairs_map(ps).contains_key(ps.last().0));
            }
            false
        }
    }
}

} // verus!
