//! Full-text search queries: which words of a query are also matched
//! approximately, and how many hits are asked for.

use vstd::prelude::*;
use crate::model::texts;
use crate::text::{chars_of, is_white_space, lowercase, lowercase_of, string_from, trim, trim_spec, whitespace};
use crate::transform::first_n;

verus! {

/// The words of `s` after the word `cur` begun so far: the maximal runs of
/// characters that are not white space.
pub open spec fn words_from(s: Seq<char>, cur: Seq<char>) -> Seq<Seq<char>>
    decreases s.len(),
{
    if s.len() == 0 {
        if cur.len() > 0 { seq![cur] } else { seq![] }
    } else if is_white_space(s[0]) {
        (if cur.len() > 0 { seq![cur] } else { seq![] }) + words_from(s.drop_first(), seq![])
    } else {
        words_from(s.drop_first(), cur.push(s[0]))
    }
}

/// The words of `s`, as `str::split_whitespace` gives them.
pub open spec fn words(s: Seq<char>) -> Seq<Seq<char>> {
    words_from(s, seq![])
}

/// The words of `s`.
pub fn split_words(s: &str) -> (r: Vec<String>)
    ensures
        texts(r@) == words(s@),
{
    let cs = chars_of(s);
    let mut out: Vec<String> = Vec::new();
    let mut cur: Vec<char> = Vec::new();
    let mut i: usize = 0;
    assert(cs@.skip(0) =~= cs@);
    while i < cs.len()
        invariant
            cs@ == s@,
            i <= cs.len(),
            words(s@) == texts(out@) + words_from(cs@.skip(i as int), cur@),
        decreases cs.len() - i,
    {
        let c = cs[i];
        let ghost rest = cs@.skip(i as int);
        assert(rest[0] == c);
        assert(rest.drop_first() =~= cs@.skip(i + 1));
        if whitespace(c) {
            let ghost before = texts(out@);
            if cur.len() > 0 {
                out.push(string_from(cur.as_slice()));
                assert(texts(out@) =~= before + seq![cur@]);
            } else {
                assert(before + Seq::<Seq<char>>::empty() =~= before);
            }
            assert(before + ((if cur@.len() > 0 { seq![cur@] } else { seq![] }) + words_from(cs@.skip(i + 1), seq![]))
                =~= (before + (if cur@.len() > 0 { seq![cur@] } else { seq![] })) + words_from(cs@.skip(i + 1), seq![]));
            cur = Vec::new();
            assert(cur@ =~= Seq::<char>::empty());
        } else {
            cur.push(c);
        }
        i = i + 1;
    }
    assert(cs@.skip(i as int).len() == 0);
    if cur.len() > 0 {
        let ghost before = texts(out@);
        out.push(string_from(cur.as_slice()));
        assert(texts(out@) =~= before + seq![cur@]);
    } else {
        assert(texts(out@) + Seq::<Seq<char>>::empty() =~= texts(out@));
    }
    out
}

/// The terms a query is also matched by approximately: its first eight
/// words, lower-cased.
pub open spec fn fuzzy_terms_spec(q: Seq<char>) -> Seq<Seq<char>> {
    first_n(words(q), 8).map_values(|w: Seq<char>| lowercase_of(w))
}

/// The plan of a search for `q` with at most `limit` hits: none for a query
/// of white space alone; else the terms also matched approximately, and
/// the number of hits asked for, held between 1 and 1000.
pub fn search_plan(q: &str, limit: usize) -> (r: Option<(Vec<String>, usize)>)
    ensures
        r is None <==> trim_spec(q@).len() == 0,
        r is Some ==> texts(r->Some_0.0@) == fuzzy_terms_spec(q@)
            && r->Some_0.1 == if limit < 1 { 1 } else if limit > 1000 { 1000 } else { limit },
{
    let t = trim(q);
    if t.as_str().is_empty() {
        return None;
    }
    let ws = split_words(q);
    let n: usize = if ws.len() < 8 { ws.len() } else { 8 };
    let ghost target = fuzzy_terms_spec(q@);
    assert(first_n(words(q@), 8).len() == n);
    let mut terms: Vec<String> = Vec::new();
    let mut i: usize = 0;
    while i < n
        invariant
            texts(ws@) == words(q@),
            n <= ws.len(),
            n == first_n(words(q@), 8).len(),
            target == fuzzy_terms_spec(q@),
            i <= n,
            texts(terms@) == target.take(i as int),
        decreases n - i,
    {
        assert(texts(ws@)[i as int] == ws@[i as int]@);
        assert(first_n(words(q@), 8)[i as int] == words(q@)[i as int]);
        let w = lowercase(ws[i].as_str());
        let ghost before = texts(terms@);
        terms.push(w);
        assert(texts(terms@) =~= before.push(w@));
        assert(target.take(i + 1) =~= target.take(i as int).push(target[i as int]));
        i = i + 1;
    }
    assert(target.take(i as int) =~= target);
    let hits: usize = if limit < 1 { 1 } else if limit > 1000 { 1000 } else { limit };
    Some((terms, hits))
}

} // verus!
