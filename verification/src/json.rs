//! A JSON document as the transforms read it: values held as plain data.

use vstd::prelude::*;
use crate::network::parse_u64;
use crate::network::parse_u64_spec;
use crate::text::{chars_of, replace, replace_spec, same_text, string_from};

verus! {

/// A JSON value. A number keeps the value it has as an `i64`, when it has
/// one (an integer within range); that is all the transforms read of it.
pub enum Json {
    Null,
    Bool(bool),
    Number(Option<i64>),
    String(String),
    Array(Vec<Json>),
    Object(Vec<(String, Json)>),
}

/// The value under the first entry named `key`.
pub open spec fn lookup_in(entries: Seq<(String, Json)>, key: Seq<char>) -> Option<Json>
    decreases entries.len(),
{
    if entries.len() == 0 {
        None
    } else if entries[0].0@ == key {
        Some(entries[0].1)
    } else {
        lookup_in(entries.drop_first(), key)
    }
}

/// The value under `key` of an object, if there is one (keys of a parsed
/// object are unique).
pub open spec fn lookup(v: Json, key: Seq<char>) -> Option<Json> {
    match v {
        Json::Object(entries) => lookup_in(entries@, key),
        _ => None,
    }
}

/// The value under `key` of an object, or `Null` (as indexing a
/// `serde_json::Value` by a string gives it).
pub open spec fn field(v: Json, key: Seq<char>) -> Json {
    match lookup(v, key) {
        Some(x) => x,
        None => Json::Null,
    }
}

/// The items of an array, or none.
pub open spec fn items(v: Json) -> Seq<Json> {
    match v {
        Json::Array(a) => a@,
        _ => Seq::empty(),
    }
}

/// The text of a string value.
pub open spec fn text_of(v: Json) -> Option<Seq<char>> {
    match v {
        Json::String(s) => Some(s@),
        _ => None,
    }
}

impl Json {
    /// The value under `key`, if any.
    pub fn get(&self, key: &str) -> (r: Option<&Json>)
        ensures
            match r {
                Some(x) => lookup(*self, key@) == Some(*x),
                None => lookup(*self, key@) is None,
            },
    {
        match self {
            Json::Object(entries) => {
                let mut i: usize = 0;
                assert(entries@.skip(0) =~= entries@);
                while i < entries.len()
                    invariant
                        i <= entries.len(),
                        *self == Json::Object(*entries),
                        lookup_in(entries@, key@) == lookup_in(entries@.skip(i as int), key@),
                    decreases entries.len() - i,
                {
                    assert(entries@.skip(i as int)[0] == entries@[i as int]);
                    if same_text(entries[i].0.as_str(), key) {
                        return Some(&entries[i].1);
                    }
                    assert(entries@.skip(i as int).drop_first() =~= entries@.skip(i + 1));
                    i = i + 1;
                }
                None
            },
            _ => None,
        }
    }
}

/// The pieces of `s` between occurrences of `c`, the current piece being
/// `cur`, as `str::split` gives them.
pub open spec fn split_from(s: Seq<char>, c: char, cur: Seq<char>) -> Seq<Seq<char>>
    decreases s.len(),
{
    if s.len() == 0 {
        seq![cur]
    } else if s[0] == c {
        seq![cur] + split_from(s.drop_first(), c, Seq::empty())
    } else {
        split_from(s.drop_first(), c, cur.push(s[0]))
    }
}

/// The pieces of `s` between occurrences of `c`.
pub open spec fn split_spec(s: Seq<char>, c: char) -> Seq<Seq<char>> {
    split_from(s, c, Seq::empty())
}

/// A pointer token with `~1` read as `/`, then `~0` as `~`.
pub open spec fn unescape(t: Seq<char>) -> Seq<char> {
    replace_spec(replace_spec(t, "~1"@, "/"@), "~0"@, "~"@)
}

/// An array index as a pointer token: no sign, no leading zero.
pub open spec fn index_token(t: Seq<char>) -> Option<nat> {
    if (t.len() > 0 && t[0] == '+') || (t.len() > 0 && t[0] == '0' && t.len() != 1) {
        None
    } else {
        match parse_u64_spec(t) {
            Some(n) => if n <= usize::MAX { Some(n as nat) } else { None },
            None => None,
        }
    }
}

/// One step of a pointer: a member of an object or an item of an array.
pub open spec fn step(v: Json, token: Seq<char>) -> Option<Json> {
    match v {
        Json::Object(_) => lookup(v, token),
        Json::Array(a) => match index_token(token) {
            Some(i) => if i < a@.len() { Some(a@[i as int]) } else { None },
            None => None,
        },
        _ => None,
    }
}

/// The value that the tokens lead to.
pub open spec fn walk(v: Json, tokens: Seq<Seq<char>>) -> Option<Json>
    decreases tokens.len(),
{
    if tokens.len() == 0 {
        Some(v)
    } else {
        match step(v, tokens[0]) {
            Some(w) => walk(w, tokens.drop_first()),
            None => None,
        }
    }
}

/// The value a JSON pointer (RFC 6901) designates, as
/// `serde_json::Value::pointer` finds it.
pub open spec fn pointer_spec(v: Json, p: Seq<char>) -> Option<Json> {
    if p.len() == 0 {
        Some(v)
    } else if p[0] != '/' {
        None
    } else {
        walk(v, split_spec(p, '/').drop_first().map_values(|t: Seq<char>| unescape(t)))
    }
}

/// The pieces of `s` between occurrences of `c`.
pub fn split_on(s: &str, c: char) -> (r: Vec<String>)
    ensures
        r@.map_values(|t: String| t@) == split_spec(s@, c),
{
    let v = chars_of(s);
    let mut out: Vec<String> = Vec::new();
    let mut cur: Vec<char> = Vec::new();
    let mut i: usize = 0;
    assert(s@.skip(0) =~= s@);
    while i < v.len()
        invariant
            v@ == s@,
            i <= v.len(),
            split_spec(s@, c) == out@.map_values(|t: String| t@) + split_from(s@.skip(i as int), c, cur@),
        decreases v.len() - i,
    {
        assert(s@.skip(i as int)[0] == v@[i as int]);
        assert(s@.skip(i as int).drop_first() =~= s@.skip(i + 1));
        if v[i] == c {
            let piece = string_from(cur.as_slice());
            let ghost before = out@.map_values(|t: String| t@);
            out.push(piece);
            assert(out@.map_values(|t: String| t@) =~= before.push(cur@));
            assert(before + (seq![cur@] + split_from(s@.skip(i + 1), c, Seq::empty()))
                =~= before.push(cur@) + split_from(s@.skip(i + 1), c, Seq::empty()));
            cur = Vec::new();
            assert(cur@ =~= Seq::<char>::empty());
        } else {
            cur.push(v[i]);
        }
        i = i + 1;
    }
    let piece = string_from(cur.as_slice());
    let ghost before = out@.map_values(|t: String| t@);
    out.push(piece);
    assert(out@.map_values(|t: String| t@) =~= before.push(cur@));
    assert(s@.skip(i as int) =~= Seq::<char>::empty());
    assert(before + seq![cur@] =~= before.push(cur@));
    out
}

/// The array index a pointer token designates.
pub fn parse_index(t: &str) -> (r: Option<usize>)
    ensures
        match r {
            Some(i) => index_token(t@) == Some(i as nat),
            None => index_token(t@) is None,
        },
{
    let v = chars_of(t);
    if (v.len() > 0 && v[0] == '+') || (v.len() > 0 && v[0] == '0' && v.len() != 1) {
        return None;
    }
    match parse_u64(t) {
        Some(n) => if n <= usize::MAX as u64 { Some(n as usize) } else { None },
        None => None,
    }
}

impl Json {
    /// One step of a pointer.
    pub fn step(&self, token: &str) -> (r: Option<&Json>)
        ensures
            match r {
                Some(x) => step(*self, token@) == Some(*x),
                None => step(*self, token@) is None,
            },
    {
        match self {
            Json::Object(_) => self.get(token),
            Json::Array(a) => match parse_index(token) {
                Some(i) => if i < a.len() { Some(&a[i]) } else { None },
                None => None,
            },
            _ => None,
        }
    }

    /// The value a JSON pointer designates.
    pub fn pointer(&self, p: &str) -> (r: Option<&Json>)
        ensures
            match r {
                Some(x) => pointer_spec(*self, p@) == Some(*x),
                None => pointer_spec(*self, p@) is None,
            },
    {
        let v = chars_of(p);
        if v.len() == 0 {
            return Some(self);
        }
        if v[0] != '/' {
            return None;
        }
        let pieces = split_on(p, '/');
        let ghost toks = split_spec(p@, '/').drop_first().map_values(|t: Seq<char>| unescape(t));
        let mut cur: &Json = self;
        let mut i: usize = 1;
        assert(pieces@.len() >= 1) by {
            assert(pieces@.map_values(|t: String| t@).len() == split_spec(p@, '/').len());
            lemma_split_nonempty(p@, '/', Seq::empty());
        }
        assert(toks.skip(0) =~= toks);
        assert forall|k: int| 1 <= k < pieces.len() implies toks[k - 1] == unescape(#[trigger] pieces@[k]@) by {
            assert(pieces@.map_values(|t: String| t@)[k] == pieces@[k]@);
        }
        while i < pieces.len()
            invariant
                1 <= i <= pieces.len(),
                toks.len() == pieces.len() - 1,
                forall|k: int| 1 <= k < pieces.len() ==> toks[k - 1] == unescape(#[trigger] pieces@[k]@),
                walk(*self, toks) == walk(*cur, toks.skip(i - 1)),
                pointer_spec(*self, p@) == walk(*self, toks),
            decreases pieces.len() - i,
        {
            proof {
                reveal_strlit("~1");
                reveal_strlit("~0");
            }
            let once = replace(pieces[i].as_str(), "~1", "/");
            let token = replace(once.as_str(), "~0", "~");
            assert(toks.skip(i - 1)[0] == token@);
            assert(toks.skip(i - 1).drop_first() =~= toks.skip(i as int));
            match cur.step(token.as_str()) {
                Some(next) => {
                    cur = next;
                },
                None => {
                    return None;
                },
            }
            i = i + 1;
        }
        assert(toks.skip(i - 1) =~= Seq::<Seq<char>>::empty());
        Some(cur)
    }
}

pub proof fn lemma_split_nonempty(s: Seq<char>, c: char, cur: Seq<char>)
    ensures
        split_from(s, c, cur).len() >= 1,
    decreases s.len(),
{
    if s.len() > 0 {
        if s[0] == c {
            lemma_split_nonempty(s.drop_first(), c, Seq::empty());
        } else {
            lemma_split_nonempty(s.drop_first(), c, cur.push(s[0]));
        }
    }
}

} // verus!
