//! Entities, relationships and batches: the data that the engine stores,
//! merges and exchanges.

use vstd::prelude::*;
use crate::ids::{uuid_accepts, uuid_parses, uuid_v5_text, uuid_v5_url};
use crate::text::{is_white_space, lemma_trim_end_char_cut, lemma_trim_end_cut, lemma_trim_start_cut, trim_end_spec, trim_start_spec, lowercase, lowercase_of, same_text, trim, trim_end_char, trim_end_char_spec, trim_spec, chars_of, less, text_less, lemma_text_less_asymmetric, lemma_text_less_irreflexive, lemma_text_less_total, lemma_text_less_transitive};

verus! {

/// How far a claim about an entity has been analysed.
#[derive(Clone, Copy, Debug, PartialEq, Eq, Structural)]
pub enum Confidence {
    Data,
    Information,
    Intelligence,
    CounterIntelligence,
}

impl Default for Confidence {
    fn default() -> (r: Self)
        ensures
            r == Confidence::Data,
    {
        Confidence::Data
    }
}

/// The views of a sequence of strings.
pub open spec fn texts(v: Seq<String>) -> Seq<Seq<char>> {
    v.map_values(|s: String| s@)
}

/// Every string orders strictly before the next: sorted and free of repeats.
pub open spec fn strictly_sorted(s: Seq<Seq<char>>) -> bool {
    forall|i: int, j: int| 0 <= i < j < s.len() ==> text_less(#[trigger] s[i], #[trigger] s[j])
}

/// The sorted sequence, without repeats, of a finite set of strings.
pub open spec fn sorted_text_set(s: Set<Seq<char>>) -> Seq<Seq<char>> {
    choose|q: Seq<Seq<char>>| strictly_sorted(q) && q.to_set() == s
}

/// Two strictly sorted sequences with the same elements are equal.
pub proof fn lemma_sorted_unique(a: Seq<Seq<char>>, b: Seq<Seq<char>>)
    requires
        strictly_sorted(a),
        strictly_sorted(b),
        a.to_set() == b.to_set(),
    ensures
        a == b,
    decreases a.len(),
{
    if a.len() == 0 {
        if b.len() > 0 {
            assert(b.to_set().contains(b[0]));
        }
        assert(a =~= b);
    } else if b.len() == 0 {
        assert(a.to_set().contains(a[0]));
    } else {
        assert(b.to_set().contains(a[0]));
        assert(a.to_set().contains(b[0]));
        let j = choose|j: int| 0 <= j < b.len() && b[j] == a[0];
        let i = choose|i: int| 0 <= i < a.len() && a[i] == b[0];
        if j > 0 {
            assert(text_less(b[0], b[j]));
            if i > 0 {
                assert(text_less(a[0], a[i]));
                lemma_text_less_asymmetric(a[0], b[0]);
            } else {
                lemma_text_less_irreflexive(b[0]);
            }
        }
        assert(a[0] == b[0]);
        let a1 = a.drop_first();
        let b1 = b.drop_first();
        assert forall|x: Seq<char>| a1.to_set().contains(x) implies b1.to_set().contains(x) by {
            let k = choose|k: int| 0 <= k < a1.len() && a1[k] == x;
            assert(a.to_set().contains(x));
            let m = choose|m: int| 0 <= m < b.len() && b[m] == x;
            assert(text_less(a[0], a[k + 1]));
            if m == 0 {
                lemma_text_less_irreflexive(x);
            }
            assert(b1[m - 1] == x);
        }
        assert forall|x: Seq<char>| b1.to_set().contains(x) implies a1.to_set().contains(x) by {
            let k = choose|k: int| 0 <= k < b1.len() && b1[k] == x;
            assert(b.to_set().contains(x));
            let m = choose|m: int| 0 <= m < a.len() && a[m] == x;
            assert(text_less(b[0], b[k + 1]));
            if m == 0 {
                lemma_text_less_irreflexive(x);
            }
            assert(a1[m - 1] == x);
        }
        assert(a1.to_set() =~= b1.to_set());
        lemma_sorted_unique(a1, b1);
        assert(a =~= seq![a[0]] + a1);
        assert(b =~= seq![b[0]] + b1);
    }
}

/// A strictly sorted sequence is the sorted sequence of its elements.
pub proof fn lemma_sorted_text_set(q: Seq<Seq<char>>)
    requires
        strictly_sorted(q),
    ensures
        sorted_text_set(q.to_set()) == q,
{
    let c = sorted_text_set(q.to_set());
    assert(strictly_sorted(c) && c.to_set() == q.to_set());
    lemma_sorted_unique(c, q);
}

/// Inserts `s` into the strictly sorted `v`, unless it is there already.
pub fn insert_sorted(v: &mut Vec<String>, s: String)
    requires
        strictly_sorted(texts(old(v)@)),
    ensures
        strictly_sorted(texts(final(v)@)),
        texts(final(v)@).to_set() == texts(old(v)@).to_set().insert(s@),
{
    let key = chars_of(s.as_str());
    let mut k: usize = 0;
    while k < v.len() && less(&chars_of(v[k].as_str()), &key)
        invariant
            key@ == s@,
            k <= v.len(),
            v@ == old(v)@,
            strictly_sorted(texts(v@)),
            forall|i: int| 0 <= i < k ==> text_less(#[trigger] texts(v@)[i], s@),
        decreases v.len() - k,
    {
        k = k + 1;
    }
    let ghost t = texts(v@);
    if k < v.len() && v[k] == s {
        assert(t.to_set().insert(s@) =~= t.to_set()) by {
            assert(t[k as int] == s@);
        }
        return;
    }
    proof {
        if k < v.len() {
            lemma_text_less_total(t[k as int], s@);
            assert(text_less(s@, t[k as int]));
        }
    }
    v.insert(k, s);
    let ghost u = texts(v@);
    assert(u =~= t.insert(k as int, s@));
    assert forall|i: int, j: int| 0 <= i < j < u.len() implies text_less(#[trigger] u[i], #[trigger] u[j]) by {
        if j < k {
            assert(text_less(t[i], t[j]));
        } else if j == k {
            assert(text_less(t[i], s@));
        } else if i == k {
            if j - 1 > k {
                assert(text_less(t[k as int], t[j - 1]));
                lemma_text_less_transitive(s@, t[k as int], t[j - 1]);
            }
        } else if i < k {
            assert(text_less(t[i], s@));
            if j - 1 > k {
                assert(text_less(t[k as int], t[j - 1]));
                lemma_text_less_transitive(s@, t[k as int], t[j - 1]);
            }
            lemma_text_less_transitive(t[i], s@, t[j - 1]);
        } else {
            assert(text_less(t[i - 1], t[j - 1]));
        }
    }
    assert(u.to_set() =~= t.to_set().insert(s@)) by {
        assert forall|x: Seq<char>| u.to_set().contains(x) implies t.to_set().insert(s@).contains(x) by {
            let m = choose|m: int| 0 <= m < u.len() && u[m] == x;
            if m < k {
                assert(t[m] == x);
            } else if m > k {
                assert(t[m - 1] == x);
            }
        }
        assert forall|x: Seq<char>| t.to_set().insert(s@).contains(x) implies u.to_set().contains(x) by {
            if x == s@ {
                assert(u[k as int] == x);
            } else {
                let m = choose|m: int| 0 <= m < t.len() && t[m] == x;
                if m < k {
                    assert(u[m] == x);
                } else {
                    assert(u[m + 1] == x);
                }
            }
        }
    }
}

/// A key and value, both as text.
pub type TextPair = (Seq<char>, Seq<char>);

/// No key occurs twice.
pub open spec fn distinct_keys<V>(s: Seq<(Seq<char>, V)>) -> bool {
    forall|i: int, j: int| 0 <= i < j < s.len() ==> (#[trigger] s[i]).0 != (#[trigger] s[j]).0
}

/// The map that a sequence of pairs describes, a later pair overriding an earlier one.
pub open spec fn pairs_map<V>(s: Seq<(Seq<char>, V)>) -> Map<Seq<char>, V>
    decreases s.len(),
{
    if s.len() == 0 {
        Map::empty()
    } else {
        pairs_map(s.drop_last()).insert(s.last().0, s.last().1)
    }
}

pub proof fn lemma_pairs_map<V>(s: Seq<(Seq<char>, V)>)
    requires
        distinct_keys(s),
    ensures
        forall|k: Seq<char>| #[trigger] pairs_map(s).contains_key(k) <==> exists|i: int| 0 <= i < s.len() && s[i].0 == k,
        forall|i: int| 0 <= i < s.len() ==> #[trigger] pairs_map(s)[s[i].0] == s[i].1,
    decreases s.len(),
{
    if s.len() > 0 {
        let t = s.drop_last();
        assert(distinct_keys(t)) by {
            assert forall|i: int, j: int| 0 <= i < j < t.len() implies (#[trigger] t[i]).0 != (#[trigger] t[j]).0 by {
                assert(s[i] == t[i] && s[j] == t[j]);
            }
        }
        lemma_pairs_map(t);
        let l = s.last();
        assert(pairs_map(s) == pairs_map(t).insert(l.0, l.1));
        assert forall|k: Seq<char>| #[trigger] pairs_map(s).contains_key(k) <==> exists|i: int| 0 <= i < s.len() && s[i].0 == k by {
            if pairs_map(s).contains_key(k) {
                if k == l.0 {
                    assert(s[s.len() - 1].0 == k);
                } else {
                    assert(pairs_map(t).contains_key(k));
                    let i = choose|i: int| 0 <= i < t.len() && t[i].0 == k;
                    assert(s[i].0 == k);
                }
            }
            if exists|i: int| 0 <= i < s.len() && s[i].0 == k {
                let i = choose|i: int| 0 <= i < s.len() && s[i].0 == k;
                if i < s.len() - 1 {
                    assert(t[i].0 == k);
                    assert(pairs_map(t).contains_key(k));
                }
            }
        }
        assert forall|i: int| 0 <= i < s.len() implies #[trigger] pairs_map(s)[s[i].0] == s[i].1 by {
            if i < s.len() - 1 {
                assert(s[i] == t[i]);
                assert(s[i].0 != s[s.len() - 1].0);
                assert(pairs_map(t)[t[i].0] == t[i].1);
            }
        }
    }
}

/// The members of `m` in the order of their keys.
pub open spec fn sorted_members(m: Map<Seq<char>, Seq<char>>) -> Seq<TextPair> {
    sorted_text_set(m.dom()).map_values(|k: Seq<char>| (k, m[k]))
}

/// Giving the key at `i` a new value gives the map that value at that key.
pub proof fn lemma_pairs_map_update<V>(before: Seq<(Seq<char>, V)>, i: int, value: V)
    requires
        distinct_keys(before),
        0 <= i < before.len(),
    ensures
        distinct_keys(before.update(i, (before[i].0, value))),
        pairs_map(before.update(i, (before[i].0, value))) == pairs_map(before).insert(before[i].0, value),
{
    let key = before[i].0;
    let after = before.update(i, (key, value));
    assert(distinct_keys(after)) by {
        assert forall|a: int, b: int| 0 <= a < b < after.len() implies (#[trigger] after[a]).0 != (#[trigger] after[b]).0 by {
            assert(before[a].0 != before[b].0);
        }
    }
    lemma_pairs_map(before);
    lemma_pairs_map(after);
    assert(pairs_map(after) =~= pairs_map(before).insert(key, value)) by {
        assert forall|k: Seq<char>| #[trigger] pairs_map(after).contains_key(k) implies pairs_map(before).insert(key, value).contains_key(k) by {
            let m = choose|m: int| 0 <= m < after.len() && after[m].0 == k;
            if m != i {
                assert(before[m].0 == k);
            }
        }
        assert forall|k: Seq<char>| #[trigger] pairs_map(before).insert(key, value).contains_key(k) implies pairs_map(after).contains_key(k) by {
            if k != key {
                let m = choose|m: int| 0 <= m < before.len() && before[m].0 == k;
                assert(after[m].0 == k);
            } else {
                assert(after[i].0 == k);
            }
        }
        assert forall|k: Seq<char>| #[trigger] pairs_map(after).contains_key(k) implies pairs_map(after)[k] == pairs_map(before).insert(key, value)[k] by {
            let m = choose|m: int| 0 <= m < after.len() && after[m].0 == k;
            assert(pairs_map(after)[after[m].0] == after[m].1);
            if m != i {
                assert(pairs_map(before)[before[m].0] == before[m].1);
                if m < i {
                    assert(before[m].0 != before[i].0);
                } else {
                    assert(before[i].0 != before[m].0);
                }
            }
        }
    }
}

/// Adding a pair with a fresh key adds it to the map.
pub proof fn lemma_pairs_map_push<V>(before: Seq<(Seq<char>, V)>, key: Seq<char>, value: V)
    requires
        distinct_keys(before),
        forall|j: int| 0 <= j < before.len() ==> (#[trigger] before[j]).0 != key,
    ensures
        distinct_keys(before.push((key, value))),
        pairs_map(before.push((key, value))) == pairs_map(before).insert(key, value),
{
    let after = before.push((key, value));
    assert(distinct_keys(after)) by {
        assert forall|a: int, b: int| 0 <= a < b < after.len() implies (#[trigger] after[a]).0 != (#[trigger] after[b]).0 by {
            if b < before.len() {
                assert(before[a].0 != before[b].0);
            } else {
                assert(before[a].0 != key);
            }
        }
    }
    assert(after.drop_last() =~= before);
}

/// Attribute values, keyed by name, each value held as its JSON text.
pub struct Attributes {
    entries: Vec<(String, String)>,
}

/// The views of a sequence of string pairs.
pub open spec fn text_pairs(v: Seq<(String, String)>) -> Seq<TextPair> {
    v.map_values(|p: (String, String)| (p.0@, p.1@))
}

impl Attributes {
    #[verifier::type_invariant]
    spec fn keys_distinct(&self) -> bool {
        distinct_keys(text_pairs(self.entries@))
    }

    /// The entries, in the order in which they were first inserted.
    pub closed spec fn pairs(&self) -> Seq<TextPair> {
        text_pairs(self.entries@)
    }

    /// No attributes.
    pub fn new() -> (a: Self)
        ensures
            a@ == Map::<Seq<char>, Seq<char>>::empty(),
    {
        let a = Attributes { entries: Vec::new() };
        assert(a.pairs() =~= Seq::<TextPair>::empty());
        a
    }

    /// The number of attributes.
    pub fn len(&self) -> (n: usize)
        ensures
            n == self@.dom().len(),
    {
        proof {
            use_type_invariant(self);
            lemma_pairs_map(self.pairs());
            lemma_distinct_keys_len(self.pairs());
        }
        self.entries.len()
    }

    /// Sets `key` to `value`, replacing what it held.
    pub fn insert(&mut self, key: String, value: String)
        ensures
            final(self)@ == old(self)@.insert(key@, value@),
    {
        proof {
            use_type_invariant(&*self);
            lemma_pairs_map(self.pairs());
        }
        let ghost before = self.pairs();
        let mut i: usize = 0;
        while i < self.entries.len() && !(self.entries[i].0 == key)
            invariant
                self.pairs() == before,
                i <= self.entries.len(),
                distinct_keys(before),
                forall|j: int| 0 <= j < i ==> (#[trigger] before[j]).0 != key@,
            decreases self.entries.len() - i,
        {
            i = i + 1;
        }
        if i < self.entries.len() && self.entries[i].0 == key {
            let mut entries: Vec<(String, String)> = Vec::new();
            std::mem::swap(&mut entries, &mut self.entries);
            entries.set(i, (key, value));
            let ghost after = text_pairs(entries@);
            assert(before[i as int].0 == key@);
            assert(after =~= before.update(i as int, (key@, value@)));
            proof {
                lemma_pairs_map_update(before, i as int, value@);
            }
            self.entries = entries;
        } else {
            let ghost after = before.push((key@, value@));
            let mut entries: Vec<(String, String)> = Vec::new();
            std::mem::swap(&mut entries, &mut self.entries);
            entries.push((key, value));
            assert(text_pairs(entries@) =~= after);
            assert(distinct_keys(after)) by {
                assert forall|a: int, b: int| 0 <= a < b < after.len() implies (#[trigger] after[a]).0 != (#[trigger] after[b]).0 by {
                    if b < before.len() {
                        assert(before[a].0 != before[b].0);
                    } else {
                        assert(before[a].0 != key@);
                    }
                }
            }
            assert(after.drop_last() =~= before);
            self.entries = entries;
        }
    }

    /// Sets every attribute of `other` here, its values replacing these.
    pub fn extend(&mut self, other: Attributes)
        ensures
            final(self)@ == old(self)@.union_prefer_right(other@),
    {
        proof {
            use_type_invariant(&other);
            lemma_pairs_map(other.pairs());
        }
        let ghost start = self@;
        let ghost op = other.pairs();
        let mut i: usize = 0;
        while i < other.entries.len()
            invariant
                op == other.pairs(),
                i <= op.len(),
                distinct_keys(op),
                self@ == start.union_prefer_right(pairs_map(op.take(i as int))),
            decreases other.entries.len() - i,
        {
            let k = other.entries[i].0.clone();
            let v = other.entries[i].1.clone();
            self.insert(k, v);
            assert(op.take(i + 1).drop_last() =~= op.take(i as int));
            assert(self@ =~= start.union_prefer_right(pairs_map(op.take(i + 1))));
            i = i + 1;
        }
        assert(op.take(op.len() as int) =~= op);
    }

    /// The value held under `key`.
    pub fn get(&self, key: &str) -> (r: Option<String>)
        ensures
            r.is_some() == self@.contains_key(key@),
            r.is_some() ==> r.unwrap()@ == self@[key@],
    {
        proof {
            use_type_invariant(self);
            lemma_pairs_map(self.pairs());
        }
        let mut i: usize = 0;
        while i < self.entries.len()
            invariant
                i <= self.entries.len(),
                forall|j: int| 0 <= j < i ==> (#[trigger] self.pairs()[j]).0 != key@,
            decreases self.entries.len() - i,
        {
            if same_text(self.entries[i].0.as_str(), key) {
                assert(self.pairs()[i as int].0 == key@);
                proof {
                    use_type_invariant(self);
                    lemma_pairs_map(self.pairs());
                }
                assert(self@ == pairs_map(self.pairs()));
                assert(pairs_map(self.pairs())[self.pairs()[i as int].0] == self.pairs()[i as int].1);
                return Some(self.entries[i].1.clone());
            }
            i = i + 1;
        }
        None
    }

    /// The entries as (key, JSON text) pairs in the order of their keys.
    pub fn sorted_pairs(&self) -> (r: Vec<(String, String)>)
        ensures
            text_pairs(r@) == sorted_members(self@),
    {
        proof {
            use_type_invariant(self);
            lemma_pairs_map(self.pairs());
        }
        let pairs = self.to_pairs();
        let ghost ps = self.pairs();
        let mut keys: Vec<String> = Vec::new();
        let mut i: usize = 0;
        assert(texts(keys@).to_set() =~= Set::<Seq<char>>::empty());
        while i < pairs.len()
            invariant
                text_pairs(pairs@) == ps,
                i <= pairs.len(),
                strictly_sorted(texts(keys@)),
                forall|k: Seq<char>| #[trigger] texts(keys@).to_set().contains(k)
                    <==> exists|j: int| 0 <= j < i && ps[j].0 == k,
            decreases pairs.len() - i,
        {
            let ghost before = texts(keys@).to_set();
            insert_sorted(&mut keys, pairs[i].0.clone());
            assert(ps[i as int].0 == pairs@[i as int].0@);
            assert forall|k: Seq<char>| #[trigger] texts(keys@).to_set().contains(k)
                <==> exists|j: int| 0 <= j < i + 1 && ps[j].0 == k by {
                if texts(keys@).to_set().contains(k) && k != ps[i as int].0 {
                    assert(before.contains(k));
                }
            }
            i = i + 1;
        }
        assert(texts(keys@).to_set() =~= self@.dom());
        proof {
            lemma_sorted_text_set(texts(keys@));
        }
        let ghost order = sorted_text_set(self@.dom());
        let mut r: Vec<(String, String)> = Vec::new();
        let mut j: usize = 0;
        while j < keys.len()
            invariant
                texts(keys@) == order,
                order.len() == keys.len(),
                order.to_set() == self@.dom(),
                sorted_members(self@) == order.map_values(|k: Seq<char>| (k, self@[k])),
                j <= keys.len(),
                text_pairs(r@) == sorted_members(self@).take(j as int),
            decreases keys.len() - j,
        {
            assert(texts(keys@)[j as int] == keys@[j as int]@);
            assert(order.to_set().contains(order[j as int]));
            let v = self.get(keys[j].as_str());
            let value = match v {
                Some(t) => t,
                None => String::new(),
            };
            let ghost prev = r@;
            assert(sorted_members(self@)[j as int] == (order[j as int], self@[order[j as int]]));
            r.push((keys[j].clone(), value));
            assert(text_pairs(r@) =~= text_pairs(prev).push((keys@[j as int]@, value@)));
            assert(sorted_members(self@).take(j + 1) =~= sorted_members(self@).take(j as int).push(
                sorted_members(self@)[j as int],
            ));
            j = j + 1;
        }
        assert(sorted_members(self@).take(j as int) =~= sorted_members(self@));
        r
    }

    /// The entries as (key, JSON text) pairs, each key once.
    pub fn to_pairs(&self) -> (r: Vec<(String, String)>)
        ensures
            text_pairs(r@) == self.pairs(),
    {
        let mut r: Vec<(String, String)> = Vec::new();
        let mut i: usize = 0;
        while i < self.entries.len()
            invariant
                i <= self.entries.len(),
                text_pairs(r@) == self.pairs().take(i as int),
            decreases self.entries.len() - i,
        {
            let ghost prev = r@;
            let k = self.entries[i].0.clone();
            let v = self.entries[i].1.clone();
            r.push((k, v));
            assert(r@ == prev.push((k, v)));
            assert(text_pairs(r@) =~= text_pairs(prev).push((k@, v@)));
            assert(self.pairs().take(i + 1) =~= self.pairs().take(i as int).push(self.pairs()[i as int]));
            assert(text_pairs(r@) =~= self.pairs().take(i + 1));
            i = i + 1;
        }
        assert(self.pairs().take(i as int) =~= self.pairs());
        r
    }

    /// A copy with the same attributes.
    pub fn duplicate(&self) -> (r: Self)
        ensures
            r@ == self@,
            r.pairs() == self.pairs(),
    {
        proof {
            use_type_invariant(self);
        }
        let entries = self.to_pairs();
        Attributes { entries }
    }
}

proof fn lemma_distinct_keys_len(s: Seq<TextPair>)
    requires
        distinct_keys(s),
    ensures
        pairs_map(s).dom().len() == s.len(),
        pairs_map(s).dom().finite(),
    decreases s.len(),
{
    if s.len() > 0 {
        let t = s.drop_last();
        assert(distinct_keys(t)) by {
            assert forall|i: int, j: int| 0 <= i < j < t.len() implies (#[trigger] t[i]).0 != (#[trigger] t[j]).0 by {
                assert(s[i] == t[i] && s[j] == t[j]);
            }
        }
        lemma_distinct_keys_len(t);
        lemma_pairs_map(t);
        assert(!pairs_map(t).contains_key(s.last().0)) by {
            if pairs_map(t).contains_key(s.last().0) {
                let i = choose|i: int| 0 <= i < t.len() && t[i].0 == s.last().0;
                assert(s[i].0 != s[s.len() - 1].0);
            }
        }
    }
}

impl View for Attributes {
    type V = Map<Seq<char>, Seq<char>>;

    closed spec fn view(&self) -> Map<Seq<char>, Seq<char>> {
        pairs_map(text_pairs(self.entries@))
    }
}

/// Seconds since the Unix epoch, from the system clock (zero when the clock
/// reads before the epoch). Depends on the time: nothing is stated of it.
#[verifier::external_body]
fn clock_seconds() -> u64 {
    std::time::SystemTime::now().duration_since(std::time::UNIX_EPOCH).unwrap_or_default().as_secs()
}

/// The current Unix time in seconds.
pub fn now() -> i64 {
    let secs = clock_seconds();
    secs as i64
}

/// Whether the IEEE-754 single-precision value with these bits is finite
/// (its exponent field is not all ones).
pub open spec fn finite_bits(bits: u32) -> bool {
    (bits >> 23u32) & 0xffu32 != 0xffu32
}

/// The byte length of the UTF-8 encoding of `s`, as `str::len` gives it.
pub open spec fn utf8_len(s: Seq<char>) -> usize {
    vstd::utf8::encode_utf8(s).len() as usize
}

/// The elements of `s.push(x)` are those of `s` and `x`.
pub proof fn lemma_push_to_set<A>(s: Seq<A>, x: A)
    ensures
        s.push(x).to_set() == s.to_set().insert(x),
{
    assert forall|y: A| #[trigger] s.push(x).to_set().contains(y) <==> s.to_set().insert(x).contains(y) by {
        if s.push(x).to_set().contains(y) {
            let k = choose|k: int| 0 <= k < s.push(x).len() && s.push(x)[k] == y;
            if k < s.len() {
                assert(s[k] == y);
            }
        }
        if s.to_set().contains(y) {
            let k = choose|k: int| 0 <= k < s.len() && s[k] == y;
            assert(s.push(x)[k] == y);
        }
        if y == x {
            assert(s.push(x)[s.len() as int] == y);
        }
    }
    assert(s.push(x).to_set() =~= s.to_set().insert(x));
}

/// An entity of the investigation graph. The layout coordinates `x` and `y`
/// are held as the bit patterns of `f32` values.
pub struct Node {
    pub id: String,
    pub kind: String,
    pub value: String,
    pub attributes: Attributes,
    pub sources: Vec<String>,
    pub confidence: Confidence,
    pub timestamp: i64,
    pub x: u32,
    pub y: u32,
}

/// The mathematical value of a node.
pub struct NodeView {
    pub id: Seq<char>,
    pub kind: Seq<char>,
    pub value: Seq<char>,
    pub attributes: Map<Seq<char>, Seq<char>>,
    pub sources: Seq<Seq<char>>,
    pub confidence: Confidence,
    pub timestamp: i64,
    pub x: u32,
    pub y: u32,
}

impl View for Node {
    type V = NodeView;

    open spec fn view(&self) -> NodeView {
        NodeView {
            id: self.id@,
            kind: self.kind@,
            value: self.value@,
            attributes: self.attributes@,
            sources: texts(self.sources@),
            confidence: self.confidence,
            timestamp: self.timestamp,
            x: self.x,
            y: self.y,
        }
    }
}

/// A copy of the strings `v`.
pub fn copy_strings(v: &Vec<String>) -> (r: Vec<String>)
    ensures
        texts(r@) == texts(v@),
{
    let mut r: Vec<String> = Vec::new();
    let mut i: usize = 0;
    while i < v.len()
        invariant
            i <= v.len(),
            texts(r@) == texts(v@).take(i as int),
        decreases v.len() - i,
    {
        let ghost prev = r@;
        let s = v[i].clone();
        r.push(s);
        assert(texts(r@) =~= texts(prev).push(s@));
        assert(texts(v@).take(i + 1) =~= texts(v@).take(i as int).push(texts(v@)[i as int]));
        i = i + 1;
    }
    assert(texts(v@).take(i as int) =~= texts(v@));
    r
}

/// The node after `merge`: attributes of `b` override those of `a`; the
/// sources are the sorted union without repeats; the confidence of `a` is
/// kept unless it is `Data` and that of `b` is not; the earlier timestamp
/// is kept. Identity, kind, value and layout stay those of `a`.
pub open spec fn merged(a: NodeView, b: NodeView) -> NodeView {
    NodeView {
        id: a.id,
        kind: a.kind,
        value: a.value,
        attributes: a.attributes.union_prefer_right(b.attributes),
        sources: sorted_text_set(a.sources.to_set().union(b.sources.to_set())),
        confidence: if a.confidence == Confidence::Data && b.confidence != Confidence::Data {
            b.confidence
        } else {
            a.confidence
        },
        timestamp: if b.timestamp < a.timestamp {
            b.timestamp
        } else {
            a.timestamp
        },
        x: a.x,
        y: a.y,
    }
}

/// The value of a node once surrounding white space is removed and, for
/// domains and e-mail addresses, trailing dots too and letters lowered.
pub open spec fn normalized_value(kind: Seq<char>, value: Seq<char>) -> Seq<char> {
    if kind == "domain"@ || kind == "email"@ {
        lowercase_of(trim_end_char_spec(trim_spec(value), '.'))
    } else {
        trim_spec(value)
    }
}

/// Why a node, an edge or a batch is refused.
#[derive(Clone, Copy, Debug, PartialEq, Eq, Structural)]
pub enum ModelError {
    InvalidNode,
    NodeTooLarge,
    BatchTooLarge,
    InvalidEdge,
}

/// The message shown for a refusal.
pub open spec fn model_message(e: ModelError) -> Seq<char> {
    match e {
        ModelError::InvalidNode => "invalid node"@,
        ModelError::NodeTooLarge => "node exceeds 64 KiB"@,
        ModelError::BatchTooLarge => "batch too large"@,
        ModelError::InvalidEdge => "invalid edge"@,
    }
}

impl ModelError {
    /// The message shown for this refusal.
    pub fn message(&self) -> (m: &'static str)
        ensures
            m@ == model_message(*self),
    {
        match self {
            ModelError::InvalidNode => "invalid node",
            ModelError::NodeTooLarge => "node exceeds 64 KiB",
            ModelError::BatchTooLarge => "batch too large",
            ModelError::InvalidEdge => "invalid edge",
        }
    }
}

/// The verdict on a node whose JSON encoding is `encoded_len` bytes long.
pub open spec fn node_check(n: NodeView, encoded_len: nat) -> Result<(), ModelError> {
    if utf8_len(n.id) > 64 || !uuid_accepts(n.id) || n.value.len() == 0 || utf8_len(n.value) > 4096
        || utf8_len(n.kind) > 64 || !finite_bits(n.x) || !finite_bits(n.y) {
        Err(ModelError::InvalidNode)
    } else if encoded_len > 65536 {
        Err(ModelError::NodeTooLarge)
    } else {
        Ok(())
    }
}

/// The entity that `Node::new` makes of `kind` and `value` for `source`,
/// stamped `timestamp`: identified by the name-based UUID of
/// `kind:value` (value normalised), at confidence `Data`, at the origin.
pub open spec fn fresh_node(kind: Seq<char>, value: Seq<char>, source: Seq<char>, timestamp: i64) -> NodeView {
    NodeView {
        id: uuid_v5_url(kind + ":"@ + normalized_value(kind, value)),
        kind,
        value: normalized_value(kind, value),
        attributes: Map::empty(),
        sources: seq![source],
        confidence: Confidence::Data,
        timestamp,
        x: 0,
        y: 0,
    }
}

impl Node {
    /// A new entity of `kind` with `value` (normalised), reported by `source`
    /// and stamped with the current time: see `fresh_node`.
    pub fn new(kind: &str, value: &str, source: &str) -> (n: Node)
        ensures
            n@ == fresh_node(kind@, value@, source@, n@.timestamp),
    {
        Node::stamped(kind, value, source, now())
    }

    /// The entity `fresh_node` describes, stamped `timestamp`.
    pub fn stamped(kind: &str, value: &str, source: &str, timestamp: i64) -> (n: Node)
        ensures
            n@ == fresh_node(kind@, value@, source@, timestamp),
    {
        let trimmed = trim(value);
        let value = if same_text(kind, "domain") || same_text(kind, "email") {
            let stripped = trim_end_char(trimmed.as_str(), '.');
            lowercase(stripped.as_str())
        } else {
            trimmed
        };
        let mut name = kind.to_owned();
        name.append(":");
        name.append(value.as_str());
        let id = uuid_v5_text(name.as_str());
        let mut sources: Vec<String> = Vec::new();
        sources.push(source.to_owned());
        let n = Node {
            id,
            kind: kind.to_owned(),
            value,
            attributes: Attributes::new(),
            sources,
            confidence: Confidence::Data,
            timestamp,
            x: 0,
            y: 0,
        };
        assert(texts(n.sources@) =~= seq![source@]);
        assert(n@.attributes =~= Map::<Seq<char>, Seq<char>>::empty());
        n
    }

    /// A copy of this node.
    pub fn duplicate(&self) -> (r: Node)
        ensures
            r@ == self@,
    {
        Node {
            id: self.id.clone(),
            kind: self.kind.clone(),
            value: self.value.clone(),
            attributes: self.attributes.duplicate(),
            sources: copy_strings(&self.sources),
            confidence: self.confidence,
            timestamp: self.timestamp,
            x: self.x,
            y: self.y,
        }
    }

    /// Folds `other` into this node: see `merged`.
    pub fn merge(&mut self, other: Node)
        ensures
            final(self)@ == merged(old(self)@, other@),
    {
        let ghost a = self@;
        let ghost b = other@;
        self.attributes.extend(other.attributes);
        let mut out: Vec<String> = Vec::new();
        let mut i: usize = 0;
        while i < self.sources.len()
            invariant
                i <= self.sources.len(),
                texts(self.sources@) == a.sources,
                strictly_sorted(texts(out@)),
                texts(out@).to_set() == a.sources.take(i as int).to_set(),
            decreases self.sources.len() - i,
        {
            insert_sorted(&mut out, self.sources[i].clone());
            assert(a.sources.take(i + 1) =~= a.sources.take(i as int).push(a.sources[i as int]));
            proof {
                lemma_push_to_set(a.sources.take(i as int), a.sources[i as int]);
            }
            i = i + 1;
        }
        assert(a.sources.take(i as int) =~= a.sources);
        let mut j: usize = 0;
        while j < other.sources.len()
            invariant
                j <= other.sources.len(),
                texts(other.sources@) == b.sources,
                strictly_sorted(texts(out@)),
                texts(out@).to_set() == a.sources.to_set().union(b.sources.take(j as int).to_set()),
            decreases other.sources.len() - j,
        {
            insert_sorted(&mut out, other.sources[j].clone());
            assert(b.sources.take(j + 1) =~= b.sources.take(j as int).push(b.sources[j as int]));
            proof {
                lemma_push_to_set(b.sources.take(j as int), b.sources[j as int]);
            }
            assert(texts(out@).to_set() =~= a.sources.to_set().union(b.sources.take(j + 1).to_set()));
            j = j + 1;
        }
        assert(b.sources.take(j as int) =~= b.sources);
        proof {
            lemma_sorted_text_set(texts(out@));
        }
        self.sources = out;
        if self.confidence == Confidence::Data && other.confidence != Confidence::Data {
            self.confidence = other.confidence;
        }
        if other.timestamp < self.timestamp {
            self.timestamp = other.timestamp;
        }
    }

    /// Checks the node's bounds: identifier, value and kind lengths, a
    /// parseable identifier, finite coordinates, and an encoding of at most
    /// 64 KiB (`encoded_len` is the byte length of its JSON encoding).
    pub fn validate(&self, encoded_len: usize) -> (r: Result<(), ModelError>)
        ensures
            r == node_check(self@, encoded_len as nat),
    {
        let finite_x = (self.x >> 23u32) & 0xffu32 != 0xffu32;
        let finite_y = (self.y >> 23u32) & 0xffu32 != 0xffu32;
        if self.id.as_str().len() > 64 || !uuid_parses(self.id.as_str()) || self.value.as_str().is_empty()
            || self.value.as_str().len() > 4096 || self.kind.as_str().len() > 64 || !finite_x || !finite_y {
            return Err(ModelError::InvalidNode);
        }
        if encoded_len > 65536 {
            return Err(ModelError::NodeTooLarge);
        }
        Ok(())
    }
}

/// A relationship between two entities, with where it was observed.
pub struct Edge {
    pub id: String,
    pub source: String,
    pub target: String,
    pub relation: String,
    pub provenance: String,
    pub timestamp: i64,
}

/// The mathematical value of an edge.
pub struct EdgeView {
    pub id: Seq<char>,
    pub source: Seq<char>,
    pub target: Seq<char>,
    pub relation: Seq<char>,
    pub provenance: Seq<char>,
    pub timestamp: i64,
}

impl View for Edge {
    type V = EdgeView;

    open spec fn view(&self) -> EdgeView {
        EdgeView {
            id: self.id@,
            source: self.source@,
            target: self.target@,
            relation: self.relation@,
            provenance: self.provenance@,
            timestamp: self.timestamp,
        }
    }
}

/// The name from which an edge's identifier is derived.
pub open spec fn edge_name(source: Seq<char>, target: Seq<char>, relation: Seq<char>, provenance: Seq<char>) -> Seq<char> {
    source + ":"@ + target + ":"@ + relation + ":"@ + provenance
}

/// The verdict on an edge of a batch.
pub open spec fn edge_check(e: EdgeView) -> Result<(), ModelError> {
    if utf8_len(e.relation) > 128 || utf8_len(e.provenance) > 128 || !uuid_accepts(e.id) {
        Err(ModelError::InvalidEdge)
    } else {
        Ok(())
    }
}

/// The relationship that `Edge::new` makes, stamped `timestamp`: identified
/// by the name-based UUID of `source:target:relation:provenance`.
pub open spec fn fresh_edge(source: Seq<char>, target: Seq<char>, relation: Seq<char>, provenance: Seq<char>, timestamp: i64) -> EdgeView {
    EdgeView {
        id: uuid_v5_url(edge_name(source, target, relation, provenance)),
        source,
        target,
        relation,
        provenance,
        timestamp,
    }
}

impl Edge {
    /// A new relationship stamped with the current time: see `fresh_edge`.
    pub fn new(source: &str, target: &str, relation: &str, provenance: &str) -> (e: Edge)
        ensures
            e@ == fresh_edge(source@, target@, relation@, provenance@, e@.timestamp),
    {
        Edge::stamped(source, target, relation, provenance, now())
    }

    /// The relationship `fresh_edge` describes, stamped `timestamp`.
    pub fn stamped(source: &str, target: &str, relation: &str, provenance: &str, timestamp: i64) -> (e: Edge)
        ensures
            e@ == fresh_edge(source@, target@, relation@, provenance@, timestamp),
    {
        let mut name = source.to_owned();
        name.append(":");
        name.append(target);
        name.append(":");
        name.append(relation);
        name.append(":");
        name.append(provenance);
        Edge {
            id: uuid_v5_text(name.as_str()),
            source: source.to_owned(),
            target: target.to_owned(),
            relation: relation.to_owned(),
            provenance: provenance.to_owned(),
            timestamp,
        }
    }

    /// A copy of this edge.
    pub fn duplicate(&self) -> (r: Edge)
        ensures
            r@ == self@,
    {
        Edge {
            id: self.id.clone(),
            source: self.source.clone(),
            target: self.target.clone(),
            relation: self.relation.clone(),
            provenance: self.provenance.clone(),
            timestamp: self.timestamp,
        }
    }

    /// Checks the edge's bounds within a batch.
    pub fn check(&self) -> (r: Result<(), ModelError>)
        ensures
            r == edge_check(self@),
    {
        if self.relation.as_str().len() > 128 || self.provenance.as_str().len() > 128 || !uuid_parses(self.id.as_str()) {
            Err(ModelError::InvalidEdge)
        } else {
            Ok(())
        }
    }
}

/// Nodes and edges that are admitted, stored and applied together.
pub struct Batch {
    pub nodes: Vec<Node>,
    pub edges: Vec<Edge>,
}

/// The mathematical value of a batch.
pub struct BatchView {
    pub nodes: Seq<NodeView>,
    pub edges: Seq<EdgeView>,
}

impl View for Batch {
    type V = BatchView;

    open spec fn view(&self) -> BatchView {
        BatchView {
            nodes: self.nodes@.map_values(|n: Node| n@),
            edges: self.edges@.map_values(|e: Edge| e@),
        }
    }
}

impl Default for Batch {
    fn default() -> (b: Self)
        ensures
            b@.nodes.len() == 0,
            b@.edges.len() == 0,
    {
        Batch { nodes: Vec::new(), edges: Vec::new() }
    }
}

/// The verdict on a run of nodes, the first refusal winning.
pub open spec fn nodes_check(nodes: Seq<NodeView>, lens: Seq<usize>) -> Result<(), ModelError>
    decreases nodes.len(),
{
    if nodes.len() == 0 || lens.len() == 0 {
        Ok(())
    } else {
        match node_check(nodes[0], lens[0] as nat) {
            Err(e) => Err(e),
            Ok(()) => nodes_check(nodes.drop_first(), lens.drop_first()),
        }
    }
}

/// The verdict on a run of edges, the first refusal winning.
pub open spec fn edges_check(edges: Seq<EdgeView>) -> Result<(), ModelError>
    decreases edges.len(),
{
    if edges.len() == 0 {
        Ok(())
    } else {
        match edge_check(edges[0]) {
            Err(e) => Err(e),
            Ok(()) => edges_check(edges.drop_first()),
        }
    }
}

/// The verdict on a batch whose JSON encoding is `encoded_len` bytes long and
/// whose nodes' encodings have the lengths `node_lens`.
pub open spec fn batch_check(b: BatchView, encoded_len: nat, node_lens: Seq<usize>) -> Result<(), ModelError> {
    if b.nodes.len() > 512 || b.edges.len() > 2048 || encoded_len > 2 * 1024 * 1024 {
        Err(ModelError::BatchTooLarge)
    } else {
        match nodes_check(b.nodes, node_lens) {
            Err(e) => Err(e),
            Ok(()) => edges_check(b.edges),
        }
    }
}

impl Batch {
    /// Checks the batch's bounds (at most 512 nodes, 2048 edges and 2 MiB of
    /// JSON), then each node, then each edge. `node_lens[i]` is the length
    /// of the JSON encoding of `nodes[i]`.
    pub fn validate(&self, encoded_len: usize, node_lens: &Vec<usize>) -> (r: Result<(), ModelError>)
        requires
            node_lens.len() == self.nodes.len(),
        ensures
            r == batch_check(self@, encoded_len as nat, node_lens@),
    {
        if self.nodes.len() > 512 || self.edges.len() > 2048 || encoded_len > 2 * 1024 * 1024 {
            return Err(ModelError::BatchTooLarge);
        }
        let ghost nv = self@.nodes;
        let mut i: usize = 0;
        assert(nv.skip(0) =~= nv);
        assert(node_lens@.skip(0) =~= node_lens@);
        while i < self.nodes.len()
            invariant
                nv == self@.nodes,
                node_lens.len() == self.nodes.len(),
                self.nodes.len() <= 512 && self.edges.len() <= 2048 && encoded_len <= 2 * 1024 * 1024,
                i <= self.nodes.len(),
                nodes_check(nv, node_lens@) == nodes_check(nv.skip(i as int), node_lens@.skip(i as int)),
            decreases self.nodes.len() - i,
        {
            let r = self.nodes[i].validate(node_lens[i]);
            assert(nv.skip(i as int)[0] == self.nodes[i as int]@);
            assert(node_lens@.skip(i as int)[0] == node_lens@[i as int]);
            if r.is_err() {
                return r;
            }
            assert(nv.skip(i as int).drop_first() =~= nv.skip(i + 1));
            assert(node_lens@.skip(i as int).drop_first() =~= node_lens@.skip(i + 1));
            i = i + 1;
        }
        assert(nodes_check(nv.skip(i as int), node_lens@.skip(i as int)) == Ok::<(), ModelError>(())) by {
            assert(nv.skip(i as int).len() == 0);
        }
        let ghost ev = self@.edges;
        let mut j: usize = 0;
        assert(ev.skip(0) =~= ev);
        while j < self.edges.len()
            invariant
                ev == self@.edges,
                j <= self.edges.len(),
                self.nodes.len() <= 512 && self.edges.len() <= 2048 && encoded_len <= 2 * 1024 * 1024,
                nodes_check(self@.nodes, node_lens@) == Ok::<(), ModelError>(()),
                edges_check(ev) == edges_check(ev.skip(j as int)),
            decreases self.edges.len() - j,
        {
            let r = self.edges[j].check();
            assert(ev.skip(j as int)[0] == self.edges[j as int]@);
            if r.is_err() {
                return r;
            }
            assert(ev.skip(j as int).drop_first() =~= ev.skip(j + 1));
            j = j + 1;
        }
        Ok(())
    }
}

proof fn lemma_sorted_insert_exists(r: Seq<Seq<char>>, x: Seq<char>)
    requires
        strictly_sorted(r),
    ensures
        exists|q: Seq<Seq<char>>| strictly_sorted(q) && q.to_set() == r.to_set().insert(x),
    decreases r.len(),
{
    if r.len() == 0 {
        let q = seq![x];
        assert(q.to_set() =~= r.to_set().insert(x)) by {
            assert(q[0] == x);
        }
        assert(strictly_sorted(q));
    } else if r[0] == x {
        assert(r.to_set() =~= r.to_set().insert(x)) by {
            assert(r.to_set().contains(x));
        }
    } else {
        lemma_text_less_total(r[0], x);
        if text_less(x, r[0]) {
            let q = seq![x] + r;
            assert forall|i: int, j: int| 0 <= i < j < q.len() implies text_less(#[trigger] q[i], #[trigger] q[j]) by {
                if i == 0 {
                    if j > 1 {
                        assert(text_less(r[0], r[j - 1]));
                        lemma_text_less_transitive(x, r[0], r[j - 1]);
                    }
                } else {
                    assert(text_less(r[i - 1], r[j - 1]));
                }
            }
            assert(q.to_set() =~= r.to_set().insert(x)) by {
                assert forall|y: Seq<char>| #[trigger] q.to_set().contains(y) <==> r.to_set().insert(x).contains(y) by {
                    if q.to_set().contains(y) {
                        let k = choose|k: int| 0 <= k < q.len() && q[k] == y;
                        if k > 0 {
                            assert(r[k - 1] == y);
                        }
                    }
                    if r.to_set().contains(y) {
                        let k = choose|k: int| 0 <= k < r.len() && r[k] == y;
                        assert(q[k + 1] == y);
                    }
                    if y == x {
                        assert(q[0] == y);
                    }
                }
            }
        } else {
            let rest = r.drop_first();
            assert(strictly_sorted(rest)) by {
                assert forall|i: int, j: int| 0 <= i < j < rest.len() implies text_less(#[trigger] rest[i], #[trigger] rest[j]) by {
                    assert(text_less(r[i + 1], r[j + 1]));
                }
            }
            lemma_sorted_insert_exists(rest, x);
            let q3 = choose|q: Seq<Seq<char>>| strictly_sorted(q) && q.to_set() == rest.to_set().insert(x);
            let q = seq![r[0]] + q3;
            assert forall|i: int, j: int| 0 <= i < j < q.len() implies text_less(#[trigger] q[i], #[trigger] q[j]) by {
                if i == 0 {
                    assert(q3.to_set().contains(q3[j - 1]));
                    let y = q3[j - 1];
                    if y != x {
                        let k = choose|k: int| 0 <= k < rest.len() && rest[k] == y;
                        assert(text_less(r[0], r[k + 1]));
                    }
                } else {
                    assert(text_less(q3[i - 1], q3[j - 1]));
                }
            }
            assert(q.to_set() =~= r.to_set().insert(x)) by {
                assert forall|y: Seq<char>| #[trigger] q.to_set().contains(y) <==> r.to_set().insert(x).contains(y) by {
                    if q.to_set().contains(y) {
                        let k = choose|k: int| 0 <= k < q.len() && q[k] == y;
                        if k > 0 {
                            assert(q3.to_set().contains(y));
                            if y != x {
                                let m = choose|m: int| 0 <= m < rest.len() && rest[m] == y;
                                assert(r[m + 1] == y);
                            }
                        } else {
                            assert(r[0] == y);
                        }
                    }
                    if r.to_set().contains(y) {
                        let k = choose|k: int| 0 <= k < r.len() && r[k] == y;
                        if k == 0 {
                            assert(q[0] == y);
                        } else {
                            assert(rest[k - 1] == y);
                            assert(q3.to_set().contains(y));
                            let m = choose|m: int| 0 <= m < q3.len() && q3[m] == y;
                            assert(q[m + 1] == y);
                        }
                    }
                    if y == x {
                        assert(q3.to_set().contains(y));
                        let m = choose|m: int| 0 <= m < q3.len() && q3[m] == y;
                        assert(q[m + 1] == y);
                    }
                }
            }
        }
    }
}

/// Every finite collection of strings has a sorted sequence without repeats.
pub proof fn lemma_sorted_text_set_exists(q: Seq<Seq<char>>)
    ensures
        strictly_sorted(sorted_text_set(q.to_set())),
        sorted_text_set(q.to_set()).to_set() == q.to_set(),
    decreases q.len(),
{
    if q.len() == 0 {
        let e = Seq::<Seq<char>>::empty();
        assert(e.to_set() =~= q.to_set());
        assert(strictly_sorted(e));
    } else {
        let p = q.drop_last();
        lemma_sorted_text_set_exists(p);
        let r = sorted_text_set(p.to_set());
        lemma_sorted_insert_exists(r, q.last());
        assert(q =~= p.push(q.last()));
        lemma_push_to_set(p, q.last());
    }
}

/// Merging the same report a second time changes nothing more.
pub proof fn law_merge_absorbs(a: NodeView, b: NodeView)
    ensures
        merged(merged(a, b), b) == merged(a, b),
{
    let m = merged(a, b);
    let u = a.sources.to_set().union(b.sources.to_set());
    assert(u == (a.sources + b.sources).to_set()) by {
        assert forall|y: Seq<char>| #[trigger] u.contains(y) <==> (a.sources + b.sources).to_set().contains(y) by {
            if a.sources.to_set().contains(y) {
                let k = choose|k: int| 0 <= k < a.sources.len() && a.sources[k] == y;
                assert((a.sources + b.sources)[k] == y);
            }
            if b.sources.to_set().contains(y) {
                let k = choose|k: int| 0 <= k < b.sources.len() && b.sources[k] == y;
                assert((a.sources + b.sources)[a.sources.len() + k] == y);
            }
            if (a.sources + b.sources).to_set().contains(y) {
                let k = choose|k: int| 0 <= k < (a.sources + b.sources).len() && (a.sources + b.sources)[k] == y;
                if k < a.sources.len() {
                    assert(a.sources[k] == y);
                } else {
                    assert(b.sources[k - a.sources.len()] == y);
                }
            }
        }
        assert(u =~= (a.sources + b.sources).to_set());
    }
    lemma_sorted_text_set_exists(a.sources + b.sources);
    assert(m.sources.to_set().union(b.sources.to_set()) =~= u);
    assert(m.attributes.union_prefer_right(b.attributes) =~= m.attributes);
}

/// The sources of a merge are exactly those of both nodes, sorted, each once,
/// and the merge alone never raises confidence above `Data`.
pub proof fn law_merge_sources(a: NodeView, b: NodeView)
    ensures
        strictly_sorted(merged(a, b).sources),
        forall|s: Seq<char>| merged(a, b).sources.contains(s) <==> (a.sources.contains(s) || b.sources.contains(s)),
        a.confidence == Confidence::Data && b.confidence == Confidence::Data ==> merged(a, b).confidence == Confidence::Data,
        merged(a, b).timestamp <= a.timestamp,
        merged(a, b).timestamp <= b.timestamp,
{
    let u = a.sources.to_set().union(b.sources.to_set());
    law_merge_absorbs(a, b);
    lemma_sorted_text_set_exists(a.sources + b.sources);
    assert(u =~= (a.sources + b.sources).to_set()) by {
        assert forall|y: Seq<char>| #[trigger] u.contains(y) <==> (a.sources + b.sources).to_set().contains(y) by {
            if a.sources.to_set().contains(y) {
                let k = choose|k: int| 0 <= k < a.sources.len() && a.sources[k] == y;
                assert((a.sources + b.sources)[k] == y);
            }
            if b.sources.to_set().contains(y) {
                let k = choose|k: int| 0 <= k < b.sources.len() && b.sources[k] == y;
                assert((a.sources + b.sources)[a.sources.len() + k] == y);
            }
            if (a.sources + b.sources).to_set().contains(y) {
                let k = choose|k: int| 0 <= k < (a.sources + b.sources).len() && (a.sources + b.sources)[k] == y;
                if k < a.sources.len() {
                    assert(a.sources[k] == y);
                } else {
                    assert(b.sources[k - a.sources.len()] == y);
                }
            }
        }
    }
    assert forall|s: Seq<char>| merged(a, b).sources.contains(s) <==> (a.sources.contains(s) || b.sources.contains(s)) by {
        assert(merged(a, b).sources.to_set().contains(s) == merged(a, b).sources.contains(s));
        assert(a.sources.to_set().contains(s) == a.sources.contains(s));
        assert(b.sources.to_set().contains(s) == b.sources.contains(s));
    }
}

/// Merging a report `b` onto a node `a`: the report's attributes override
/// the node's, the node keeps every attribute the report lacks, its
/// identity and its layout; a confidence other than `Data` (one set by
/// analysis) is kept whatever the report says, while `Data` takes the
/// report's; the timestamp is one of the two, the earlier.
pub proof fn law_merge_report_onto_node(a: NodeView, b: NodeView)
    ensures
        merged(a, b).id == a.id,
        merged(a, b).kind == a.kind,
        merged(a, b).value == a.value,
        merged(a, b).x == a.x,
        merged(a, b).y == a.y,
        merged(a, b).attributes.dom() == a.attributes.dom().union(b.attributes.dom()),
        forall|k: Seq<char>| b.attributes.contains_key(k) ==> #[trigger] merged(a, b).attributes[k] == b.attributes[k],
        forall|k: Seq<char>| a.attributes.contains_key(k) && !b.attributes.contains_key(k)
            ==> #[trigger] merged(a, b).attributes[k] == a.attributes[k],
        a.confidence != Confidence::Data ==> merged(a, b).confidence == a.confidence,
        a.confidence == Confidence::Data ==> merged(a, b).confidence == b.confidence,
        merged(a, b).timestamp == a.timestamp || merged(a, b).timestamp == b.timestamp,
{
    assert(merged(a, b).attributes.dom() =~= a.attributes.dom().union(b.attributes.dom()));
}

/// A new entity of a kind other than domain or e-mail keeps its value as
/// given, only surrounding white space removed: the value is one unbroken
/// stretch of the given text (letters keep their case), only white space
/// lies around it, and it neither starts nor ends with white space. Its
/// identifier is the name-based UUID of `kind:` and that value.
pub proof fn law_other_kinds_only_trimmed(kind: Seq<char>, value: Seq<char>, source: Seq<char>, timestamp: i64)
    requires
        kind != "domain"@,
        kind != "email"@,
    ensures
        exists|i: int, j: int| 0 <= i <= j <= value.len()
            && #[trigger] value.subrange(i, j) == fresh_node(kind, value, source, timestamp).value
            && (forall|k: int| 0 <= k < i ==> is_white_space(#[trigger] value[k]))
            && (forall|k: int| j <= k < value.len() ==> is_white_space(#[trigger] value[k])),
        fresh_node(kind, value, source, timestamp).value.len() > 0 ==> !is_white_space(fresh_node(kind, value, source, timestamp).value[0])
            && !is_white_space(fresh_node(kind, value, source, timestamp).value.last()),
        fresh_node(kind, value, source, timestamp).id == uuid_v5_url(kind + ":"@ + fresh_node(kind, value, source, timestamp).value),
{
    let v = fresh_node(kind, value, source, timestamp).value;
    let i = lemma_trim_start_cut(value);
    let rest = value.subrange(i, value.len() as int);
    let j = lemma_trim_end_cut(rest);
    assert(v == trim_end_spec(trim_start_spec(value)));
    assert(v == rest.subrange(0, j));
    assert(rest.subrange(0, j) =~= value.subrange(i, i + j));
    assert forall|k: int| i + j <= k < value.len() implies is_white_space(#[trigger] value[k]) by {
        assert(value[k] == rest[k - i]);
    }
    if v.len() > 0 {
        assert(v[0] == rest[0]);
        assert(v.last() == rest[j - 1]);
    }
    assert(value.subrange(i, i + j) == v);
}

/// A new domain or e-mail address is the given text with surrounding
/// white space and then trailing dots removed, in lower case: the lowered
/// text is one unbroken stretch of the given one, with only white space
/// before it and only dots and white space after it, and it neither starts
/// with white space nor ends with a dot.
pub proof fn law_domains_trimmed_and_lowered(kind: Seq<char>, value: Seq<char>, source: Seq<char>, timestamp: i64)
    requires
        kind == "domain"@ || kind == "email"@,
    ensures
        exists|i: int, j: int| 0 <= i <= j <= value.len()
            && #[trigger] lowercase_of(value.subrange(i, j)) == fresh_node(kind, value, source, timestamp).value
            && (forall|k: int| 0 <= k < i ==> is_white_space(#[trigger] value[k]))
            && (forall|k: int| j <= k < value.len() ==> is_white_space(#[trigger] value[k]) || value[k] == '.')
            && (j > i ==> !is_white_space(value[i]) && value[j - 1] != '.'),
{
    let i = lemma_trim_start_cut(value);
    let rest = value.subrange(i, value.len() as int);
    let j = lemma_trim_end_cut(rest);
    let t = rest.subrange(0, j);
    let d = lemma_trim_end_char_cut(t, '.');
    assert(trim_spec(value) == t);
    assert(t.subrange(0, d) =~= value.subrange(i, i + d));
    assert forall|k: int| i + d <= k < value.len() implies is_white_space(#[trigger] value[k]) || value[k] == '.' by {
        if k < i + j {
            assert(value[k] == t[k - i]);
        } else {
            assert(value[k] == rest[k - i]);
        }
    }
    if d > 0 {
        assert(value[i] == t[0]);
        assert(value[i + d - 1] == t[d - 1]);
        assert(t[0] == rest[0]);
    }
    assert(lowercase_of(value.subrange(i, i + d)) == fresh_node(kind, value, source, timestamp).value);
}

/// Entities are identified by kind and normalised value alone: two values
/// of a kind that normalise alike give the same identifier, whatever
/// reported them and whenever.
pub proof fn law_entity_identity(kind: Seq<char>, a: Seq<char>, b: Seq<char>, sa: Seq<char>, sb: Seq<char>, ta: i64, tb: i64)
    requires
        normalized_value(kind, a) == normalized_value(kind, b),
    ensures
        fresh_node(kind, a, sa, ta).id == fresh_node(kind, b, sb, tb).id,
        fresh_node(kind, a, sa, ta).value == fresh_node(kind, b, sb, tb).value,
{
}

} // verus!
