//! The key vault: API keys by source, held in memory while unlocked, wiped
//! when replaced or locked, and kept on disk only as an age file encrypted
//! with a passphrase.

use vstd::prelude::*;
use vstd::utf8::encode_utf8;
use crate::text::text_less;
use crate::codec::{json_quote, json_string};
use crate::export::{member_views, object_json, object_text};
use crate::model::{lemma_sorted_text_set_exists, TextPair, distinct_keys, lemma_pairs_map, lemma_pairs_map_push, lemma_pairs_map_update, pairs_map,
    sorted_members, sorted_text_set, strictly_sorted, text_pairs, texts, insert_sorted, lemma_sorted_text_set, utf8_len};

verus! {

/// Why the vault refuses to save or to unlock.
#[derive(Clone, Copy, Debug, PartialEq, Eq, Structural)]
pub enum VaultError {
    ShortPassphrase,
    TooLarge,
    Encryption,
    Decryption,
    Corrupt,
}

/// The message shown for a refusal.
pub open spec fn vault_message(e: VaultError) -> Seq<char> {
    match e {
        VaultError::ShortPassphrase => "passphrase must contain at least 12 characters"@,
        VaultError::TooLarge => "vault too large"@,
        VaultError::Encryption => "vault encryption failed"@,
        VaultError::Decryption => "vault decryption failed"@,
        VaultError::Corrupt => "vault contents are not a key map"@,
    }
}

impl VaultError {
    /// The message shown for this refusal.
    pub fn message(&self) -> (m: &'static str)
        ensures
            m@ == vault_message(*self),
    {
        match self {
            VaultError::ShortPassphrase => "passphrase must contain at least 12 characters",
            VaultError::TooLarge => "vault too large",
            VaultError::Encryption => "vault encryption failed",
            VaultError::Decryption => "vault decryption failed",
            VaultError::Corrupt => "vault contents are not a key map",
        }
    }
}

/// `zeroize::Zeroize::zeroize` on a string: its bytes are overwritten with
/// zeros and it is left empty.
#[verifier::external_body]
fn wipe(s: &mut String)
    ensures
        final(s)@.len() == 0,
{
    zeroize::Zeroize::zeroize(s);
}

/// The plaintext an age file holds for a passphrase: what decrypting it
/// with that passphrase gives whenever decryption succeeds (age encryption
/// is authenticated, so that depends on the file and the passphrase alone).
pub uninterp spec fn age_plaintext(ciphertext: Seq<u8>, passphrase: Seq<char>) -> Seq<u8>;

/// `age::encrypt` to an `age::scrypt::Recipient` for the passphrase: an
/// age file that holds `plaintext` for the passphrase (`None` if writing it
/// failed). The random salt and file key, and the scrypt work factor picked
/// for this machine, make the bytes differ from call to call; only what the
/// file holds is stated.
#[verifier::external_body]
fn age_encrypt(plaintext: &[u8], passphrase: &str) -> (r: Option<Vec<u8>>)
    ensures
        r matches Some(c) ==> age_plaintext(c@, passphrase@) == plaintext@,
{
    let recipient = age::scrypt::Recipient::new(age::secrecy::SecretString::from(passphrase.to_owned()));
    age::encrypt(&recipient, plaintext).ok()
}

/// `age::decrypt` with an `age::scrypt::Identity` for the passphrase: the
/// plaintext, or `None` when the file is malformed, the passphrase wrong,
/// the data tampered with, or the file's work factor beyond what this
/// machine accepts. Whether it opens depends on the machine's speed, so
/// success is not stated; what it gives when it opens is `age_plaintext`.
#[verifier::external_body]
fn age_decrypt(ciphertext: &[u8], passphrase: &str) -> (r: Option<Vec<u8>>)
    ensures
        r matches Some(p) ==> p@ == age_plaintext(ciphertext@, passphrase@),
{
    let identity = age::scrypt::Identity::new(age::secrecy::SecretString::from(passphrase.to_owned()));
    age::decrypt(&identity, ciphertext).ok()
}

/// The (source, key) pairs a vault plaintext holds, or `None` when it is
/// no JSON object of strings.
pub uninterp spec fn secrets_parsed(plaintext: Seq<u8>) -> Option<Seq<TextPair>>;

/// The JSON object (UTF-8 text) of the (source, key) pairs `ps`, each key
/// written as a JSON string, in the order of `ps`.
pub open spec fn secrets_text(ps: Seq<TextPair>) -> Seq<char> {
    object_text(ps.map_values(|p: TextPair| (p.0, json_string(p.1))))
}

/// The sources of pairs, in order.
pub open spec fn pair_keys(ps: Seq<TextPair>) -> Seq<Seq<char>> {
    ps.map_values(|p: TextPair| p.0)
}

/// `serde_json::from_slice` into a `BTreeMap<String, String>`, its entries
/// handed out in key order. A JSON object whose members are string values
/// written by `serde_json`, under keys strictly in order, reads back as
/// those very pairs.
#[verifier::external_body]
fn parse_secrets(plaintext: &[u8]) -> (r: Option<Vec<(String, String)>>)
    ensures
        match secrets_parsed(plaintext@) {
            Some(ps) => r is Some && text_pairs(r->Some_0@) == ps,
            None => r is None,
        },
        forall|ps: Seq<TextPair>| strictly_sorted(pair_keys(ps)) && #[trigger] encode_utf8(secrets_text(ps)) == plaintext@
            ==> r is Some && text_pairs(r->Some_0@) == ps,
{
    match serde_json::from_slice::<std::collections::BTreeMap<String, String>>(plaintext) {
        Ok(m) => Some(m.into_iter().collect()),
        Err(_) => None,
    }
}

/// The API keys held, by source.
pub struct Vault {
    keys: Vec<(String, String)>,
}

impl View for Vault {
    type V = Map<Seq<char>, Seq<char>>;

    closed spec fn view(&self) -> Map<Seq<char>, Seq<char>> {
        pairs_map(text_pairs(self.keys@))
    }
}

/// The plaintext a vault is saved as: a JSON object from source to key, in
/// the order of the sources.
pub open spec fn plaintext_spec(m: Map<Seq<char>, Seq<char>>) -> Seq<char> {
    secrets_text(sorted_members(m))
}

/// The bytes a vault holding `m` is saved as: its plaintext in UTF-8.
pub open spec fn vault_bytes(m: Map<Seq<char>, Seq<char>>) -> Seq<u8> {
    encode_utf8(plaintext_spec(m))
}

/// Whether unlocking the age file `c` with passphrase `p` reopens exactly
/// `keys`: the keys its plaintext holds, which are those of any vault whose
/// saved bytes it is.
pub open spec fn reopens(c: Seq<u8>, p: Seq<char>, keys: Map<Seq<char>, Seq<char>>) -> bool {
    &&& holds_keys(age_plaintext(c, p), keys)
    &&& forall|m: Map<Seq<char>, Seq<char>>| m.dom().finite() && #[trigger] vault_bytes(m) == age_plaintext(c, p) ==> keys == m
}

/// Whether `plaintext` holds exactly the keys `m`.
pub open spec fn holds_keys(plaintext: Seq<u8>, m: Map<Seq<char>, Seq<char>>) -> bool {
    match secrets_parsed(plaintext) {
        Some(ps) => m == pairs_map(ps),
        None => false,
    }
}

/// A passphrase is accepted from 12 bytes on.
pub open spec fn passphrase_ok(p: Seq<char>) -> bool {
    utf8_len(p) >= 12
}

/// A vault file is read up to 1 MiB.
pub open spec fn size_ok(len: u64) -> bool {
    len <= 1024 * 1024
}

proof fn lemma_sorted_members(m: Map<Seq<char>, Seq<char>>)
    requires
        m.dom().finite(),
    ensures
        strictly_sorted(pair_keys(sorted_members(m))),
        distinct_keys(sorted_members(m)),
        pairs_map(sorted_members(m)) == m,
{
    m.dom().lemma_to_seq_to_set_id();
    lemma_sorted_text_set_exists(m.dom().to_seq());
    let order = sorted_text_set(m.dom());
    let ps = sorted_members(m);
    assert(pair_keys(ps) =~= order);
    assert(distinct_keys(ps)) by {
        assert forall|i: int, j: int| 0 <= i < j < ps.len() implies (#[trigger] ps[i]).0 != (#[trigger] ps[j]).0 by {
            assert(text_less(order[i], order[j]));
            crate::text::lemma_text_less_irreflexive(order[i]);
        }
    }
    lemma_pairs_map(ps);
    assert forall|k: Seq<char>| #[trigger] pairs_map(ps).contains_key(k) <==> m.dom().contains(k) by {
        if m.dom().contains(k) {
            assert(order.to_set().contains(k));
            let i = choose|i: int| 0 <= i < order.len() && order[i] == k;
            assert(ps[i].0 == k);
        }
        if pairs_map(ps).contains_key(k) {
            let i = choose|i: int| 0 <= i < ps.len() && ps[i].0 == k;
            assert(order[i] == k);
            assert(order.to_set().contains(order[i]));
        }
    }
    assert forall|k: Seq<char>| #[trigger] pairs_map(ps).contains_key(k) implies pairs_map(ps)[k] == m[k] by {
        let i = choose|i: int| 0 <= i < ps.len() && ps[i].0 == k;
        assert(pairs_map(ps)[ps[i].0] == ps[i].1);
    }
    assert(pairs_map(ps) =~= m);
}

/// Whether a vault file of `file_len` bytes is read: refused over 1 MiB.
pub fn check_size(file_len: u64) -> (r: Result<(), VaultError>)
    ensures
        r == if size_ok(file_len) { Ok::<(), VaultError>(()) } else { Err(VaultError::TooLarge) },
{
    if file_len > 1024 * 1024 {
        Err(VaultError::TooLarge)
    } else {
        Ok(())
    }
}

impl Default for Vault {
    fn default() -> (v: Self)
        ensures
            v@ == Map::<Seq<char>, Seq<char>>::empty(),
    {
        let v = Vault { keys: Vec::new() };
        assert(text_pairs(v.keys@) =~= Seq::<TextPair>::empty());
        assert(v@ =~= Map::<Seq<char>, Seq<char>>::empty());
        v
    }
}

impl Vault {
    #[verifier::type_invariant]
    spec fn sources_distinct(&self) -> bool {
        distinct_keys(text_pairs(self.keys@))
    }

    /// Holds `key` for `source`, wiping the key it replaces.
    pub fn set(&mut self, source: String, key: String)
        ensures
            final(self)@ == old(self)@.insert(source@, key@),
    {
        proof {
            use_type_invariant(&*self);
        }
        let ghost before = text_pairs(self.keys@);
        let mut i: usize = 0;
        while i < self.keys.len() && !(self.keys[i].0 == source)
            invariant
                text_pairs(self.keys@) == before,
                i <= self.keys.len(),
                forall|j: int| 0 <= j < i ==> (#[trigger] before[j]).0 != source@,
            decreases self.keys.len() - i,
        {
            i = i + 1;
        }
        let mut keys: Vec<(String, String)> = Vec::new();
        std::mem::swap(&mut keys, &mut self.keys);
        if i < keys.len() && keys[i].0 == source {
            let (_, mut old) = keys.remove(i);
            wipe(&mut old);
            keys.insert(i, (source, key));
            assert(text_pairs(keys@) =~= before.update(i as int, (before[i as int].0, key@)));
            proof {
                lemma_pairs_map_update(before, i as int, key@);
            }
        } else {
            keys.push((source, key));
            assert(text_pairs(keys@) =~= before.push((source@, key@)));
            proof {
                lemma_pairs_map_push(before, source@, key@);
            }
        }
        self.keys = keys;
    }

    /// The key held for `source`, if any.
    pub fn get(&self, source: &str) -> (r: Option<String>)
        ensures
            r.is_some() == self@.contains_key(source@),
            r.is_some() ==> r.unwrap()@ == self@[source@],
    {
        proof {
            use_type_invariant(self);
            lemma_pairs_map(text_pairs(self.keys@));
        }
        let ghost ps = text_pairs(self.keys@);
        let mut i: usize = 0;
        while i < self.keys.len()
            invariant
                ps == text_pairs(self.keys@),
                i <= self.keys.len(),
                forall|j: int| 0 <= j < i ==> (#[trigger] ps[j]).0 != source@,
            decreases self.keys.len() - i,
        {
            if crate::text::same_text(self.keys[i].0.as_str(), source) {
                proof {
                    use_type_invariant(self);
                    lemma_pairs_map(ps);
                }
                assert(ps[i as int].0 == source@);
                return Some(self.keys[i].1.clone());
            }
            i = i + 1;
        }
        proof {
            use_type_invariant(self);
            lemma_pairs_map(ps);
        }
        None
    }

    /// Wipes and forgets every key.
    pub fn lock(&mut self)
        ensures
            final(self)@ == Map::<Seq<char>, Seq<char>>::empty(),
    {
        let mut keys: Vec<(String, String)> = Vec::new();
        std::mem::swap(&mut keys, &mut self.keys);
        while keys.len() > 0
            decreases keys.len(),
        {
            let (_, mut old) = keys.pop().unwrap();
            wipe(&mut old);
        }
        assert(text_pairs(self.keys@) =~= Seq::<TextPair>::empty());
        assert(self@ =~= Map::<Seq<char>, Seq<char>>::empty());
    }

    /// The plaintext the vault is saved as.
    pub fn plaintext(&self) -> (r: String)
        ensures
            r@ == plaintext_spec(self@),
    {
        let ghost m = self@;
        proof {
            use_type_invariant(self);
            lemma_pairs_map(text_pairs(self.keys@));
        }
        let mut sources: Vec<String> = Vec::new();
        let mut i: usize = 0;
        let ghost ps = text_pairs(self.keys@);
        assert(texts(sources@).to_set() =~= Set::<Seq<char>>::empty());
        while i < self.keys.len()
            invariant
                ps == text_pairs(self.keys@),
                m == pairs_map(ps),
                i <= self.keys.len(),
                strictly_sorted(texts(sources@)),
                forall|k: Seq<char>| #[trigger] texts(sources@).to_set().contains(k)
                    <==> exists|j: int| 0 <= j < i && ps[j].0 == k,
            decreases self.keys.len() - i,
        {
            let ghost before = texts(sources@).to_set();
            insert_sorted(&mut sources, self.keys[i].0.clone());
            assert forall|k: Seq<char>| #[trigger] texts(sources@).to_set().contains(k)
                <==> exists|j: int| 0 <= j < i + 1 && ps[j].0 == k by {
                if texts(sources@).to_set().contains(k) && k != ps[i as int].0 {
                    assert(before.contains(k));
                }
            }
            i = i + 1;
        }
        assert(texts(sources@).to_set() =~= m.dom());
        proof {
            lemma_sorted_text_set(texts(sources@));
        }
        let ghost order = sorted_text_set(m.dom());
        let ghost target = sorted_members(m).map_values(|p: TextPair| (p.0, json_string(p.1)));
        let mut members: Vec<(String, String)> = Vec::new();
        let mut j: usize = 0;
        while j < sources.len()
            invariant
                m == self@,
                texts(sources@) == order,
                order.len() == sources.len(),
                order.to_set() == m.dom(),
                target == sorted_members(m).map_values(|p: TextPair| (p.0, json_string(p.1))),
                sorted_members(m) == order.map_values(|k: Seq<char>| (k, m[k])),
                j <= sources.len(),
                member_views(members@) == target.take(j as int),
            decreases sources.len() - j,
        {
            assert(texts(sources@)[j as int] == sources@[j as int]@);
            assert(order.to_set().contains(order[j as int]));
            let value = match self.get(sources[j].as_str()) {
                Some(v) => v,
                None => String::new(),
            };
            let ghost prev = members@;
            members.push((sources[j].clone(), json_quote(value.as_str())));
            assert(target[j as int] == (order[j as int], json_string(m[order[j as int]])));
            assert(member_views(members@) =~= member_views(prev).push(target[j as int]));
            assert(target.take(j + 1) =~= target.take(j as int).push(target[j as int]));
            j = j + 1;
        }
        assert(target.take(j as int) =~= target);
        object_json(&members)
    }

    /// The age file the vault is saved as: refused for a passphrase under 12
    /// bytes.
    pub fn seal(&self, passphrase: &str) -> (r: Result<Vec<u8>, VaultError>)
        ensures
            !passphrase_ok(passphrase@) ==> r == Err::<Vec<u8>, VaultError>(VaultError::ShortPassphrase),
            passphrase_ok(passphrase@) ==> r is Ok || r == Err::<Vec<u8>, VaultError>(VaultError::Encryption),
            r matches Ok(c) ==> age_plaintext(c@, passphrase@) == vault_bytes(self@),
    {
        if passphrase.len() < 12 {
            return Err(VaultError::ShortPassphrase);
        }
        let mut text = self.plaintext();
        let r = match age_encrypt(text.as_str().as_bytes(), passphrase) {
            Some(c) => Ok(c),
            None => Err(VaultError::Encryption),
        };
        wipe(&mut text);
        r
    }

    /// Replaces the keys by those of a decrypted vault `plaintext`; refused,
    /// with the keys left as they were, when it holds no key map.
    pub fn load(&mut self, plaintext: &[u8]) -> (r: Result<(), VaultError>)
        ensures
            match secrets_parsed(plaintext@) {
                Some(ps) => r is Ok && final(self)@ == pairs_map(ps),
                None => r == Err::<(), VaultError>(VaultError::Corrupt) && final(self)@ == old(self)@,
            },
            forall|m: Map<Seq<char>, Seq<char>>| m.dom().finite() && #[trigger] vault_bytes(m) == plaintext@
                ==> secrets_parsed(plaintext@) is Some && pairs_map(secrets_parsed(plaintext@)->Some_0) == m,
    {
        let parsed = parse_secrets(plaintext);
        assert forall|m: Map<Seq<char>, Seq<char>>| m.dom().finite() && #[trigger] vault_bytes(m) == plaintext@
            implies secrets_parsed(plaintext@) is Some && pairs_map(secrets_parsed(plaintext@)->Some_0) == m by {
            lemma_sorted_members(m);
            assert(encode_utf8(secrets_text(sorted_members(m))) == plaintext@);
        }
        let values = match parsed {
            Some(v) => v,
            None => return Err(VaultError::Corrupt),
        };
        let ghost ps = text_pairs(values@);
        self.lock();
        let mut i: usize = 0;
        assert(pairs_map(ps.take(0)) =~= Map::<Seq<char>, Seq<char>>::empty());
        while i < values.len()
            invariant
                ps == text_pairs(values@),
                i <= values.len(),
                self@ == pairs_map(ps.take(i as int)),
            decreases values.len() - i,
        {
            self.set(values[i].0.clone(), values[i].1.clone());
            assert(ps.take(i + 1).drop_last() =~= ps.take(i as int));
            i = i + 1;
        }
        assert(ps.take(i as int) =~= ps);
        Ok(())
    }

    /// Unlocks an age file of `file_len` bytes, `ciphertext` being its
    /// contents: refused over 1 MiB and when the passphrase does not open
    /// it, the keys left as they were; else `load` on what it holds.
    pub fn unseal(&mut self, file_len: u64, ciphertext: &[u8], passphrase: &str) -> (r: Result<(), VaultError>)
        ensures
            !size_ok(file_len) ==> r == Err::<(), VaultError>(VaultError::TooLarge) && final(self)@ == old(self)@,
            size_ok(file_len) ==> r is Ok || r == Err::<(), VaultError>(VaultError::Decryption)
                || r == Err::<(), VaultError>(VaultError::Corrupt),
            r is Err ==> final(self)@ == old(self)@,
            r is Ok ==> reopens(ciphertext@, passphrase@, final(self)@),
            r == Err::<(), VaultError>(VaultError::Corrupt) ==> secrets_parsed(age_plaintext(ciphertext@, passphrase@)) is None,
    {
        if let Err(e) = check_size(file_len) {
            return Err(e);
        }
        let plaintext = match age_decrypt(ciphertext, passphrase) {
            Some(p) => p,
            None => return Err(VaultError::Decryption),
        };
        let r = self.load(plaintext.as_slice());
        r
    }
}

/// Saving and then unlocking with the same passphrase gives back the same
/// keys: when `seal` gave the file `c` for a vault holding `saved` and
/// `unseal` of `c` with that passphrase left `reopened`, the two are equal.
pub proof fn law_vault_round_trip(saved: Map<Seq<char>, Seq<char>>, c: Seq<u8>, passphrase: Seq<char>, reopened: Map<Seq<char>, Seq<char>>)
    requires
        saved.dom().finite(),
        age_plaintext(c, passphrase) == vault_bytes(saved),
        reopens(c, passphrase, reopened),
    ensures
        reopened == saved,
{
}

/// A vault's keys are finitely many.
pub proof fn lemma_vault_finite(v: &Vault)
    ensures
        v@.dom().finite(),
{
    lemma_pairs_map_finite(text_pairs(v.keys@));
}

proof fn lemma_pairs_map_finite(ps: Seq<TextPair>)
    ensures
        pairs_map(ps).dom().finite(),
    decreases ps.len(),
{
    if ps.len() > 0 {
        lemma_pairs_map_finite(ps.drop_last());
    }
}

} // verus!
