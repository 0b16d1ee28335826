//! An ordered map from strings to strings, kept as a vector of entries whose
//! keys are strictly increasing; it iterates in key order, as a `BTreeMap`
//! of strings does.
use vstd::prelude::*;

use crate::text::{chars_of, compare_chars, lemma_seq_lt_asymmetric, lemma_seq_lt_irreflexive,
    lemma_seq_lt_total, lemma_seq_lt_transitive, seq_lt, Order};

verus! {

/// A sequence of key/value pairs whose keys strictly increase.
pub open spec fn keys_increasing(s: Seq<(Seq<char>, Seq<char>)>) -> bool {
    forall|i: int, j: int| 0 <= i < j < s.len() ==> seq_lt(#[trigger] s[i].0, #[trigger] s[j].0)
}

/// Whether some pair of `s` has key `k`.
pub open spec fn has_key(s: Seq<(Seq<char>, Seq<char>)>, k: Seq<char>) -> bool {
    exists|i: int| 0 <= i < s.len() && #[trigger] s[i].0 == k
}

/// A position of a pair of `s` with key `k`.
pub open spec fn key_index(s: Seq<(Seq<char>, Seq<char>)>, k: Seq<char>) -> int {
    choose|i: int| 0 <= i < s.len() && #[trigger] s[i].0 == k
}

/// The map that a sequence of pairs with distinct keys describes.
pub open spec fn map_of(s: Seq<(Seq<char>, Seq<char>)>) -> Map<Seq<char>, Seq<char>> {
    Map::new(|k: Seq<char>| has_key(s, k), |k: Seq<char>| s[key_index(s, k)].1)
}

/// The map obtained by inserting the pairs of `s` one after the other into an
/// empty map, a later pair replacing an earlier one with the same key.
pub open spec fn map_of_assignments(s: Seq<(Seq<char>, Seq<char>)>) -> Map<Seq<char>, Seq<char>>
    decreases s.len(),
{
    if s.len() == 0 {
        Map::empty()
    } else {
        map_of_assignments(s.drop_last()).insert(s.last().0, s.last().1)
    }
}

/// The views of string pairs.
pub open spec fn pair_views(v: Seq<(String, String)>) -> Seq<(Seq<char>, Seq<char>)> {
    v.map_values(|e: (String, String)| (e.0@, e.1@))
}

proof fn lemma_keys_distinct(s: Seq<(Seq<char>, Seq<char>)>, i: int, j: int)
    requires
        keys_increasing(s),
        0 <= i < s.len(),
        0 <= j < s.len(),
        s[i].0 == s[j].0,
    ensures
        i == j,
{
    if i < j {
        assert(seq_lt(s[i].0, s[j].0));
        lemma_seq_lt_irreflexive(s[i].0);
    } else if j < i {
        assert(seq_lt(s[j].0, s[i].0));
        lemma_seq_lt_irreflexive(s[i].0);
    }
}

/// In a sequence with increasing keys, the map holds each pair.
pub proof fn lemma_map_of_entry(s: Seq<(Seq<char>, Seq<char>)>, i: int)
    requires
        keys_increasing(s),
        0 <= i < s.len(),
    ensures
        map_of(s).contains_key(s[i].0),
        map_of(s)[s[i].0] == s[i].1,
{
    let k = s[i].0;
    assert(has_key(s, k)) by {
        assert(s[i].0 == k);
    }
    let j = key_index(s, k);
    lemma_keys_distinct(s, i, j);
    assert(map_of(s).contains_key(k));
    assert(map_of(s)[k] == s[j].1);
}

/// In a sequence with increasing keys, the map of the first `i + 1` pairs
/// is that of the first `i` with pair `i` added, under a key it did not have.
pub proof fn lemma_map_of_take_push(s: Seq<(Seq<char>, Seq<char>)>, i: int)
    requires
        keys_increasing(s),
        0 <= i < s.len(),
    ensures
        !map_of(s.take(i)).contains_key(s[i].0),
        map_of(s.take(i + 1)) == map_of(s.take(i)).insert(s[i].0, s[i].1),
{
    let a = s.take(i);
    let b = s.take(i + 1);
    assert(keys_increasing(b));
    assert(keys_increasing(a));
    if has_key(a, s[i].0) {
        let j = key_index(a, s[i].0);
        assert(seq_lt(s[j].0, s[i].0));
        lemma_seq_lt_irreflexive(s[i].0);
    }
    assert forall|k: Seq<char>| #[trigger] map_of(b).contains_key(k) <==> map_of(a).insert(
        s[i].0,
        s[i].1,
    ).contains_key(k) by {
        if has_key(b, k) && k != s[i].0 {
            let j = key_index(b, k);
            assert(j != i);
            assert(a[j].0 == k);
        }
        if has_key(a, k) {
            let j = key_index(a, k);
            assert(b[j].0 == k);
        }
        if k == s[i].0 {
            assert(b[i].0 == k);
        }
    }
    assert forall|k: Seq<char>| #[trigger] map_of(b).contains_key(k) implies map_of(b)[k]
        == map_of(a).insert(s[i].0, s[i].1)[k] by {
        let j = key_index(b, k);
        lemma_map_of_entry(b, j);
        if j < i {
            assert(a[j] == b[j]);
            lemma_map_of_entry(a, j);
        }
    }
    assert(map_of(b) =~= map_of(a).insert(s[i].0, s[i].1));
}

/// The position of the first entry whose key is not smaller than `key`.
fn lower_bound(entries: &Vec<(String, String)>, key: &[char]) -> (i: usize)
    requires
        keys_increasing(pair_views(entries@)),
    ensures
        i <= entries@.len(),
        forall|j: int| 0 <= j < i ==> seq_lt(#[trigger] pair_views(entries@)[j].0, key@),
        forall|j: int|
            i <= j < entries@.len() ==> !seq_lt(#[trigger] pair_views(entries@)[j].0, key@),
{
    let ghost s = pair_views(entries@);
    let n = entries.len();
    let mut i: usize = 0;
    while i < n
        invariant
            n == entries@.len(),
            s == pair_views(entries@),
            keys_increasing(s),
            i <= n,
            forall|j: int| 0 <= j < i ==> seq_lt(#[trigger] s[j].0, key@),
        decreases n - i,
    {
        let ec = chars_of(entries[i].0.as_str());
        assert(s[i as int].0 == ec@);
        if compare_chars(ec.as_slice(), key) != Order::Less {
            assert forall|j: int| i <= j < s.len() implies !seq_lt(#[trigger] s[j].0, key@) by {
                if j > i {
                    assert(seq_lt(s[i as int].0, s[j].0));
                    if seq_lt(s[j].0, key@) {
                        lemma_seq_lt_transitive(s[i as int].0, s[j].0, key@);
                    }
                }
            }
            return i;
        }
        i = i + 1;
    }
    i
}

/// An ordered map from strings to strings.
#[derive(Debug, PartialEq, Eq)]
pub struct StrMap {
    entries: Vec<(String, String)>,
}

impl View for StrMap {
    type V = Map<Seq<char>, Seq<char>>;

    closed spec fn view(&self) -> Map<Seq<char>, Seq<char>> {
        map_of(pair_views(self.entries@))
    }
}

impl StrMap {
    #[verifier::type_invariant]
    closed spec fn wf(&self) -> bool {
        keys_increasing(pair_views(self.entries@))
    }

    /// An empty map.
    pub fn new() -> (m: StrMap)
        ensures
            m@ == Map::<Seq<char>, Seq<char>>::empty(),
    {
        let m = StrMap { entries: Vec::new() };
        assert(m@ =~= Map::<Seq<char>, Seq<char>>::empty());
        m
    }

    /// The number of keys.
    pub fn len(&self) -> (n: usize)
        ensures
            n == self@.len(),
    {
        proof {
            use_type_invariant(self);
            self.lemma_len();
        }
        self.entries.len()
    }

    proof fn lemma_len(&self)
        requires
            self.wf(),
        ensures
            self@.dom().finite(),
            self@.len() == self.entries@.len(),
    {
        let s = pair_views(self.entries@);
        let keys = s.map_values(|e: (Seq<char>, Seq<char>)| e.0);
        assert(self@.dom() =~= keys.to_set()) by {
            assert forall|k| self@.dom().contains(k) implies keys.to_set().contains(k) by {
                let i = choose|i: int| 0 <= i < s.len() && #[trigger] s[i].0 == k;
                assert(keys[i] == k);
            }
            assert forall|k| keys.to_set().contains(k) implies self@.dom().contains(k) by {
                let i = choose|i: int| 0 <= i < keys.len() && keys[i] == k;
                assert(s[i].0 == k);
            }
        }
        assert(keys.no_duplicates()) by {
            assert forall|i: int, j: int| 0 <= i < keys.len() && 0 <= j < keys.len() && i != j
                implies keys[i] != keys[j] by {
                if keys[i] == keys[j] {
                    lemma_keys_distinct(s, i, j);
                }
            }
        }
        keys.unique_seq_to_set();
    }

    /// The value stored under `key`, if any.
    pub fn get(&self, key: &str) -> (r: Option<String>)
        ensures
            r is Some <==> self@.contains_key(key@),
            r matches Some(v) ==> v@ == self@[key@],
    {
        proof {
            use_type_invariant(self);
        }
        let ghost s = pair_views(self.entries@);
        let k = key.to_owned();
        let n = self.entries.len();
        for i in 0..n
            invariant
                n == self.entries@.len(),
                s == pair_views(self.entries@),
                keys_increasing(s),
                k@ == key@,
                forall|j: int| 0 <= j < i ==> s[j].0 != key@,
        {
            if self.entries[i].0 == k {
                proof {
                    lemma_map_of_entry(s, i as int);
                }
                return Some(self.entries[i].1.clone());
            }
        }
        assert(!self@.contains_key(key@));
        None
    }

    /// Stores `value` under `key`, replacing any earlier value.
    pub fn insert(&mut self, key: String, value: String)
        ensures
            final(self)@ == old(self)@.insert(key@, value@),
    {
        proof {
            use_type_invariant(&*self);
        }
        let mut entries: Vec<(String, String)> = Vec::new();
        std::mem::swap(&mut entries, &mut self.entries);
        let ghost s = pair_views(entries@);
        let ghost old_map = map_of(s);
        assert(old_map == old(self)@);
        let kc = chars_of(key.as_str());
        let n = entries.len();
        let i = lower_bound(&entries, kc.as_slice());
        let ghost kv = (key@, value@);
        if i < n && entries[i].0 == key {
            assert(s[i as int].0 == key@);
            entries.set(i, (key, value));
            let ghost t = pair_views(entries@);
            assert(t =~= s.update(i as int, kv));
            assert(keys_increasing(t)) by {
                assert forall|a: int, b: int| 0 <= a < b < t.len() implies seq_lt(
                    #[trigger] t[a].0,
                    #[trigger] t[b].0,
                ) by {
                    assert(s[a].0 == t[a].0);
                    assert(s[b].0 == t[b].0);
                }
            }
            assert(map_of(t) =~= old_map.insert(kv.0, kv.1)) by {
                assert forall|k| #[trigger] map_of(t).contains_key(k) == old_map.insert(
                    kv.0,
                    kv.1,
                ).contains_key(k) by {
                    if map_of(t).contains_key(k) {
                        let j = key_index(t, k);
                        assert(s[j].0 == k);
                    }
                    if old_map.contains_key(k) {
                        let j = key_index(s, k);
                        assert(t[j].0 == k);
                    }
                }
                assert forall|k| #[trigger] map_of(t).contains_key(k) implies map_of(t)[k]
                    == old_map.insert(kv.0, kv.1)[k] by {
                    let j = key_index(t, k);
                    lemma_map_of_entry(t, j);
                    if j != i {
                        lemma_map_of_entry(s, j);
                        assert(s[j].0 == k);
                        if k == kv.0 {
                            lemma_keys_distinct(t, i as int, j);
                        }
                    }
                }
            }
            self.entries = entries;
        } else {
            proof {
                if i < n {
                    lemma_seq_lt_total(s[i as int].0, key@);
                }
            }
            entries.insert(i, (key, value));
            let ghost t = pair_views(entries@);
            assert(t =~= s.insert(i as int, kv));
            assert(keys_increasing(t)) by {
                assert forall|a: int, b: int| 0 <= a < b < t.len() implies seq_lt(
                    #[trigger] t[a].0,
                    #[trigger] t[b].0,
                ) by {
                    if b < i {
                        assert(t[a] == s[a] && t[b] == s[b]);
                    } else if b == i {
                        assert(t[a] == s[a]);
                    } else if a == i {
                        assert(t[b] == s[b - 1]);
                        if b - 1 > i {
                            assert(seq_lt(s[i as int].0, s[b - 1].0));
                            lemma_seq_lt_transitive(key@, s[i as int].0, s[b - 1].0);
                        }
                    } else if a < i {
                        assert(t[a] == s[a] && t[b] == s[b - 1]);
                        assert(seq_lt(s[a].0, key@));
                        if b - 1 > i {
                            assert(seq_lt(s[i as int].0, s[b - 1].0));
                            lemma_seq_lt_transitive(key@, s[i as int].0, s[b - 1].0);
                        }
                        lemma_seq_lt_transitive(s[a].0, key@, s[b - 1].0);
                    } else {
                        assert(t[a] == s[a - 1] && t[b] == s[b - 1]);
                    }
                }
            }
            assert(!old_map.contains_key(key@)) by {
                if old_map.contains_key(key@) {
                    let j = key_index(s, key@);
                    if j < i {
                        lemma_seq_lt_irreflexive(key@);
                    } else {
                        lemma_seq_lt_irreflexive(key@);
                        if j > i {
                            assert(seq_lt(s[i as int].0, s[j].0));
                            lemma_seq_lt_asymmetric(s[i as int].0, key@);
                        }
                    }
                }
            }
            assert(map_of(t) =~= old_map.insert(kv.0, kv.1)) by {
                assert forall|k| #[trigger] map_of(t).contains_key(k) == old_map.insert(
                    kv.0,
                    kv.1,
                ).contains_key(k) by {
                    if map_of(t).contains_key(k) {
                        let j = key_index(t, k);
                        if j < i {
                            assert(s[j].0 == k);
                        } else if j > i {
                            assert(s[j - 1].0 == k);
                        }
                    }
                    if old_map.contains_key(k) {
                        let j = key_index(s, k);
                        if j < i {
                            assert(t[j].0 == k);
                        } else {
                            assert(t[j + 1].0 == k);
                        }
                    }
                    if k == kv.0 {
                        assert(t[i as int].0 == k);
                    }
                }
                assert forall|k| #[trigger] map_of(t).contains_key(k) implies map_of(t)[k]
                    == old_map.insert(kv.0, kv.1)[k] by {
                    let j = key_index(t, k);
                    lemma_map_of_entry(t, j);
                    if j < i {
                        lemma_map_of_entry(s, j);
                        assert(s[j] == t[j]);
                        if k == kv.0 {
                            lemma_keys_distinct(t, i as int, j);
                        }
                    } else if j > i {
                        lemma_map_of_entry(s, j - 1);
                        assert(s[j - 1] == t[j]);
                        if k == kv.0 {
                            lemma_keys_distinct(t, i as int, j);
                        }
                    }
                }
            }
            self.entries = entries;
        }
    }

    /// The entries in increasing key order (the iteration order of a `BTreeMap`).
    pub fn entries(&self) -> (r: Vec<(String, String)>)
        ensures
            keys_increasing(pair_views(r@)),
            map_of(pair_views(r@)) == self@,
    {
        proof {
            use_type_invariant(self);
        }
        let mut r: Vec<(String, String)> = Vec::new();
        let n = self.entries.len();
        for i in 0..n
            invariant
                n == self.entries@.len(),
                pair_views(r@) == pair_views(self.entries@).take(i as int),
        {
            let a = self.entries[i].0.clone();
            let b = self.entries[i].1.clone();
            assert(a@ == pair_views(self.entries@)[i as int].0);
            assert(b@ == pair_views(self.entries@)[i as int].1);
            let ghost before = r@;
            r.push((a, b));
            assert(r@ == before.push((a, b)));
            assert(pair_views(r@) =~= pair_views(before).push((a@, b@)));
            assert(pair_views(r@) =~= pair_views(self.entries@).take(i + 1));
        }
        assert(pair_views(self.entries@).take(n as int) =~= pair_views(self.entries@));
        r
    }

    /// The map built by inserting `pairs` in order (`BTreeMap::from`): a
    /// later pair replaces an earlier one with the same key.
    pub fn from_pairs(pairs: Vec<(String, String)>) -> (m: StrMap)
        ensures
            m@ == map_of_assignments(pair_views(pairs@)),
    {
        let mut m = StrMap::new();
        let n = pairs.len();
        for i in 0..n
            invariant
                n == pairs@.len(),
                m@ == map_of_assignments(pair_views(pairs@).take(i as int)),
        {
            let e = &pairs[i];
            m.insert(e.0.clone(), e.1.clone());
            assert(pair_views(pairs@).take(i + 1).drop_last() =~= pair_views(pairs@).take(
                i as int,
            ));
        }
        assert(pair_views(pairs@).take(n as int) =~= pair_views(pairs@));
        m
    }

    /// A copy of this map.
    pub fn copy(&self) -> (m: StrMap)
        ensures
            m@ == self@,
    {
        proof {
            use_type_invariant(self);
        }
        let r = self.entries();
        StrMap { entries: r }
    }
}

impl Clone for StrMap {
    fn clone(&self) -> (m: StrMap)
        ensures
            m@ == self@,
    {
        self.copy()
    }
}

} // verus!
