use vstd::prelude::*;

use crate::text::{chars_of, chars_lt, seq_lt};

verus! {

/// The keys of a list of entries.
pub open spec fn keys_of<V>(s: Seq<(String, V)>) -> Seq<Seq<char>> {
    s.map_values(|e: (String, V)| e.0@)
}

/// Whether a list of keys is in strictly increasing code point order.
pub open spec fn strictly_sorted(k: Seq<Seq<char>>) -> bool {
    forall|i: int, j: int| 0 <= i < j < k.len() ==> seq_lt(#[trigger] k[i], #[trigger] k[j])
}

/// The map that a list of entries describes; a later entry wins.
pub open spec fn map_of<V>(s: Seq<(String, V)>) -> Map<Seq<char>, V>
    decreases s.len(),
{
    if s.len() == 0 {
        Map::empty()
    } else {
        map_of(s.drop_last()).insert(s.last().0@, s.last().1)
    }
}

/// Code point order is irreflexive.
pub proof fn lemma_seq_lt_irreflexive(a: Seq<char>)
    ensures
        !seq_lt(a, a),
    decreases a.len(),
{
    if a.len() > 0 {
        lemma_seq_lt_irreflexive(a.drop_first());
    }
}

/// Code point order is transitive.
pub proof fn lemma_seq_lt_transitive(a: Seq<char>, b: Seq<char>, c: Seq<char>)
    requires
        seq_lt(a, b),
        seq_lt(b, c),
    ensures
        seq_lt(a, c),
    decreases a.len(),
{
    if a.len() > 0 && b.len() > 0 && c.len() > 0 && a[0] == b[0] && b[0] == c[0] {
        lemma_seq_lt_transitive(a.drop_first(), b.drop_first(), c.drop_first());
    }
}

/// Two different sequences are ordered one way or the other.
pub proof fn lemma_seq_lt_total(a: Seq<char>, b: Seq<char>)
    ensures
        a == b || seq_lt(a, b) || seq_lt(b, a),
    decreases a.len(),
{
    if a.len() > 0 && b.len() > 0 && a[0] == b[0] {
        lemma_seq_lt_total(a.drop_first(), b.drop_first());
        if a.drop_first() == b.drop_first() {
            assert(a =~= seq![a[0]] + a.drop_first());
            assert(b =~= seq![b[0]] + b.drop_first());
        }
    } else if a.len() == 0 && b.len() == 0 {
        assert(a =~= b);
    }
}

/// Code point order is asymmetric.
pub proof fn lemma_seq_lt_asymmetric(a: Seq<char>, b: Seq<char>)
    requires
        seq_lt(a, b),
    ensures
        !seq_lt(b, a),
{
    if seq_lt(b, a) {
        lemma_seq_lt_transitive(a, b, a);
        lemma_seq_lt_irreflexive(a);
    }
}

/// Strictly sorted keys are pairwise distinct.
pub proof fn lemma_sorted_distinct(k: Seq<Seq<char>>, i: int, j: int)
    requires
        strictly_sorted(k),
        0 <= i < k.len(),
        0 <= j < k.len(),
        i != j,
    ensures
        k[i] != k[j],
{
    if i < j {
        assert(seq_lt(k[i], k[j]));
        if k[i] == k[j] {
            lemma_seq_lt_irreflexive(k[i]);
        }
    } else {
        assert(seq_lt(k[j], k[i]));
        if k[i] == k[j] {
            lemma_seq_lt_irreflexive(k[i]);
        }
    }
}

/// What `map_of` holds, for entries with distinct keys.
pub proof fn lemma_map_of<V>(s: Seq<(String, V)>)
    requires
        forall|i: int, j: int|
            0 <= i < s.len() && 0 <= j < s.len() && i != j ==> s[i].0@ != s[j].0@,
    ensures
        forall|k: Seq<char>|
            #[trigger] map_of(s).contains_key(k) <==> exists|i: int| 0 <= i < s.len() && s[i].0@ == k,
        forall|i: int| 0 <= i < s.len() ==> #[trigger] map_of(s)[s[i].0@] == s[i].1,
        map_of(s).dom().finite(),
        map_of(s).dom().len() == s.len(),
    decreases s.len(),
{
    if s.len() > 0 {
        let t = s.drop_last();
        lemma_map_of(t);
        assert forall|k: Seq<char>|
            #[trigger] map_of(s).contains_key(k) <==> exists|i: int| 0 <= i < s.len() && s[i].0@ == k by {
            if map_of(t).contains_key(k) {
                let i = choose|i: int| 0 <= i < t.len() && t[i].0@ == k;
                assert(s[i] == t[i]);
            }
            if exists|i: int| 0 <= i < s.len() && s[i].0@ == k {
                let i = choose|i: int| 0 <= i < s.len() && s[i].0@ == k;
                if i < s.len() - 1 {
                    assert(t[i] == s[i]);
                }
            }
        }
        assert forall|i: int| 0 <= i < s.len() implies #[trigger] map_of(s)[s[i].0@] == s[i].1 by {
            if i < s.len() - 1 {
                assert(t[i] == s[i]);
            }
        }
        assert(!map_of(t).contains_key(s.last().0@)) by {
            if map_of(t).contains_key(s.last().0@) {
                let i = choose|i: int| 0 <= i < t.len() && t[i].0@ == s.last().0@;
                assert(t[i] == s[i]);
            }
        }
    }
}

/// The text contents of a map whose values are strings.
pub open spec fn texts(m: Map<Seq<char>, String>) -> Map<Seq<char>, Seq<char>> {
    m.map_values(|s: String| s@)
}

/// A map from strings to values, kept as a list of entries in increasing
/// key order; it iterates as a `BTreeMap<String, V>` does.
pub struct StrMap<V> {
    entries: Vec<(String, V)>,
}

impl<V> StrMap<V> {
    /// The entries in key order.
    pub closed spec fn entry_seq(&self) -> Seq<(String, V)> {
        self.entries@
    }

    /// The value under a key, if any: what `get` reads.
    pub open spec fn lookup(&self, k: Seq<char>) -> Option<V> {
        if self@.contains_key(k) {
            Some(self@[k])
        } else {
            None
        }
    }

    /// The keys in increasing order.
    pub open spec fn key_seq(&self) -> Seq<Seq<char>> {
        keys_of(self.entry_seq())
    }

    #[verifier::type_invariant]
    closed spec fn sorted(&self) -> bool {
        strictly_sorted(keys_of(self.entries@))
    }

    /// The shape of a strictly sorted entry list.
    proof fn lemma_shape_of(s: Seq<(String, V)>)
        requires
            strictly_sorted(keys_of(s)),
        ensures
            forall|i: int|
                0 <= i < s.len() ==> #[trigger] map_of(s).contains_key(s[i].0@) && map_of(s)[s[i].0@]
                    == s[i].1,
            forall|k: Seq<char>|
                #[trigger] map_of(s).contains_key(k) ==> exists|i: int|
                    0 <= i < s.len() && s[i].0@ == k,
            map_of(s).dom().finite(),
            map_of(s).dom().len() == s.len(),
    {
        Self::lemma_distinct(s);
        lemma_map_of(s);
    }

    proof fn lemma_distinct(s: Seq<(String, V)>)
        requires
            strictly_sorted(keys_of(s)),
        ensures
            forall|i: int, j: int|
                0 <= i < s.len() && 0 <= j < s.len() && i != j ==> s[i].0@ != s[j].0@,
    {
        assert forall|i: int, j: int|
            0 <= i < s.len() && 0 <= j < s.len() && i != j implies s[i].0@ != s[j].0@ by {
            lemma_sorted_distinct(keys_of(s), i, j);
        }
    }

    /// An empty map.
    pub fn new() -> (r: Self)
        ensures
            r@ == Map::<Seq<char>, V>::empty(),
            r.entry_seq().len() == 0,
    {
        StrMap { entries: Vec::new() }
    }

    /// The number of keys.
    pub fn len(&self) -> (r: usize)
        ensures
            r == self@.dom().len(),
            r == self.entry_seq().len(),
    {
        proof {
            use_type_invariant(&*self);
            Self::lemma_shape_of(self.entries@);
        }
        self.entries.len()
    }

    /// Whether the map has no keys.
    pub fn is_empty(&self) -> (r: bool)
        ensures
            r == (self@.dom().len() == 0),
            r == (self@ == Map::<Seq<char>, V>::empty()),
    {
        proof {
            use_type_invariant(&*self);
            Self::lemma_shape_of(self.entries@);
            if self@.dom().len() == 0 {
                assert(self@.dom() =~= Set::empty());
                assert(self@ =~= Map::<Seq<char>, V>::empty());
            }
        }
        self.entries.len() == 0
    }

    /// The entries in increasing key order.
    pub fn entries(&self) -> (r: &Vec<(String, V)>)
        ensures
            r@ == self.entry_seq(),
            strictly_sorted(self.key_seq()),
            self@ == map_of(self.entry_seq()),
            forall|i: int|
                0 <= i < r@.len() ==> #[trigger] self@.contains_key(r@[i].0@) && self@[r@[i].0@]
                    == r@[i].1,
            forall|k: Seq<char>|
                #[trigger] self@.contains_key(k) ==> exists|i: int| 0 <= i < r@.len() && r@[i].0@ == k,
    {
        proof {
            use_type_invariant(&*self);
            Self::lemma_shape_of(self.entries@);
        }
        &self.entries
    }

    /// The first position whose key is not below `key`, with whether that
    /// key equals `key`.
    fn search(&self, key: &[char]) -> (r: (usize, bool))
        ensures
            r.0 <= self.entry_seq().len(),
            forall|i: int| 0 <= i < r.0 ==> seq_lt(#[trigger] self.key_seq()[i], key@),
            r.0 < self.entry_seq().len() ==> !seq_lt(self.key_seq()[r.0 as int], key@),
            r.1 <==> (r.0 < self.entry_seq().len() && self.key_seq()[r.0 as int] == key@),
    {
        proof {
            use_type_invariant(&*self);
        }
        let mut i: usize = 0;
        while i < self.entries.len()
            invariant
                i <= self.entries@.len(),
                strictly_sorted(keys_of(self.entries@)),
                forall|j: int| 0 <= j < i ==> seq_lt(#[trigger] keys_of(self.entries@)[j], key@),
            decreases self.entries.len() - i,
        {
            let k = chars_of(self.entries[i].0.as_str());
            if !chars_lt(k.as_slice(), key) {
                let eq = !chars_lt(key, k.as_slice());
                proof {
                    lemma_seq_lt_total(k@, key@);
                    if k@ == key@ {
                        lemma_seq_lt_irreflexive(key@);
                    }
                }
                return (i, eq);
            }
            i += 1;
        }
        (i, false)
    }

    /// Whether `key` is in the map.
    pub fn contains_key(&self, key: &str) -> (r: bool)
        ensures
            r == self@.contains_key(key@),
    {
        self.get(key).is_some()
    }

    /// The value under `key`.
    pub fn get(&self, key: &str) -> (r: Option<&V>)
        ensures
            r is Some <==> self@.contains_key(key@),
            r matches Some(v) ==> *v == self@[key@],
            (match r {
                Some(v) => Some(*v),
                None => None,
            }) == self.lookup(key@),
    {
        proof {
            use_type_invariant(&*self);
            Self::lemma_shape_of(self.entries@);
        }
        let kc = chars_of(key);
        let (i, found) = self.search(kc.as_slice());
        if found {
            assert(self.key_seq()[i as int] == self.entries@[i as int].0@);
            assert(map_of(self.entries@).contains_key(self.entries@[i as int].0@));
            Some(&self.entries[i].1)
        } else {
            proof {
                if self@.contains_key(key@) {
                    let j = choose|j: int|
                        0 <= j < self.entry_seq().len() && self.entry_seq()[j].0@ == key@;
                    if j < i {
                        assert(seq_lt(self.key_seq()[j], key@));
                        lemma_seq_lt_irreflexive(key@);
                    } else if j > i {
                        assert(seq_lt(self.key_seq()[i as int], self.key_seq()[j]));
                        lemma_seq_lt_total(self.key_seq()[i as int], key@);
                        lemma_seq_lt_asymmetric(self.key_seq()[i as int], key@);
                    }
                }
            }
            None
        }
    }

    /// Sets the value under `key`, replacing any earlier one.
    pub fn insert(&mut self, key: String, value: V)
        ensures
            final(self)@ == old(self)@.insert(key@, value),
    {
        proof {
            use_type_invariant(&*self);
            Self::lemma_shape_of(self.entries@);
        }
        let kc = chars_of(key.as_str());
        let (i, found) = self.search(kc.as_slice());
        let ghost old_s = self.entries@;
        let ghost old_keys = self.key_seq();
        let mut entries: Vec<(String, V)> = Vec::new();
        std::mem::swap(&mut entries, &mut self.entries);
        if found {
            entries.remove(i);
            entries.insert(i, (key, value));
            proof {
                assert(keys_of(entries@) =~= keys_of(old_s));
            }
        } else {
            entries.insert(i, (key, value));
            proof {
                let ks = keys_of(entries@);
                let ko = keys_of(old_s);
                assert(ko == old_keys);
                assert(ks =~= ko.insert(i as int, kc@));
                if i < ko.len() {
                    assert(ko[i as int] != kc@);
                    lemma_seq_lt_total(ko[i as int], kc@);
                    assert(seq_lt(kc@, ko[i as int]));
                }
                assert forall|a: int, b: int| 0 <= a < b < ks.len() implies seq_lt(
                    #[trigger] ks[a],
                    #[trigger] ks[b],
                ) by {
                    if b < i {
                        assert(ks[a] == ko[a] && ks[b] == ko[b]);
                    } else if b == i {
                        assert(ks[a] == ko[a]);
                        assert(seq_lt(ko[a], kc@));
                    } else if a > i {
                        assert(ks[a] == ko[a - 1] && ks[b] == ko[b - 1]);
                    } else if a == i {
                        assert(ks[b] == ko[b - 1]);
                        if b - 1 > i {
                            assert(seq_lt(ko[i as int], ko[b - 1]));
                            lemma_seq_lt_transitive(kc@, ko[i as int], ko[b - 1]);
                        }
                    } else {
                        assert(ks[a] == ko[a] && ks[b] == ko[b - 1]);
                        assert(seq_lt(ko[a], ko[b - 1]));
                    }
                }
            }
        }
        self.entries = entries;
        proof {
            use_type_invariant(&*self);
            Self::lemma_shape_of(self.entries@);
            let n = self.entries@;
            assert forall|k: Seq<char>| #[trigger]
                self@.contains_key(k) <==> old(self)@.insert(key@, value).contains_key(k) by {
                if self@.contains_key(k) {
                    let j = choose|j: int| 0 <= j < n.len() && n[j].0@ == k;
                    if k != key@ {
                        if found {
                            assert(n[j] == old_s[j]);
                        } else if j < i {
                            assert(n[j] == old_s[j]);
                        } else {
                            assert(n[j] == old_s[j - 1]);
                        }
                    }
                }
                if old(self)@.contains_key(k) {
                    let j = choose|j: int| 0 <= j < old_s.len() && old_s[j].0@ == k;
                    if found {
                        if j != i {
                            assert(n[j] == old_s[j]);
                        }
                    } else if j < i {
                        assert(n[j] == old_s[j]);
                    } else {
                        assert(n[j + 1] == old_s[j]);
                    }
                }
                if k == key@ {
                    assert(n[i as int].0@ == key@);
                }
            }
            assert forall|k: Seq<char>| #[trigger] self@.contains_key(k) implies self@[k]
                == old(self)@.insert(key@, value)[k] by {
                let j = choose|j: int| 0 <= j < n.len() && n[j].0@ == k;
                if k != key@ {
                    if found {
                        assert(n[j] == old_s[j]);
                    } else if j < i {
                        assert(n[j] == old_s[j]);
                    } else {
                        assert(n[j] == old_s[j - 1]);
                    }
                } else {
                    assert(n[i as int].0@ == key@);
                }
            }
            assert(self@ =~= old(self)@.insert(key@, value));
        }
    }

    /// Takes the value under `key` out of the map.
    pub fn remove(&mut self, key: &str) -> (r: Option<V>)
        ensures
            r is Some <==> old(self)@.contains_key(key@),
            r matches Some(v) ==> v == old(self)@[key@],
            r == old(self).lookup(key@),
            final(self)@ == old(self)@.remove(key@),
    {
        proof {
            use_type_invariant(&*self);
            Self::lemma_shape_of(self.entries@);
        }
        let kc = chars_of(key);
        let (i, found) = self.search(kc.as_slice());
        let ghost old_s = self.entries@;
        let ghost old_keys = self.key_seq();
        if !found {
            proof {
                if self@.contains_key(key@) {
                    let j = choose|j: int| 0 <= j < old_s.len() && old_s[j].0@ == key@;
                    assert(old_keys[j] == key@);
                    if j < i {
                        lemma_seq_lt_irreflexive(key@);
                    } else if j > i {
                        assert(seq_lt(old_keys[i as int], old_keys[j]));
                        lemma_seq_lt_total(old_keys[i as int], key@);
                        lemma_seq_lt_asymmetric(old_keys[i as int], key@);
                    }
                }
                assert(self@ =~= self@.remove(key@));
            }
            return None;
        }
        let mut entries: Vec<(String, V)> = Vec::new();
        std::mem::swap(&mut entries, &mut self.entries);
        let (_k, v) = entries.remove(i);
        proof {
            let ks = keys_of(entries@);
            assert(ks =~= old_keys.remove(i as int));
            assert forall|a: int, b: int| 0 <= a < b < ks.len() implies seq_lt(
                #[trigger] ks[a],
                #[trigger] ks[b],
            ) by {
                if b < i {
                    assert(ks[a] == old_keys[a] && ks[b] == old_keys[b]);
                } else if a >= i {
                    assert(ks[a] == old_keys[a + 1] && ks[b] == old_keys[b + 1]);
                } else {
                    assert(ks[a] == old_keys[a] && ks[b] == old_keys[b + 1]);
                }
            }
        }
        self.entries = entries;
        proof {
            use_type_invariant(&*self);
            Self::lemma_shape_of(self.entries@);
            let n = self.entries@;
            assert(old_s[i as int].0@ == key@);
            assert forall|k: Seq<char>| #[trigger]
                self@.contains_key(k) <==> old(self)@.remove(key@).contains_key(k) by {
                if self@.contains_key(k) {
                    let j = choose|j: int| 0 <= j < n.len() && n[j].0@ == k;
                    if j < i {
                        assert(n[j] == old_s[j]);
                        lemma_sorted_distinct(old_keys, j, i as int);
                    } else {
                        assert(n[j] == old_s[j + 1]);
                        lemma_sorted_distinct(old_keys, j + 1, i as int);
                    }
                }
                if old(self)@.contains_key(k) && k != key@ {
                    let j = choose|j: int| 0 <= j < old_s.len() && old_s[j].0@ == k;
                    if j < i {
                        assert(n[j] == old_s[j]);
                    } else if j > i {
                        assert(n[j - 1] == old_s[j]);
                    }
                }
            }
            assert forall|k: Seq<char>| #[trigger] self@.contains_key(k) implies self@[k]
                == old(self)@.remove(key@)[k] by {
                let j = choose|j: int| 0 <= j < n.len() && n[j].0@ == k;
                if j < i {
                    assert(n[j] == old_s[j]);
                    lemma_sorted_distinct(old_keys, j, i as int);
                } else {
                    assert(n[j] == old_s[j + 1]);
                    lemma_sorted_distinct(old_keys, j + 1, i as int);
                }
            }
            assert(self@ =~= old(self)@.remove(key@));
        }
        Some(v)
    }

    /// The values in key order.
    pub fn into_values(self) -> (r: Vec<V>)
        ensures
            r@ == self.entry_seq().map_values(|e: (String, V)| e.1),
    {
        let mut entries = self.entries;
        let ghost all = entries@;
        let mut r: Vec<V> = Vec::new();
        while entries.len() > 0
            invariant
                all.len() == r@.len() + entries@.len(),
                forall|i: int| 0 <= i < entries@.len() ==> #[trigger] entries@[i] == all[r@.len() + i],
                forall|i: int| 0 <= i < r@.len() ==> #[trigger] r@[i] == all[i].1,
            decreases entries.len(),
        {
            let (_k, v) = entries.remove(0);
            r.push(v);
        }
        assert(r@ =~= all.map_values(|e: (String, V)| e.1));
        r
    }
}

impl StrMap<String> {
    /// A copy of this map.
    pub fn duplicate(&self) -> (r: Self)
        ensures
            r@ == self@,
            r.entry_seq() == self.entry_seq(),
    {
        proof {
            use_type_invariant(self);
        }
        let mut entries: Vec<(String, String)> = Vec::new();
        let mut i: usize = 0;
        while i < self.entries.len()
            invariant
                i <= self.entries@.len(),
                entries@ == self.entries@.subrange(0, i as int),
            decreases self.entries.len() - i,
        {
            let k = self.entries[i].0.clone();
            let v = self.entries[i].1.clone();
            entries.push((k, v));
            i += 1;
            assert(entries@ =~= self.entries@.subrange(0, i as int));
        }
        assert(self.entries@.subrange(0, i as int) =~= self.entries@);
        StrMap { entries }
    }
}

impl<V> View for StrMap<V> {
    type V = Map<Seq<char>, V>;

    closed spec fn view(&self) -> Map<Seq<char>, V> {
        map_of(self.entries@)
    }
}

/// Law: after `insert` of `v` under `k` (the map `after` is `before` with
/// that write, as `insert` ensures), `get` reads `v` under `k` and reads
/// every other key as before.
pub proof fn law_read_after_write<V>(before: StrMap<V>, after: StrMap<V>, k: Seq<char>, v: V, other: Seq<char>)
    requires
        after@ == before@.insert(k, v),
        other != k,
    ensures
        after.lookup(k) == Some(v),
        after.lookup(other) == before.lookup(other),
{
}

/// Law: after `remove` of `k` (the map `after` is `before` without `k`, as
/// `remove` ensures), `get` finds nothing under `k` and reads every other
/// key as before.
pub proof fn law_read_after_remove<V>(before: StrMap<V>, after: StrMap<V>, k: Seq<char>, other: Seq<char>)
    requires
        after@ == before@.remove(k),
        other != k,
    ensures
        after.lookup(k) is None,
        after.lookup(other) == before.lookup(other),
{
}

} // verus!
