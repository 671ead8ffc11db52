//! A map from strings to strings, kept as a list of entries with distinct
//! keys.
use vstd::prelude::*;

verus! {

/// Whether no two entries of `s` have the same key.
pub open spec fn distinct_keys(s: Seq<(Seq<char>, Seq<char>)>) -> bool {
    forall|i: int, j: int| 0 <= i < s.len() && 0 <= j < s.len() && i != j ==> s[i].0 != s[j].0
}

/// The map that the entries `s` make: each key of an entry maps to the value
/// of an entry with that key.
pub open spec fn pairs_map(s: Seq<(Seq<char>, Seq<char>)>) -> Map<Seq<char>, Seq<char>> {
    Map::new(
        |k: Seq<char>| exists|i: int| 0 <= i < s.len() && s[i].0 == k,
        |k: Seq<char>| s[choose|i: int| 0 <= i < s.len() && s[i].0 == k].1,
    )
}

/// With distinct keys, the map sends the key of each entry to its value.
pub proof fn lemma_pairs_map_entry(s: Seq<(Seq<char>, Seq<char>)>, i: int)
    requires
        distinct_keys(s),
        0 <= i < s.len(),
    ensures
        pairs_map(s).contains_key(s[i].0),
        pairs_map(s)[s[i].0] == s[i].1,
{
    let k = s[i].0;
    assert(exists|j: int| 0 <= j < s.len() && s[j].0 == k);
    let j = choose|j: int| 0 <= j < s.len() && s[j].0 == k;
    assert(j == i);
}

/// A map from strings to strings, with `insert` replacing the value of a key
/// that is already there.
#[derive(Debug)]
pub struct StrMap {
    entries: Vec<(String, String)>,
}

impl View for StrMap {
    type V = Map<Seq<char>, Seq<char>>;

    closed spec fn view(&self) -> Map<Seq<char>, Seq<char>> {
        pairs_map(self.entries.deep_view())
    }
}

impl StrMap {
    /// The entries, as text.
    pub closed spec fn pairs(&self) -> Seq<(Seq<char>, Seq<char>)> {
        self.entries.deep_view()
    }

    /// The entries have distinct keys.
    pub closed spec fn wf(&self) -> bool {
        distinct_keys(self.pairs())
    }

    /// The entries, each a key and its value: no two have the same key, each
    /// key of the map has an entry, and each entry holds its key's value.
    pub fn entries(&self) -> (r: &Vec<(String, String)>)
        requires
            self.wf(),
        ensures
            r.deep_view() == self.pairs(),
            distinct_keys(r.deep_view()),
            pairs_map(r.deep_view()) == self@,
            forall|i: int|
                0 <= i < r.len() ==> self@.contains_key(#[trigger] r.deep_view()[i].0)
                    && self@[r.deep_view()[i].0] == r.deep_view()[i].1,
    {
        proof {
            assert forall|i: int| 0 <= i < self.pairs().len() implies self@.contains_key(
                #[trigger] self.pairs()[i].0,
            ) && self@[self.pairs()[i].0] == self.pairs()[i].1 by {
                lemma_pairs_map_entry(self.pairs(), i);
            }
        }
        &self.entries
    }

    /// An empty map.
    pub fn new() -> (m: StrMap)
        ensures
            m.wf(),
            m@ == Map::<Seq<char>, Seq<char>>::empty(),
    {
        let m = StrMap { entries: Vec::new() };
        assert(m@ =~= Map::<Seq<char>, Seq<char>>::empty());
        m
    }

    /// The number of keys.
    pub fn len(&self) -> (n: usize)
        requires
            self.wf(),
        ensures
            n == self@.len(),
    {
        proof {
            self.lemma_len();
        }
        self.entries.len()
    }

    proof fn lemma_len(&self)
        requires
            self.wf(),
        ensures
            self@.dom().finite(),
            self@.len() == self.entries@.len(),
        decreases self.entries@.len(),
    {
        let s = self.pairs();
        let keys = Set::new(|k: Seq<char>| exists|i: int| 0 <= i < s.len() && s[i].0 == k);
        assert(self@.dom() =~= keys);
        let f = |i: int| s[i].0;
        let idx = Set::new(|i: int| 0 <= i < s.len());
        vstd::set_lib::lemma_int_range(0, s.len() as int);
        assert(idx =~= vstd::set_lib::set_int_range(0, s.len() as int));
        assert(keys =~= idx.map(f)) by {
            assert forall|k: Seq<char>| keys.contains(k) implies idx.map(f).contains(k) by {
                let i = choose|i: int| 0 <= i < s.len() && s[i].0 == k;
                assert(idx.contains(i) && f(i) == k);
            }
        }
        assert(vstd::relations::injective_on(f, idx)) by {
            assert forall|a: int, b: int| idx.contains(a) && idx.contains(b) && #[trigger] f(a) == #[trigger] f(b) implies a == b by {
            }
        }
        vstd::set_lib::lemma_map_size(idx, keys, f);
    }

    /// Looks `key` up.
    pub fn get(&self, key: &String) -> (r: Option<&String>)
        requires
            self.wf(),
        ensures
            match r {
                Some(v) => self@.contains_key(key@) && self@[key@] == v@,
                None => !self@.contains_key(key@),
            },
    {
        let ghost s = self.pairs();
        let mut i: usize = 0;
        while i < self.entries.len()
            invariant
                s == self.pairs(),
                distinct_keys(s),
                s.len() == self.entries.len(),
                i <= self.entries.len(),
                forall|j: int| 0 <= j < i ==> s[j].0 != key@,
            decreases self.entries.len() - i,
        {
            assert(s[i as int] == self.entries@[i as int].deep_view());
            if self.entries[i].0 == *key {
                proof {
                    lemma_pairs_map_entry(s, i as int);
                }
                return Some(&self.entries[i].1);
            }
            i = i + 1;
        }
        None
    }

    /// Maps `key` to `value`, replacing the value it had.
    pub fn insert(&mut self, key: String, value: String)
        requires
            old(self).wf(),
        ensures
            final(self).wf(),
            final(self)@ == old(self)@.insert(key@, value@),
    {
        let ghost s = self.pairs();
        let ghost k = key@;
        let ghost v = value@;
        let mut i: usize = 0;
        while i < self.entries.len()
            invariant
                s == self.pairs(),
                s == old(self).pairs(),
                distinct_keys(s),
                k == key@,
                v == value@,
                s.len() == self.entries.len(),
                i <= self.entries.len(),
                forall|j: int| 0 <= j < i ==> s[j].0 != k,
            decreases self.entries.len() - i,
        {
            assert(s[i as int] == self.entries@[i as int].deep_view());
            if self.entries[i].0 == key {
                self.entries.set(i, (key, value));
                let ghost s2 = self.pairs();
                assert(s2 =~= s.update(i as int, (k, v)));
                assert(distinct_keys(s2));
                assert(pairs_map(s2) =~= pairs_map(s).insert(k, v)) by {
                    assert forall|q: Seq<char>| #[trigger] pairs_map(s2).contains_key(q) == pairs_map(s).insert(k, v).contains_key(q) by {
                        if pairs_map(s).contains_key(q) {
                            let j = choose|j: int| 0 <= j < s.len() && s[j].0 == q;
                            assert(s2[j].0 == q);
                        }
                        if pairs_map(s2).contains_key(q) {
                            let j = choose|j: int| 0 <= j < s2.len() && s2[j].0 == q;
                            assert(s[j].0 == q);
                        }
                        lemma_pairs_map_entry(s, i as int);
                    }
                    assert forall|q: Seq<char>| pairs_map(s2).contains_key(q) implies #[trigger] pairs_map(s2)[q] == pairs_map(s).insert(k, v)[q] by {
                        let j = choose|j: int| 0 <= j < s2.len() && s2[j].0 == q;
                        lemma_pairs_map_entry(s2, j);
                        if j != i {
                            lemma_pairs_map_entry(s, j);
                        }
                    }
                }
                return;
            }
            i = i + 1;
        }
        self.entries.push((key, value));
        let ghost s2 = self.pairs();
        assert(s2 =~= s.push((k, v)));
        assert(distinct_keys(s2));
        assert(pairs_map(s2) =~= pairs_map(s).insert(k, v)) by {
            assert forall|q: Seq<char>| #[trigger] pairs_map(s2).contains_key(q) == pairs_map(s).insert(k, v).contains_key(q) by {
                if pairs_map(s).contains_key(q) {
                    let j = choose|j: int| 0 <= j < s.len() && s[j].0 == q;
                    assert(s2[j].0 == q);
                }
                if pairs_map(s2).contains_key(q) {
                    let j = choose|j: int| 0 <= j < s2.len() && s2[j].0 == q;
                    if j < s.len() {
                        assert(s[j].0 == q);
                    }
                }
                assert(s2[s.len() as int].0 == k);
            }
            assert forall|q: Seq<char>| pairs_map(s2).contains_key(q) implies #[trigger] pairs_map(s2)[q] == pairs_map(s).insert(k, v)[q] by {
                let j = choose|j: int| 0 <= j < s2.len() && s2[j].0 == q;
                lemma_pairs_map_entry(s2, j);
                if j < s.len() {
                    lemma_pairs_map_entry(s, j);
                }
            }
        }
    }
}

} // verus!
