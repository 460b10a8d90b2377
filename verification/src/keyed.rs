//! A list of values keyed by distinct strings, in insertion order: the
//! storage behind the library metadata (keyed by archive name) and the
//! viewer sessions (keyed by window label).
use vstd::prelude::*;

verus! {

/// No key occurs twice.
pub open spec fn keys_distinct<W>(s: Seq<(Seq<char>, W)>) -> bool {
    forall|i: int, j: int| 0 <= i < j < s.len() ==> #[trigger] s[i].0 != #[trigger] s[j].0
}

/// `k` is the key of some entry.
pub open spec fn has_key<W>(s: Seq<(Seq<char>, W)>, k: Seq<char>) -> bool {
    exists|i: int| 0 <= i < s.len() && #[trigger] s[i].0 == k
}

/// The position of key `k` (meaningful where `has_key(s, k)`).
pub open spec fn key_position<W>(s: Seq<(Seq<char>, W)>, k: Seq<char>) -> int {
    choose|i: int| 0 <= i < s.len() && #[trigger] s[i].0 == k
}

/// The entries after setting key `k` to `v`: an existing entry is replaced
/// in place, a new key is appended.
pub open spec fn entries_insert<W>(s: Seq<(Seq<char>, W)>, k: Seq<char>, v: W) -> Seq<(Seq<char>, W)> {
    if has_key(s, k) {
        s.update(key_position(s, k), (k, v))
    } else {
        s.push((k, v))
    }
}

/// The entries as a map from key to value.
pub open spec fn entries_map<W>(s: Seq<(Seq<char>, W)>) -> Map<Seq<char>, W> {
    Map::new(|k: Seq<char>| has_key(s, k), |k: Seq<char>| s[key_position(s, k)].1)
}

/// Where keys are distinct, an entry found at `i` is the one `key_position` names.
pub proof fn lemma_position_is_unique<W>(s: Seq<(Seq<char>, W)>, i: int)
    requires
        keys_distinct(s),
        0 <= i < s.len(),
    ensures
        has_key(s, s[i].0),
        key_position(s, s[i].0) == i,
{
    let k = s[i].0;
    assert(s[i].0 == k);
    let p = key_position(s, k);
    if p != i {
        if p < i {
            assert(s[p].0 != s[i].0);
        } else {
            assert(s[i].0 != s[p].0);
        }
    }
}

/// Values keyed by distinct strings, in the order their keys were added.
pub struct KeyedList<V: View> {
    entries: Vec<(String, V)>,
}

impl<V: View> View for KeyedList<V> {
    type V = Seq<(Seq<char>, V::V)>;

    closed spec fn view(&self) -> Seq<(Seq<char>, V::V)> {
        self.entries@.map_values(|e: (String, V)| (e.0@, e.1@))
    }
}

impl<V: View> KeyedList<V> {
    #[verifier::type_invariant]
    closed spec fn keys_are_distinct(self) -> bool {
        keys_distinct(self@)
    }

    /// No entry.
    pub fn new() -> (res: Self)
        ensures
            res@ == Seq::<(Seq<char>, V::V)>::empty(),
    {
        let res = KeyedList { entries: Vec::new() };
        assert(res@ =~= Seq::<(Seq<char>, V::V)>::empty());
        res
    }

    /// Number of entries; the keys are distinct.
    pub fn len(&self) -> (n: usize)
        ensures
            n == self@.len(),
            keys_distinct(self@),
    {
        proof {
            use_type_invariant(self);
        }
        self.entries.len()
    }

    /// The position of `key`, if it has an entry.
    pub fn position(&self, key: &String) -> (res: Option<usize>)
        ensures
            keys_distinct(self@),
            match res {
                Some(i) => i < self@.len() && self@[i as int].0 == key@ && has_key(self@, key@)
                    && key_position(self@, key@) == i,
                None => !has_key(self@, key@),
            },
    {
        proof {
            use_type_invariant(self);
        }
        let n = self.entries.len();
        let mut i: usize = 0;
        while i < n
            invariant
                n == self@.len(),
                n == self.entries@.len(),
                i <= n,
                keys_distinct(self@),
                forall|j: int| 0 <= j < i ==> self@[j].0 != key@,
            decreases n - i,
        {
            if self.entries[i].0 == *key {
                proof {
                    lemma_position_is_unique(self@, i as int);
                }
                return Some(i);
            }
            i = i + 1;
        }
        None
    }

    /// The key of entry `i`.
    pub fn key_at(&self, i: usize) -> (res: &String)
        requires
            i < self@.len(),
        ensures
            res@ == self@[i as int].0,
    {
        &self.entries[i].0
    }

    /// The value of entry `i`.
    pub fn value_at(&self, i: usize) -> (res: &V)
        requires
            i < self@.len(),
        ensures
            res@ == self@[i as int].1,
    {
        &self.entries[i].1
    }

    /// The value of `key`, if it has an entry.
    pub fn get(&self, key: &String) -> (res: Option<&V>)
        ensures
            match res {
                Some(v) => has_key(self@, key@) && v@ == self@[key_position(self@, key@)].1,
                None => !has_key(self@, key@),
            },
    {
        match self.position(key) {
            Some(i) => Some(&self.entries[i].1),
            None => None,
        }
    }

    /// Sets `key` to `value`, replacing the value it had before in place.
    pub fn insert(&mut self, key: String, value: V)
        ensures
            final(self)@ == entries_insert(old(self)@, key@, value@),
            keys_distinct(final(self)@),
    {
        let ghost k = key@;
        let ghost v = value@;
        let ghost before = self@;
        let found = self.position(&key);
        let mut entries: Vec<(String, V)> = Vec::new();
        std::mem::swap(&mut entries, &mut self.entries);
        let ghost before_entries = entries@;
        match found {
            Some(i) => {
                entries.set(i, (key, value));
            },
            None => {
                entries.push((key, value));
            },
        }
        let ghost after = entries@.map_values(|e: (String, V)| (e.0@, e.1@));
        proof {
            assert(before == before_entries.map_values(|e: (String, V)| (e.0@, e.1@)));
            if has_key(before, k) {
                assert(after =~= before.update(key_position(before, k), (k, v)));
            } else {
                assert(after =~= before.push((k, v)));
            }
            assert(keys_distinct(after));
        }
        self.entries = entries;
    }
}

} // verus!
