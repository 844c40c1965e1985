//! A small map keyed by text, kept in insertion order.
use vstd::prelude::*;

use crate::order::texts;
use crate::text::str_eq;

verus! {

/// The map that `keys[..n]` and `values[..n]` describe, later entries
/// winning.
pub open spec fn map_of<V>(keys: Seq<Seq<char>>, values: Seq<V>, n: int) -> Map<Seq<char>, V>
    decreases n,
{
    if n <= 0 {
        Map::empty()
    } else {
        map_of(keys, values, n - 1).insert(keys[n - 1], values[n - 1])
    }
}

pub open spec fn distinct(keys: Seq<Seq<char>>) -> bool {
    forall|i: int, j: int| 0 <= i < j < keys.len() ==> keys[i] != keys[j]
}

proof fn lemma_map_of_facts<V>(keys: Seq<Seq<char>>, values: Seq<V>, n: int)
    requires
        0 <= n <= keys.len(),
        n <= values.len(),
        distinct(keys),
    ensures
        map_of(keys, values, n).dom() == keys.subrange(0, n).to_set(),
        forall|i: int| 0 <= i < n ==> #[trigger] map_of(keys, values, n)[keys[i]] == values[i],
    decreases n,
{
    if n > 0 {
        lemma_map_of_facts(keys, values, n - 1);
        keys.subrange(0, n - 1).lemma_push_to_set_commute(keys[n - 1]);
        assert(keys.subrange(0, n - 1).push(keys[n - 1]) =~= keys.subrange(0, n));
    } else {
        assert(keys.subrange(0, 0).to_set() =~= Set::<Seq<char>>::empty());
    }
}

proof fn lemma_map_of_update<V>(keys: Seq<Seq<char>>, values: Seq<V>, n: int, i: int, v: V)
    requires
        0 <= i < n <= keys.len(),
        n <= values.len(),
        distinct(keys),
    ensures
        map_of(keys, values.update(i, v), n) == map_of(keys, values, n).insert(keys[i], v),
    decreases n,
{
    lemma_map_of_facts(keys, values, n);
    lemma_map_of_facts(keys, values.update(i, v), n);
    assert(keys.subrange(0, n)[i] == keys[i]);
    assert(keys.subrange(0, n).to_set().contains(keys[i]));
    assert(map_of(keys, values.update(i, v), n).dom() =~= map_of(keys, values, n).insert(keys[i], v).dom());
    assert(map_of(keys, values.update(i, v), n) =~= map_of(keys, values, n).insert(keys[i], v)) by {
        assert forall|k: Seq<char>| #[trigger] map_of(keys, values.update(i, v), n).contains_key(k) implies map_of(keys, values.update(i, v), n)[k]
            == map_of(keys, values, n).insert(keys[i], v)[k] by {
            let j = choose|j: int| 0 <= j < n && keys.subrange(0, n)[j] == k;
            assert(keys[j] == k);
        }
    }
}

/// Entries keyed by text; a key occurs once.
pub struct TextMap<V> {
    keys: Vec<String>,
    values: Vec<V>,
}

impl<V> TextMap<V> {
    /// Keys and values pair up, and no key repeats.
    pub closed spec fn wf(self) -> bool {
        &&& self.keys@.len() == self.values@.len()
        &&& distinct(texts(self.keys@))
    }

    /// The entries as a map.
    pub closed spec fn as_map(self) -> Map<Seq<char>, V> {
        map_of(texts(self.keys@), self.values@, self.keys@.len() as int)
    }

    /// The keys in the order they were first inserted.
    pub closed spec fn key_order(self) -> Seq<Seq<char>> {
        texts(self.keys@)
    }

    pub fn new() -> (r: Self)
        ensures
            r.wf(),
            r.as_map() == Map::<Seq<char>, V>::empty(),
            r.key_order() == Seq::<Seq<char>>::empty(),
    {
        let r = TextMap { keys: Vec::new(), values: Vec::new() };
        assert(texts(r.keys@) =~= Seq::<Seq<char>>::empty());
        r
    }

    /// The keys present are exactly those in the insertion order, which
    /// holds no repeats.
    pub proof fn lemma_keys(self)
        requires
            self.wf(),
        ensures
            self.as_map().dom() == self.key_order().to_set(),
            distinct(self.key_order()),
            self.key_order().len() == self.as_map().dom().len(),
    {
        lemma_map_of_facts(texts(self.keys@), self.values@, self.keys@.len() as int);
        assert(texts(self.keys@).subrange(0, self.keys@.len() as int) =~= texts(self.keys@));
        texts(self.keys@).unique_seq_to_set();
    }

    /// Number of entries.
    pub fn len(&self) -> (r: usize)
        requires
            self.wf(),
        ensures
            r == self.key_order().len(),
            r == self.as_map().dom().len(),
    {
        proof {
            lemma_map_of_facts(texts(self.keys@), self.values@, self.keys@.len() as int);
            assert(texts(self.keys@).subrange(0, self.keys@.len() as int) =~= texts(self.keys@));
            texts(self.keys@).unique_seq_to_set();
        }
        self.keys.len()
    }

    /// Position of `key`, if present.
    pub fn position(&self, key: &str) -> (r: Option<usize>)
        requires
            self.wf(),
        ensures
            match r {
                Some(i) => i < self.key_order().len() && self.key_order()[i as int] == key@,
                None => !self.as_map().contains_key(key@),
            },
    {
        proof {
            lemma_map_of_facts(texts(self.keys@), self.values@, self.keys@.len() as int);
            assert(texts(self.keys@).subrange(0, self.keys@.len() as int) =~= texts(self.keys@));
        }
        let mut i: usize = 0;
        while i < self.keys.len()
            invariant
                i <= self.keys@.len(),
                forall|k: int| 0 <= k < i ==> texts(self.keys@)[k] != key@,
            decreases self.keys@.len() - i,
        {
            if str_eq(self.keys[i].as_str(), key) {
                return Some(i);
            }
            i = i + 1;
        }
        None
    }

    /// The key at `i`, in insertion order.
    pub fn key_at(&self, i: usize) -> (r: &String)
        requires
            self.wf(),
            i < self.key_order().len(),
        ensures
            r@ == self.key_order()[i as int],
    {
        &self.keys[i]
    }

    /// The value at `i`, in insertion order.
    pub fn value_at(&self, i: usize) -> (r: &V)
        requires
            self.wf(),
            i < self.key_order().len(),
        ensures
            *r == self.as_map()[self.key_order()[i as int]],
    {
        proof {
            lemma_map_of_facts(texts(self.keys@), self.values@, self.keys@.len() as int);
        }
        &self.values[i]
    }

    /// Sets `key` to `value`, keeping its place when it is already present.
    pub fn insert(&mut self, key: String, value: V)
        requires
            old(self).wf(),
        ensures
            final(self).wf(),
            final(self).as_map() == old(self).as_map().insert(key@, value),
            old(self).as_map().contains_key(key@) ==> final(self).key_order() == old(self).key_order(),
            !old(self).as_map().contains_key(key@) ==> final(self).key_order() == old(self).key_order().push(key@),
    {
        match self.position(key.as_str()) {
            Some(i) => {
                proof {
                    lemma_map_of_update(texts(self.keys@), self.values@, self.keys@.len() as int, i as int, value);
                    lemma_map_of_facts(texts(self.keys@), self.values@, self.keys@.len() as int);
                    assert(texts(self.keys@).subrange(0, self.keys@.len() as int) =~= texts(self.keys@));
                }
                self.values.set(i, value);
            },
            None => {
                let ghost old_keys = texts(self.keys@);
                let ghost old_values = self.values@;
                proof {
                    lemma_map_of_facts(old_keys, old_values, old_keys.len() as int);
                    assert(old_keys.subrange(0, old_keys.len() as int) =~= old_keys);
                }
                self.keys.push(key);
                self.values.push(value);
                let ghost new_keys = texts(self.keys@);
                assert(new_keys =~= old_keys.push(key@));
                assert(distinct(new_keys)) by {
                    assert forall|i: int, j: int| 0 <= i < j < new_keys.len() implies new_keys[i] != new_keys[j] by {
                        if j == old_keys.len() {
                            assert(old_keys.to_set().contains(old_keys[i]));
                        }
                    }
                }
                assert(self.values@.subrange(0, old_values.len() as int) =~= old_values);
                assert(map_of(new_keys, self.values@, old_keys.len() as int) == map_of(old_keys, old_values, old_keys.len() as int)) by {
                    lemma_map_of_prefix(new_keys, self.values@, old_keys, old_values, old_keys.len() as int);
                }
            },
        }
    }
}

proof fn lemma_map_of_prefix<V>(k1: Seq<Seq<char>>, v1: Seq<V>, k2: Seq<Seq<char>>, v2: Seq<V>, n: int)
    requires
        0 <= n <= k1.len(),
        n <= k2.len(),
        n <= v1.len(),
        n <= v2.len(),
        forall|i: int| 0 <= i < n ==> k1[i] == k2[i] && v1[i] == v2[i],
    ensures
        map_of(k1, v1, n) == map_of(k2, v2, n),
    decreases n,
{
    if n > 0 {
        lemma_map_of_prefix(k1, v1, k2, v2, n - 1);
    }
}

impl TextMap<u64> {
    /// Adds one to the count of `key` (a missing key counts from zero).
    pub fn increment(&mut self, key: &str)
        requires
            old(self).wf(),
            old(self).as_map().contains_key(key@) ==> old(self).as_map()[key@] < u64::MAX,
        ensures
            final(self).wf(),
            final(self).as_map() == old(self).as_map().insert(
                key@,
                (if old(self).as_map().contains_key(key@) {
                    old(self).as_map()[key@] + 1
                } else {
                    1
                }) as u64,
            ),
    {
        match self.position(key) {
            Some(i) => {
                let c = *self.value_at(i);
                proof {
                    lemma_map_of_facts(texts(self.keys@), self.values@, self.keys@.len() as int);
                    assert(texts(self.keys@).subrange(0, self.keys@.len() as int) =~= texts(self.keys@));
                    assert(self.as_map().contains_key(key@));
                }
                self.insert(key.to_string(), c + 1);
            },
            None => {
                self.insert(key.to_string(), 1);
            },
        }
    }
}

} // verus!
