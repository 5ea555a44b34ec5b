//! A list of values under distinct text keys.

use vstd::prelude::*;

use crate::text;

verus! {

/// Values under text keys, each key once, in the order in which the keys came.
#[derive(Debug)]
pub struct KeyedList<V> {
    entries: Vec<(String, V)>,
}

spec fn has_key<V>(entries: Seq<(String, V)>, key: Seq<char>) -> bool {
    exists|i: int| 0 <= i < entries.len() && (#[trigger] entries[i]).0@ == key
}

spec fn index_of_key<V>(entries: Seq<(String, V)>, key: Seq<char>) -> int {
    choose|i: int| 0 <= i < entries.len() && (#[trigger] entries[i]).0@ == key
}

spec fn entries_map<V>(entries: Seq<(String, V)>) -> Map<Seq<char>, V> {
    Map::new(
        |key: Seq<char>| has_key(entries, key),
        |key: Seq<char>| entries[index_of_key(entries, key)].1,
    )
}

spec fn distinct_keys<V>(entries: Seq<(String, V)>) -> bool {
    forall|i: int, j: int|
        0 <= i < j < entries.len() ==> (#[trigger] entries[i]).0@ != (#[trigger] entries[j]).0@
}

impl<V> View for KeyedList<V> {
    type V = Map<Seq<char>, V>;

    closed spec fn view(&self) -> Map<Seq<char>, V> {
        entries_map(self.entries@)
    }
}

proof fn lemma_entry<V>(entries: Seq<(String, V)>, i: int)
    requires
        distinct_keys(entries),
        0 <= i < entries.len(),
    ensures
        entries_map(entries).contains_key(entries[i].0@),
        entries_map(entries)[entries[i].0@] == entries[i].1,
{
    let key = entries[i].0@;
    assert(has_key(entries, key));
    let j = index_of_key(entries, key);
    assert(0 <= j < entries.len() && entries[j].0@ == key);
    if i < j {
        assert(entries[i].0@ != entries[j].0@);
    } else if j < i {
        assert(entries[j].0@ != entries[i].0@);
    }
}

proof fn lemma_update<V>(entries: Seq<(String, V)>, i: int, e: (String, V))
    requires
        distinct_keys(entries),
        0 <= i < entries.len(),
        e.0@ == entries[i].0@,
    ensures
        distinct_keys(entries.update(i, e)),
        entries_map(entries.update(i, e)) == entries_map(entries).insert(e.0@, e.1),
{
    let after = entries.update(i, e);
    assert forall|a: int, b: int| 0 <= a < b < after.len() implies (#[trigger] after[a]).0@ != (
    #[trigger] after[b]).0@ by {
        assert(entries[a].0@ != entries[b].0@);
    }
    let left = entries_map(after);
    let right = entries_map(entries).insert(e.0@, e.1);
    assert forall|k: Seq<char>| left.contains_key(k) == right.contains_key(k) by {
        if has_key(after, k) {
            let j = index_of_key(after, k);
            assert(entries[j].0@ == k);
        }
        if has_key(entries, k) {
            let j = index_of_key(entries, k);
            assert(after[j].0@ == k);
        }
        assert(after[i].0@ == e.0@);
    }
    assert forall|k: Seq<char>| left.contains_key(k) implies left[k] == right[k] by {
        let j = index_of_key(after, k);
        assert(after[j].0@ == k);
        lemma_entry(after, j);
        lemma_entry(entries, j);
        lemma_entry(after, i);
    }
    assert(left =~= right);
}

proof fn lemma_push<V>(entries: Seq<(String, V)>, e: (String, V))
    requires
        distinct_keys(entries),
        !has_key(entries, e.0@),
    ensures
        distinct_keys(entries.push(e)),
        entries_map(entries.push(e)) == entries_map(entries).insert(e.0@, e.1),
{
    let after = entries.push(e);
    let n = entries.len() as int;
    assert forall|a: int, b: int| 0 <= a < b < after.len() implies (#[trigger] after[a]).0@ != (
    #[trigger] after[b]).0@ by {
        assert(after[a] == entries[a]);
        if b < n {
            assert(entries[a].0@ != entries[b].0@);
        }
    }
    let left = entries_map(after);
    let right = entries_map(entries).insert(e.0@, e.1);
    assert forall|k: Seq<char>| left.contains_key(k) == right.contains_key(k) by {
        if has_key(after, k) {
            let j = index_of_key(after, k);
            assert(after[j].0@ == k);
            if j < n {
                assert(entries[j].0@ == k);
            }
        }
        if has_key(entries, k) {
            let j = index_of_key(entries, k);
            assert(after[j].0@ == k);
        }
        assert(after[n].0@ == e.0@);
    }
    assert forall|k: Seq<char>| left.contains_key(k) implies left[k] == right[k] by {
        let j = index_of_key(after, k);
        assert(after[j].0@ == k);
        lemma_entry(after, j);
        if j < n {
            assert(entries[j].0@ == k);
            lemma_entry(entries, j);
        }
    }
    assert(left =~= right);
}

proof fn lemma_len<V>(entries: Seq<(String, V)>)
    requires
        distinct_keys(entries),
    ensures
        entries_map(entries).dom().finite(),
        entries_map(entries).dom().len() == entries.len(),
    decreases entries.len(),
{
    if entries.len() == 0 {
        assert(entries_map(entries).dom() =~= Set::empty());
    } else {
        let init = entries.drop_last();
        let e = entries.last();
        assert forall|a: int, b: int| 0 <= a < b < init.len() implies (#[trigger] init[a]).0@ != (
        #[trigger] init[b]).0@ by {
            assert(entries[a].0@ != entries[b].0@);
        }
        assert(!has_key(init, e.0@)) by {
            if has_key(init, e.0@) {
                let j = index_of_key(init, e.0@);
                assert(init[j].0@ == e.0@);
                assert(entries[j].0@ != entries[entries.len() - 1].0@);
            }
        }
        lemma_len(init);
        lemma_push(init, e);
        assert(init.push(e) =~= entries);
        assert(entries_map(entries).dom() =~= entries_map(init).dom().insert(e.0@));
    }
}

impl<V> KeyedList<V> {
    /// No key is listed twice.
    pub closed spec fn well_formed(&self) -> bool {
        distinct_keys(self.entries@)
    }

    /// The keys in list order.
    pub closed spec fn keys(&self) -> Seq<Seq<char>> {
        self.entries@.map_values(|e: (String, V)| e.0@)
    }

    /// An empty list.
    pub fn new() -> (r: Self)
        ensures
            r.well_formed(),
            r@ == Map::<Seq<char>, V>::empty(),
            r.keys() == Seq::<Seq<char>>::empty(),
    {
        let r = KeyedList { entries: Vec::new() };
        assert(r@ =~= Map::<Seq<char>, V>::empty());
        assert(r.keys() =~= Seq::<Seq<char>>::empty());
        r
    }

    /// What is known of the keys of a list.
    pub proof fn lemma_keys(&self)
        requires
            self.well_formed(),
        ensures
            forall|k: Seq<char>| #[trigger]
                self@.contains_key(k) <==> exists|i: int|
                    0 <= i < self.keys().len() && #[trigger] self.keys()[i] == k,
            forall|i: int, j: int|
                0 <= i < j < self.keys().len() ==> #[trigger] self.keys()[i]
                    != #[trigger] self.keys()[j],
            forall|i: int| 0 <= i < self.keys().len() ==> self@.contains_key(#[trigger] self.keys()[i]),
    {
        let keys = self.keys();
        let entries = self.entries@;
        assert forall|k: Seq<char>| #[trigger] self@.contains_key(k) <==> exists|i: int|
            0 <= i < keys.len() && #[trigger] keys[i] == k by {
            if has_key(entries, k) {
                let i = index_of_key(entries, k);
                assert(entries[i].0@ == k);
                assert(keys[i] == k);
            }
            if exists|i: int| 0 <= i < keys.len() && #[trigger] keys[i] == k {
                let i = choose|i: int| 0 <= i < keys.len() && #[trigger] keys[i] == k;
                assert(entries[i].0@ == k);
            }
        }
        assert forall|i: int, j: int| 0 <= i < j < keys.len() implies #[trigger] keys[i]
            != #[trigger] keys[j] by {
            assert(entries[i].0@ != entries[j].0@);
        }
    }

    /// How many keys there are.
    pub fn len(&self) -> (n: usize)
        requires
            self.well_formed(),
        ensures
            n == self@.len(),
            n == self.keys().len(),
    {
        proof {
            lemma_len(self.entries@);
        }
        self.entries.len()
    }

    /// The key at index `i`.
    pub fn key(&self, i: usize) -> (r: &str)
        requires
            i < self.keys().len(),
        ensures
            r@ == self.keys()[i as int],
    {
        self.entries[i].0.as_str()
    }

    /// The value under the key at index `i`.
    pub fn value(&self, i: usize) -> (r: &V)
        requires
            self.well_formed(),
            i < self.keys().len(),
        ensures
            self@.contains_key(self.keys()[i as int]),
            *r == self@[self.keys()[i as int]],
    {
        proof {
            lemma_entry(self.entries@, i as int);
        }
        &self.entries[i].1
    }

    /// The index of `key`.
    pub fn find(&self, key: &str) -> (r: Option<usize>)
        requires
            self.well_formed(),
        ensures
            r is Some <==> self@.contains_key(key@),
            r matches Some(i) ==> i < self.keys().len() && self.keys()[i as int] == key@,
    {
        for i in 0..self.entries.len()
            invariant
                forall|j: int| 0 <= j < i ==> (#[trigger] self.entries@[j]).0@ != key@,
        {
            if text::same_text(self.entries[i].0.as_str(), key) {
                return Some(i);
            }
        }
        None
    }

    /// Replaces the value under the key at index `i`.
    pub fn set(&mut self, i: usize, value: V)
        requires
            old(self).well_formed(),
            i < old(self).keys().len(),
        ensures
            final(self).well_formed(),
            final(self).keys() == old(self).keys(),
            final(self)@ == old(self)@.insert(old(self).keys()[i as int], value),
    {
        let ghost before = self.entries@;
        let e: (String, V) = (self.entries[i].0.clone(), value);
        proof {
            lemma_update(before, i as int, e);
        }
        self.entries.set(i, e);
        assert(self.keys() =~= old(self).keys());
    }

    /// Puts `value` under `key`, in place of what stood there.
    pub fn insert(&mut self, key: String, value: V)
        requires
            old(self).well_formed(),
        ensures
            final(self).well_formed(),
            final(self)@ == old(self)@.insert(key@, value),
    {
        match self.find(key.as_str()) {
            Some(i) => self.set(i, value),
            None => {
                proof {
                    lemma_push(self.entries@, (key, value));
                }
                self.entries.push((key, value));
            },
        }
    }
}

} // verus!
