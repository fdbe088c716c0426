//! A map from keys that are compared by their view, kept as a list of entries.

use vstd::prelude::*;

verus! {

/// What a table can be keyed by.
pub trait Key: View + Sized {
    /// Whether the two keys stand for the same thing.
    fn same(&self, other: &Self) -> (r: bool)
        ensures
            r == (self@ == other@),
    ;
}

impl Key for [u8; 32] {
    fn same(&self, other: &Self) -> (r: bool) {
        crate::bytes::same_key(self, other)
    }
}

/// The map that a list of entries stands for, the last one winning.
pub open spec fn entries_map<K: Key, V>(entries: Seq<(K, V)>) -> Map<K::V, V>
    decreases entries.len(),
{
    if entries.len() == 0 {
        Map::empty()
    } else {
        entries_map(entries.drop_last()).insert(entries.last().0@, entries.last().1)
    }
}

/// No two entries have the same key.
pub open spec fn entries_distinct<K: Key, V>(entries: Seq<(K, V)>) -> bool {
    forall|i: int, j: int|
        0 <= i < j < entries.len() ==> (#[trigger] entries[i]).0@ != (#[trigger] entries[j]).0@
}

proof fn lemma_entries<K: Key, V>(entries: Seq<(K, V)>)
    requires
        entries_distinct(entries),
    ensures
        entries_map(entries).dom().finite(),
        entries_map(entries).dom().len() == entries.len(),
        forall|i: int|
            0 <= i < entries.len() ==> entries_map(entries).contains_key(
                (#[trigger] entries[i]).0@,
            ) && entries_map(entries)[entries[i].0@] == entries[i].1,
        forall|k: K::V| #[trigger]
            entries_map(entries).contains_key(k) ==> exists|i: int|
                0 <= i < entries.len() && (#[trigger] entries[i]).0@ == k,
    decreases entries.len(),
{
    if entries.len() > 0 {
        let init = entries.drop_last();
        lemma_entries(init);
        let k = entries.last().0@;
        if entries_map(init).contains_key(k) {
            let i = choose|i: int| 0 <= i < init.len() && (#[trigger] init[i]).0@ == k;
            assert(entries[i].0@ == entries[entries.len() - 1].0@);
        }
        assert forall|i: int| 0 <= i < entries.len() implies entries_map(entries).contains_key(
            (#[trigger] entries[i]).0@,
        ) && entries_map(entries)[entries[i].0@] == entries[i].1 by {
            if i < init.len() {
                assert(init[i] == entries[i]);
            }
        }
        assert forall|q: K::V| #[trigger] entries_map(entries).contains_key(q) implies exists|
            i: int,
        | 0 <= i < entries.len() && (#[trigger] entries[i]).0@ == q by {
            if q == k {
                assert(entries[entries.len() - 1].0@ == q);
            } else {
                let i = choose|i: int| 0 <= i < init.len() && (#[trigger] init[i]).0@ == q;
                assert(entries[i].0@ == q);
            }
        }
    }
}

/// A map from `K` to `V`. Entries are found by looking through the list.
pub struct Table<K: Key, V> {
    entries: Vec<(K, V)>,
}

impl<K: Key, V> View for Table<K, V> {
    type V = Map<K::V, V>;

    closed spec fn view(&self) -> Map<K::V, V> {
        entries_map(self.entries@)
    }
}

impl<K: Key, V> Table<K, V> {
    /// Every key has one entry.
    #[verifier::type_invariant]
    spec fn wf(self) -> bool {
        entries_distinct(self.entries@)
    }

    pub fn new() -> (t: Self)
        ensures
            t@ == Map::<K::V, V>::empty(),
    {
        Table { entries: Vec::new() }
    }

    pub fn len(&self) -> (n: usize)
        ensures
            self@.dom().finite(),
            n == self@.dom().len(),
    {
        proof {
            use_type_invariant(self);
            lemma_entries(self.entries@);
        }
        self.entries.len()
    }

    fn find(&self, key: &K) -> (at: Option<usize>)
        ensures
            match at {
                Some(i) => i < self.entries@.len() && self.entries@[i as int].0@ == key@
                    && self@.contains_key(key@) && self@[key@] == self.entries@[i as int].1,
                None => !self@.contains_key(key@),
            },
    {
        proof {
            use_type_invariant(self);
            lemma_entries(self.entries@);
        }
        let mut i: usize = 0;
        while i < self.entries.len()
            invariant
                i <= self.entries@.len(),
                forall|j: int| 0 <= j < i ==> (#[trigger] self.entries@[j]).0@ != key@,
            decreases self.entries@.len() - i,
        {
            if self.entries[i].0.same(key) {
                proof {
                    use_type_invariant(self);
                    lemma_entries(self.entries@);
                }
                return Some(i);
            }
            i += 1;
        }
        None
    }

    pub fn contains(&self, key: &K) -> (r: bool)
        ensures
            r == self@.contains_key(key@),
    {
        self.find(key).is_some()
    }

    pub fn get(&self, key: &K) -> (value: Option<&V>)
        ensures
            match value {
                Some(v) => self@.contains_key(key@) && *v == self@[key@],
                None => !self@.contains_key(key@),
            },
    {
        match self.find(key) {
            Some(i) => Some(&self.entries[i].1),
            None => None,
        }
    }

    pub fn remove(&mut self, key: &K) -> (value: Option<V>)
        ensures
            final(self)@ == old(self)@.remove(key@),
            match value {
                Some(v) => old(self)@.contains_key(key@) && v == old(self)@[key@],
                None => !old(self)@.contains_key(key@),
            },
    {
        match self.find(key) {
            None => {
                assert(self@.remove(key@) =~= self@);
                None
            },
            Some(i) => {
                let mut entries: Vec<(K, V)> = Vec::new();
                let ghost before = self.entries@;
                proof {
                    use_type_invariant(&*self);
                    lemma_entries(before);
                }
                std::mem::swap(&mut entries, &mut self.entries);
                let entry = entries.remove(i);
                proof {
                    let after = entries@;
                    assert forall|a: int, b: int| 0 <= a < b < after.len() implies (
                    #[trigger] after[a]).0@ != (#[trigger] after[b]).0@ by {
                        let a0 = if a < i { a } else { a + 1 };
                        let b0 = if b < i { b } else { b + 1 };
                        assert(before[a0] == after[a] && before[b0] == after[b]);
                    }
                    lemma_entries(after);
                    let m = entries_map(before);
                    let n = entries_map(after);
                    assert forall|q: K::V| n.contains_key(q) implies m.remove(key@).contains_key(q)
                        && m.remove(key@)[q] == n[q] by {
                        let a = choose|a: int| 0 <= a < after.len() && (#[trigger] after[a]).0@ == q;
                        let a0 = if a < i { a } else { a + 1 };
                        assert(before[a0] == after[a]);
                        assert(before[a0].0@ != before[i as int].0@);
                    }
                    assert forall|q: K::V| m.remove(key@).contains_key(q) implies n.contains_key(
                        q,
                    ) by {
                        let a0 = choose|a: int|
                            0 <= a < before.len() && (#[trigger] before[a]).0@ == q;
                        let a = if a0 < i { a0 } else { a0 - 1 };
                        assert(before[a0] == after[a]);
                    }
                    assert(n =~= m.remove(key@));
                }
                self.entries = entries;
                Some(entry.1)
            },
        }
    }

    /// Adds an entry for a key that has none.
    pub fn insert_new(&mut self, key: K, value: V)
        requires
            !old(self)@.contains_key(key@),
        ensures
            final(self)@ == old(self)@.insert(key@, value),
    {
        let mut entries: Vec<(K, V)> = Vec::new();
        let ghost before = self.entries@;
        proof {
            use_type_invariant(&*self);
            lemma_entries(before);
        }
        std::mem::swap(&mut entries, &mut self.entries);
        entries.push((key, value));
        proof {
            assert(entries@.drop_last() =~= before);
            assert forall|a: int, b: int| 0 <= a < b < entries@.len() implies (
            #[trigger] entries@[a]).0@ != (#[trigger] entries@[b]).0@ by {
                assert(entries@[a] == before[a]);
                if b < before.len() {
                    assert(entries@[b] == before[b]);
                } else {
                    assert(entries_map(before).contains_key(before[a].0@));
                }
            }
        }
        self.entries = entries;
    }

    /// Sets the value of a key.
    pub fn insert(&mut self, key: K, value: V)
        ensures
            final(self)@ == old(self)@.insert(key@, value),
    {
        let ghost before = self@;
        let _ = self.remove(&key);
        self.insert_new(key, value);
        assert(before.remove(key@).insert(key@, value) =~= before.insert(key@, value));
    }

    /// Takes some entry out.
    pub fn pop(&mut self) -> (entry: Option<(K, V)>)
        ensures
            match entry {
                Some(e) => old(self)@.contains_key(e.0@) && old(self)@[e.0@] == e.1
                    && final(self)@ == old(self)@.remove(e.0@) && final(self)@.dom().len() + 1
                    == old(self)@.dom().len(),
                None => old(self)@ == Map::<K::V, V>::empty() && final(self)@ == old(self)@,
            },
    {
        let mut entries: Vec<(K, V)> = Vec::new();
        let ghost before = self.entries@;
        proof {
            use_type_invariant(&*self);
            lemma_entries(before);
        }
        std::mem::swap(&mut entries, &mut self.entries);
        let entry = entries.pop();
        proof {
            if before.len() > 0 {
                let after = before.drop_last();
                assert(entries@ =~= after);
                assert(entries_distinct(after)) by {
                    assert forall|a: int, b: int| 0 <= a < b < after.len() implies (
                    #[trigger] after[a]).0@ != (#[trigger] after[b]).0@ by {
                        assert(after[a] == before[a] && after[b] == before[b]);
                    }
                }
                lemma_entries(after);
                let k = before.last().0@;
                assert(!entries_map(after).contains_key(k)) by {
                    if entries_map(after).contains_key(k) {
                        let a = choose|a: int| 0 <= a < after.len() && (#[trigger] after[a]).0@ == k;
                        assert(before[a].0@ == before[before.len() - 1].0@);
                    }
                }
                assert(entries_map(before).remove(k) =~= entries_map(after));
                assert(before[before.len() - 1].0@ == k);
            } else {
                assert(entries@ =~= before);
            }
        }
        self.entries = entries;
        entry
    }

    pub fn clear(&mut self)
        ensures
            final(self)@ == Map::<K::V, V>::empty(),
    {
        self.entries = Vec::new();
    }
}

} // verus!
