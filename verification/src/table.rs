//! A small association table keyed by `u64` handles: the crate's stand-in for
//! the host's durable key-value store. Keys are unique and the view is the
//! map from keys to values.

use vstd::prelude::*;

verus! {

/// The map denoted by a sequence of entries; a later entry would win, but a
/// well-formed `Table` never holds the same key twice.
pub open spec fn map_of<V>(entries: Seq<(u64, V)>) -> Map<u64, V>
    decreases entries.len(),
{
    if entries.len() == 0 {
        Map::empty()
    } else {
        map_of(entries.drop_last()).insert(entries.last().0, entries.last().1)
    }
}

/// No key occurs twice.
pub open spec fn unique_keys<V>(entries: Seq<(u64, V)>) -> bool {
    forall|i: int, j: int|
        0 <= i < j < entries.len() ==> (#[trigger] entries[i]).0 != (#[trigger] entries[j]).0
}

pub proof fn lemma_map_of_contains<V>(entries: Seq<(u64, V)>, k: u64)
    ensures
        map_of(entries).contains_key(k) <==> exists|i: int|
            0 <= i < entries.len() && (#[trigger] entries[i]).0 == k,
    decreases entries.len(),
{
    if entries.len() > 0 {
        lemma_map_of_contains(entries.drop_last(), k);
        if entries.last().0 == k {
            assert((#[trigger] entries[entries.len() - 1]).0 == k);
        } else if map_of(entries).contains_key(k) {
            let i = choose|i: int|
                0 <= i < entries.drop_last().len() && (#[trigger] entries.drop_last()[i]).0 == k;
            assert((#[trigger] entries[i]).0 == k);
        } else {
            assert forall|i: int|
                0 <= i < entries.len() && (#[trigger] entries[i]).0 == k implies false by {
                if i < entries.len() - 1 {
                    assert((#[trigger] entries.drop_last()[i]).0 == k);
                }
            }
        }
    }
}

pub proof fn lemma_map_of_index<V>(entries: Seq<(u64, V)>, i: int)
    requires
        unique_keys(entries),
        0 <= i < entries.len(),
    ensures
        map_of(entries).contains_key(entries[i].0),
        map_of(entries)[entries[i].0] == entries[i].1,
    decreases entries.len(),
{
    if i < entries.len() - 1 {
        assert(unique_keys(entries.drop_last())) by {
            assert forall|a: int, b: int|
                0 <= a < b < entries.drop_last().len() implies (#[trigger] entries.drop_last()[a]).0
                != (#[trigger] entries.drop_last()[b]).0 by {
                assert((#[trigger] entries[a]).0 != (#[trigger] entries[b]).0);
            }
        }
        lemma_map_of_index(entries.drop_last(), i);
        assert(entries.drop_last()[i] == entries[i]);
        assert(entries[i].0 != entries.last().0);
    }
}

pub proof fn lemma_map_of_remove<V>(entries: Seq<(u64, V)>, i: int)
    requires
        unique_keys(entries),
        0 <= i < entries.len(),
    ensures
        map_of(entries.remove(i)) == map_of(entries).remove(entries[i].0),
    decreases entries.len(),
{
    let k = entries[i].0;
    if i == entries.len() - 1 {
        assert(entries.remove(i) =~= entries.drop_last());
        assert(!map_of(entries.drop_last()).contains_key(k)) by {
            lemma_map_of_contains(entries.drop_last(), k);
            if exists|j: int|
                0 <= j < entries.drop_last().len() && (#[trigger] entries.drop_last()[j]).0 == k {
                let j = choose|j: int|
                    0 <= j < entries.drop_last().len() && (#[trigger] entries.drop_last()[j]).0
                        == k;
                assert((#[trigger] entries[j]).0 == (#[trigger] entries[i]).0);
            }
        }
        assert(map_of(entries.drop_last()) =~= map_of(entries).remove(k));
    } else {
        let rest = entries.drop_last();
        assert(unique_keys(rest)) by {
            assert forall|a: int, b: int|
                0 <= a < b < rest.len() implies (#[trigger] rest[a]).0 != (#[trigger] rest[b]).0 by {
                assert((#[trigger] entries[a]).0 != (#[trigger] entries[b]).0);
            }
        }
        lemma_map_of_remove(rest, i);
        assert(rest[i] == entries[i]);
        let shorter = entries.remove(i);
        assert(shorter.drop_last() =~= rest.remove(i));
        assert(shorter.last() == entries.last());
        assert(k != entries.last().0) by {
            assert((#[trigger] entries[i]).0 != (#[trigger] entries[entries.len() - 1]).0);
        }
        assert(map_of(shorter) =~= map_of(entries).remove(k));
    }
}

/// An association table keyed by `u64` handles.
pub struct Table<V> {
    entries: Vec<(u64, V)>,
}

impl<V> View for Table<V> {
    type V = Map<u64, V>;

    closed spec fn view(&self) -> Map<u64, V> {
        map_of(self.entries@)
    }
}

impl<V> Table<V> {
    /// Keys are unique; every operation preserves this.
    pub closed spec fn wf(&self) -> bool {
        unique_keys(self.entries@)
    }

    pub fn new() -> (r: Self)
        ensures
            r.wf(),
            r@ == Map::<u64, V>::empty(),
    {
        Table { entries: Vec::new() }
    }

    fn position(&self, key: u64) -> (r: Option<usize>)
        requires
            self.wf(),
        ensures
            match r {
                Some(i) => i < self.entries@.len() && self.entries@[i as int].0 == key,
                None => !self@.contains_key(key),
            },
    {
        let mut i: usize = 0;
        while i < self.entries.len()
            invariant
                i <= self.entries@.len(),
                forall|j: int| 0 <= j < i ==> (#[trigger] self.entries@[j]).0 != key,
            decreases self.entries@.len() - i,
        {
            if self.entries[i].0 == key {
                return Some(i);
            }
            i += 1;
        }
        proof {
            lemma_map_of_contains(self.entries@, key);
        }
        None
    }

    pub fn contains(&self, key: u64) -> (r: bool)
        requires
            self.wf(),
        ensures
            r == self@.contains_key(key),
    {
        proof {
            lemma_map_of_contains(self.entries@, key);
        }
        match self.position(key) {
            Some(_) => true,
            None => false,
        }
    }

    pub fn get(&self, key: u64) -> (r: Option<&V>)
        requires
            self.wf(),
        ensures
            match r {
                Some(v) => self@.contains_key(key) && *v == self@[key],
                None => !self@.contains_key(key),
            },
    {
        match self.position(key) {
            Some(i) => {
                proof {
                    lemma_map_of_index(self.entries@, i as int);
                }
                Some(&self.entries[i].1)
            },
            None => None,
        }
    }

    pub fn remove(&mut self, key: u64) -> (r: Option<V>)
        requires
            old(self).wf(),
        ensures
            final(self).wf(),
            final(self)@ == old(self)@.remove(key),
            match r {
                Some(v) => old(self)@.contains_key(key) && v == old(self)@[key],
                None => !old(self)@.contains_key(key) && *final(self) == *old(self),
            },
    {
        match self.position(key) {
            Some(i) => {
                proof {
                    lemma_map_of_index(self.entries@, i as int);
                    lemma_map_of_remove(self.entries@, i as int);
                    assert(unique_keys(self.entries@.remove(i as int))) by {
                        let shorter = self.entries@.remove(i as int);
                        assert forall|a: int, b: int|
                            0 <= a < b < shorter.len() implies (#[trigger] shorter[a]).0
                            != (#[trigger] shorter[b]).0 by {
                            let a0 = if a < i { a } else { a + 1 };
                            let b0 = if b < i { b } else { b + 1 };
                            assert((#[trigger] self.entries@[a0]).0
                                != (#[trigger] self.entries@[b0]).0);
                        }
                    }
                }
                let entry = self.entries.remove(i);
                Some(entry.1)
            },
            None => {
                proof {
                    assert(self@.remove(key) =~= self@);
                }
                None
            },
        }
    }

    pub fn set(&mut self, key: u64, value: V)
        requires
            old(self).wf(),
        ensures
            final(self).wf(),
            final(self)@ == old(self)@.insert(key, value),
    {
        let ghost pre = self@;
        let _ = self.remove(key);
        let ghost mid = self.entries@;
        proof {
            lemma_map_of_contains(mid, key);
        }
        self.entries.push((key, value));
        proof {
            assert(self.entries@.drop_last() =~= mid);
            assert(unique_keys(self.entries@)) by {
                assert forall|a: int, b: int|
                    0 <= a < b < self.entries@.len() implies (#[trigger] self.entries@[a]).0
                    != (#[trigger] self.entries@[b]).0 by {
                    if b == self.entries@.len() - 1 {
                        assert((#[trigger] mid[a]).0 != key);
                    } else {
                        assert((#[trigger] mid[a]).0 != (#[trigger] mid[b]).0);
                    }
                }
            }
            assert(self@ == map_of(mid).insert(key, value));
            assert(pre.remove(key).insert(key, value) =~= pre.insert(key, value));
        }
    }
}

} // verus!

verus! {

impl<V> Table<V> {
    /// The entries as stored, for a host that persists the table elsewhere.
    pub fn entries(&self) -> (r: &Vec<(u64, V)>)
        requires
            self.wf(),
        ensures
            unique_keys(r@),
            map_of(r@) == self@,
    {
        &self.entries
    }

    /// Rebuilds a table from persisted entries; on a repeated key the later
    /// entry wins, as in `map_of`.
    pub fn from_entries(entries: Vec<(u64, V)>) -> (r: Self)
        ensures
            r.wf(),
            r@ == map_of(entries@),
    {
        let mut r = Table::new();
        let mut entries = entries;
        let ghost all = entries@;
        let total = entries.len();
        proof {
            assert(all.len() == total);
        }
        let mut i: usize = 0;
        while entries.len() > 0
            invariant
                all.len() <= usize::MAX,
                i <= all.len(),
                i as int == all.len() - entries@.len(),
                entries@ == all.subrange(i as int, all.len() as int),
                r.wf(),
                r@ == map_of(all.subrange(0, i as int)),
            decreases entries@.len(),
        {
            let (k, v) = entries.remove(0);
            proof {
                assert(all.subrange(i as int, all.len() as int)[0] == all[i as int]);
            }
            r.set(k, v);
            proof {
                let s2 = all.subrange(0, i + 1);
                assert(s2.drop_last() =~= all.subrange(0, i as int));
                assert(s2.last() == (k, v));
                assert(map_of(s2) == map_of(all.subrange(0, i as int)).insert(k, v));
                assert(entries@ =~= all.subrange(i + 1, all.len() as int));
            }
            i += 1;
        }
        proof {
            assert(all.subrange(0, all.len() as int) =~= all);
        }
        r
    }
}

} // verus!
