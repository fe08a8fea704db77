//! One shard: a map from keys to entries that can also be walked.
use crate::entry::{Entry, EntryView};
use vstd::hash_map::StringHashMap;
use vstd::prelude::*;

verus! {

/// A map from keys to entries.
///
/// The entries stand in one vector without gaps, so that they can be walked, and a hash table
/// says at which position each key stands.
pub struct Shard {
    slots: Vec<(String, Entry)>,
    positions: StringHashMap<usize>,
}

impl View for Shard {
    type V = Map<Seq<char>, EntryView>;

    closed spec fn view(&self) -> Map<Seq<char>, EntryView> {
        Map::new(
            |k: Seq<char>| self.positions@.contains_key(k),
            |k: Seq<char>| self.slots@[self.positions@[k] as int].1@,
        )
    }
}

impl Shard {
    /// The table and the vector describe the same keys.
    pub closed spec fn wf(&self) -> bool {
        &&& forall|k: Seq<char>| #[trigger]
            self.positions@.contains_key(k) ==> self.positions@[k] < self.slots@.len()
                && self.slots@[self.positions@[k] as int].0@ == k
        &&& forall|i: int|
            0 <= i < self.slots@.len() ==> {
                &&& self.positions@.contains_key((#[trigger] self.slots@[i]).0@)
                &&& self.positions@[self.slots@[i].0@] == i
            }
    }

    /// The number of entries.
    pub closed spec fn spec_len(&self) -> nat {
        self.slots@.len()
    }

    /// The key at a position.
    pub closed spec fn key_at(&self, i: int) -> Seq<char> {
        self.slots@[i].0@
    }

    /// The position of a key.
    pub closed spec fn position_of(&self, key: Seq<char>) -> int {
        self.positions@[key] as int
    }

    /// The positions enumerate the keys, each once.
    pub proof fn lemma_positions(&self)
        requires
            self.wf(),
        ensures
            forall|i: int|
                0 <= i < self.spec_len() ==> self@.contains_key(#[trigger] self.key_at(i))
                    && self.position_of(self.key_at(i)) == i,
            forall|k: Seq<char>| #[trigger]
                self@.contains_key(k) ==> 0 <= self.position_of(k) < self.spec_len()
                    && self.key_at(self.position_of(k)) == k,
    {
    }

    /// Creates an empty shard with room for `capacity` entries.
    pub fn with_capacity(capacity: usize) -> (shard: Self)
        ensures
            shard.wf(),
            shard@ == Map::<Seq<char>, EntryView>::empty(),
    {
        let shard = Shard {
            slots: Vec::with_capacity(capacity),
            positions: StringHashMap::with_capacity(capacity),
        };
        assert(shard@ =~= Map::<Seq<char>, EntryView>::empty());
        shard
    }

    /// The number of entries.
    pub fn len(&self) -> (n: usize)
        ensures
            n == self.spec_len(),
    {
        self.slots.len()
    }

    /// The key and the entry at a position.
    pub fn at(&self, i: usize) -> (slot: (&String, &Entry))
        requires
            self.wf(),
            i < self.spec_len(),
        ensures
            slot.0@ == self.key_at(i as int),
            self@.contains_key(slot.0@),
            slot.1@ == self@[slot.0@],
    {
        let slot = &self.slots[i];
        (&slot.0, &slot.1)
    }

    /// The entry of a key.
    pub fn get(&self, key: &str) -> (entry: Option<&Entry>)
        requires
            self.wf(),
        ensures
            match entry {
                Some(e) => self@.contains_key(key@) && e@ == self@[key@],
                None => !self@.contains_key(key@),
            },
    {
        match self.positions.get(key) {
            Some(i) => Some(&self.slots[*i].1),
            None => None,
        }
    }

    /// Whether a key has an entry.
    pub fn contains_key(&self, key: &str) -> (yes: bool)
        requires
            self.wf(),
        ensures
            yes == self@.contains_key(key@),
    {
        self.positions.contains_key(key)
    }

    /// Gives a key an entry, in place of the one it may have.
    pub fn insert(&mut self, key: String, entry: Entry)
        requires
            old(self).wf(),
        ensures
            final(self).wf(),
            final(self)@ == old(self)@.insert(key@, entry@),
    {
        let found: Option<usize> = match self.positions.get(key.as_str()) {
            Some(i) => Some(*i),
            None => None,
        };
        let ghost k = key@;
        let ghost e = entry@;
        match found {
            Some(i) => {
                self.slots[i] = (key, entry);
                assert forall|j: int| 0 <= j < self.slots@.len() implies {
                    &&& self.positions@.contains_key((#[trigger] self.slots@[j]).0@)
                    &&& self.positions@[self.slots@[j].0@] == j
                } by {
                    assert(old(self).positions@.contains_key(old(self).slots@[j].0@));
                }
            },
            None => {
                let i: usize = self.slots.len();
                let copy = key.clone();
                self.slots.push((key, entry));
                self.positions.insert(copy, i);
                assert forall|j: int| 0 <= j < self.slots@.len() implies {
                    &&& self.positions@.contains_key((#[trigger] self.slots@[j]).0@)
                    &&& self.positions@[self.slots@[j].0@] == j
                } by {
                    if j < i {
                        assert(self.slots@[j] == old(self).slots@[j]);
                    }
                }
            },
        }
        assert(self@ =~= old(self)@.insert(k, e));
    }

    /// Takes the entry of a key out.
    pub fn remove(&mut self, key: &str) -> (entry: Option<Entry>)
        requires
            old(self).wf(),
        ensures
            final(self).wf(),
            final(self)@ == old(self)@.remove(key@),
            match entry {
                Some(e) => old(self)@.contains_key(key@) && e@ == old(self)@[key@],
                None => !old(self)@.contains_key(key@),
            },
    {
        let found: Option<usize> = match self.positions.get(key) {
            Some(i) => Some(*i),
            None => None,
        };
        let entry = match found {
            Some(i) => {
                let last: usize = self.slots.len() - 1;
                let taken = self.slots.swap_remove(i);
                self.positions.remove(key);
                if i < last {
                    let moved = self.slots[i].0.clone();
                    self.positions.insert(moved, i);
                }
                proof {
                    let was = old(self).slots@;
                    assert(was[i as int].0@ == key@);
                    assert(i < last ==> self.slots@[i as int] == was[last as int]);
                    assert forall|j: int| 0 <= j < self.slots@.len() implies {
                        &&& self.positions@.contains_key((#[trigger] self.slots@[j]).0@)
                        &&& self.positions@[self.slots@[j].0@] == j
                    } by {
                        if j != i {
                            assert(self.slots@[j] == was[j]);
                            assert(was[j].0@ != was[last as int].0@);
                            assert(was[j].0@ != was[i as int].0@);
                        } else {
                            assert(was[last as int].0@ != was[i as int].0@);
                        }
                    }
                    assert forall|k: Seq<char>| #[trigger]
                        self.positions@.contains_key(k) implies self.positions@[k]
                        < self.slots@.len() && self.slots@[self.positions@[k] as int].0@ == k by {
                        if i < last && k == was[last as int].0@ {
                        } else {
                            assert(old(self).positions@.contains_key(k));
                            let j = old(self).positions@[k] as int;
                            assert(was[j].0@ == k);
                        }
                    }
                }
                Some(taken.1)
            },
            None => None,
        };
        assert(self@ =~= old(self)@.remove(key@));
        entry
    }
}

} // verus!
