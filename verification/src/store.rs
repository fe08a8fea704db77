//! The sharded store.
use crate::bytes::copy_bytes;
use crate::clock::now_ms;
use crate::entry::{Entry, EntryView, TtlInfo};
use crate::model::{in_order, keys_of, lemma_in_order, lists, strictly_ascending, StoreView};
use crate::shard::Shard;
use crate::sort::{ascending, key_views, sort_keys};
use crate::text::{key_is_less, key_less, key_starts_with, lemma_key_less_total};
use std::collections::hash_map::DefaultHasher;
use std::hash::Hasher;
use vstd::prelude::*;
use vstd::std_specs::hash::DefaultHasherAdditionalSpecFns;
use vstd::utf8::encode_utf8;

verus! {

/// The number of shards, a power of two.
pub const SHARDS: usize = 16;

/// The number of entries that each shard has room for at the start.
pub const PER_SHARD_CAPACITY: usize = 8192;

/// The shard of a key: the low bits of its hash.
pub open spec fn shard_of(key: Seq<char>) -> usize {
    (DefaultHasher::spec_finish(seq![encode_utf8(key), seq![0xFFu8]]) as usize) & 15
}

/// Computes the shard of a key.
pub fn hash_key(key: &str) -> (shard: usize)
    ensures
        shard == shard_of(key@),
        shard < SHARDS,
{
    let mut hasher = DefaultHasher::new();
    hasher.write(key.as_bytes());
    let end: [u8; 1] = [0xFF];
    hasher.write(end.as_slice());
    assert(end@ =~= seq![0xFFu8]);
    assert(hasher@ =~= seq![encode_utf8(key@), seq![0xFFu8]]);
    let hash = hasher.finish() as usize;
    assert(hash & 15 < 16) by (bit_vector);
    hash & (SHARDS - 1)
}

/// What a read of a key finds, before anything is removed.
pub enum Lookup {
    /// The key has an entry that has not expired, with this value.
    Live(Vec<u8>),
    /// The key has an entry that has expired.
    Expired,
    /// The key has no entry.
    Absent,
}

/// The bytes of an optional value.
pub open spec fn value_view(value: Option<Vec<u8>>) -> Option<Seq<u8>> {
    match value {
        Some(bytes) => Some(bytes@),
        None => None,
    }
}

/// The bytes of a sequence of optional values.
pub open spec fn value_views(values: Seq<Option<Vec<u8>>>) -> Seq<Option<Seq<u8>>> {
    values.map_values(|v: Option<Vec<u8>>| value_view(v))
}

/// An entry on its way to or from a snapshot: key, value and expiry timestamp.
pub type SnapshotEntry = (String, Vec<u8>, Option<u64>);

/// The key and the entry of a snapshot entry.
pub open spec fn snapshot_view(entry: SnapshotEntry) -> (Seq<char>, EntryView) {
    (entry.0@, EntryView { value: entry.1@, expires_at: entry.2 })
}

/// The keys and the entries of a sequence of snapshot entries.
pub open spec fn snapshot_views(entries: Seq<SnapshotEntry>) -> Seq<(Seq<char>, EntryView)> {
    entries.map_values(|e: SnapshotEntry| snapshot_view(e))
}

/// The keys of a listing.
pub closed spec fn listed_keys(listing: Seq<(&String, &Entry)>) -> Seq<Seq<char>> {
    listing.map_values(|slot: (&String, &Entry)| slot.0@)
}

/// A key-value store, divided into shards by the hash of the key.
///
/// Keys are text, values are arbitrary bytes. A store may have a bound on its number of entries
/// ([`ShardedKV::with_max_entries`]); when it is reached, writes of new keys are refused. Entries
/// may expire ([`ShardedKV::set_with_ttl`]). An expired entry is never seen by a reader; it is
/// removed when its key is next read, by a scan, or by [`ShardedKV::sweep_expired`].
///
/// Each operation that depends on the time exists twice: under its plain name it reads the clock,
/// and with the suffix `_at` it takes the time as an argument.
pub struct ShardedKV {
    shards: Vec<Shard>,
    max_entries: usize,
    entry_count: u64,
}

impl View for ShardedKV {
    type V = StoreView;

    closed spec fn view(&self) -> StoreView {
        StoreView {
            entries: Map::new(
                |k: Seq<char>| self.shards@[shard_of(k) as int]@.contains_key(k),
                |k: Seq<char>| self.shards@[shard_of(k) as int]@[k],
            ),
            max_entries: self.max_entries,
        }
    }
}

impl ShardedKV {
    /// There are as many shards as there should be, each key stands in its own shard, and the
    /// counter shows the number of entries.
    pub closed spec fn wf(&self) -> bool {
        &&& self.shards@.len() == SHARDS
        &&& forall|i: int| 0 <= i < SHARDS ==> (#[trigger] self.shards@[i]).wf()
        &&& forall|i: int, k: Seq<char>|
            0 <= i < SHARDS && #[trigger] self.shards@[i]@.contains_key(k) ==> shard_of(k) == i
        &&& self@.entries.dom().finite()
        &&& self.entry_count == self@.len()
    }

    /// A store holds finitely many entries, and their number fits its counter.
    pub proof fn lemma_finite(&self)
        requires
            self.wf(),
        ensures
            self@.entries.dom().finite(),
            self@.len() <= u64::MAX,
    {
    }

    /// Creates a store without a bound on its number of entries.
    pub fn new() -> (store: Self)
        ensures
            store.wf(),
            store@ == StoreView::empty(0),
    {
        Self::with_max_entries(0)
    }

    /// Creates a store that takes no new key once it has `max_entries` entries. 0 means no bound.
    pub fn with_max_entries(max_entries: usize) -> (store: Self)
        ensures
            store.wf(),
            store@ == StoreView::empty(max_entries),
    {
        let mut shards: Vec<Shard> = Vec::with_capacity(SHARDS);
        while shards.len() < SHARDS
            invariant
                shards@.len() <= SHARDS,
                forall|i: int|
                    0 <= i < shards@.len() ==> (#[trigger] shards@[i]).wf() && shards@[i]@
                        == Map::<Seq<char>, EntryView>::empty(),
            decreases SHARDS - shards@.len(),
        {
            shards.push(Shard::with_capacity(PER_SHARD_CAPACITY));
        }
        let store = ShardedKV { shards, max_entries, entry_count: 0 };
        proof {
            lemma_shard_in_range();
            assert(store@.entries =~= Map::<Seq<char>, EntryView>::empty());
        }
        store
    }

    /// The shard of a key.
    fn shard(&self, key: &str) -> (shard: &Shard)
        requires
            self.wf(),
        ensures
            shard.wf(),
            shard@.contains_key(key@) == self@.contains(key@),
            self@.contains(key@) ==> shard@[key@] == self@.entries[key@],
    {
        &self.shards[hash_key(key)]
    }

    /// Puts an entry under a key, counting the key if it is new.
    fn insert_entry(&mut self, key: String, entry: Entry)
        requires
            old(self).wf(),
            old(self)@.contains(key@) || old(self)@.len() < u64::MAX,
        ensures
            final(self).wf(),
            final(self)@ == old(self)@.with(key@, entry@),
    {
        let i = hash_key(key.as_str());
        let known = self.shards[i].contains_key(key.as_str());
        let ghost k = key@;
        let ghost e = entry@;
        self.shards[i].insert(key, entry);
        if !known {
            self.entry_count = self.entry_count + 1;
        }
        proof {
            lemma_shard_in_range();
            assert(self@.entries =~= old(self)@.entries.insert(k, e));
        }
    }

    /// Takes the entry of a key out and counts it off.
    fn remove_entry(&mut self, key: &str) -> (entry: Option<Entry>)
        requires
            old(self).wf(),
        ensures
            final(self).wf(),
            final(self)@ == old(self)@.without(key@),
            match entry {
                Some(e) => old(self)@.contains(key@) && e@ == old(self)@.entries[key@],
                None => !old(self)@.contains(key@),
            },
    {
        let i = hash_key(key);
        let entry = self.shards[i].remove(key);
        proof {
            lemma_shard_in_range();
            assert(self@.entries =~= old(self)@.entries.remove(key@));
        }
        if entry.is_some() {
            assert(old(self)@.entries.dom().contains(key@));
            self.entry_count = self.entry_count - 1;
        }
        entry
    }

    /// Whether there is room for one more entry.
    fn has_room(&self) -> (yes: bool)
        requires
            self.wf(),
        ensures
            yes == (self@.len() < self@.capacity()),
    {
        if self.max_entries == 0 {
            self.entry_count < u64::MAX
        } else {
            self.entry_count < self.max_entries as u64
        }
    }

    /// Puts an entry under a key if the store admits it.
    fn write(&mut self, key: &str, entry: Entry) -> (done: bool)
        requires
            old(self).wf(),
        ensures
            final(self).wf(),
            done == old(self)@.admits(key@),
            final(self)@ == old(self)@.written(key@, entry@),
    {
        if !self.shard(key).contains_key(key) && !self.has_room() {
            return false;
        }
        self.insert_entry(key.to_owned(), entry);
        true
    }

    /// Sets a key to a value that does not expire, whatever expiry the key had before. Returns
    /// false, and leaves the store as it is, if the key is new and the store is full.
    pub fn set(&mut self, key: &str, value: Vec<u8>) -> (done: bool)
        requires
            old(self).wf(),
        ensures
            final(self).wf(),
            done == old(self)@.admits(key@),
            final(self)@ == old(self)@.written(
                key@,
                EntryView { value: value@, expires_at: None },
            ),
    {
        self.write(key, Entry::new(value))
    }

    /// Sets a key to a value that expires `ttl_ms` milliseconds after `now`. Returns false, and
    /// leaves the store as it is, if `ttl_ms` is 0, or if the key is new and the store is full.
    pub fn set_with_ttl_at(&mut self, key: &str, value: Vec<u8>, ttl_ms: u64, now: u64) -> (done:
        bool)
        requires
            old(self).wf(),
        ensures
            final(self).wf(),
            done == (ttl_ms > 0 && old(self)@.admits(key@)),
            final(self)@ == if ttl_ms > 0 {
                old(self)@.written(key@, StoreView::expiring(value@, ttl_ms, now))
            } else {
                old(self)@
            },
    {
        if ttl_ms == 0 {
            return false;
        }
        let expires_at: u64 = now.saturating_add(ttl_ms);
        self.write(key, Entry::with_expiry(value, expires_at))
    }

    /// Looks a key up without removing anything.
    pub fn lookup(&self, key: &str, now: u64) -> (found: Lookup)
        requires
            self.wf(),
        ensures
            match found {
                Lookup::Live(value) => self@.is_live(key@, now) && value@
                    == self@.entries[key@].value,
                Lookup::Expired => self@.is_stale(key@, now),
                Lookup::Absent => !self@.contains(key@),
            },
    {
        match self.shard(key).get(key) {
            Some(entry) => if entry.is_expired(now) {
                Lookup::Expired
            } else {
                Lookup::Live(copy_bytes(entry.value.as_slice()))
            },
            None => Lookup::Absent,
        }
    }

    /// Removes the entry of a key if it has expired; says whether it had.
    pub fn remove_if_expired(&mut self, key: &str, now: u64) -> (removed: bool)
        requires
            old(self).wf(),
        ensures
            final(self).wf(),
            removed == old(self)@.is_stale(key@, now),
            final(self)@ == old(self)@.touched(key@, now),
    {
        let expired = match self.shard(key).get(key) {
            Some(entry) => entry.is_expired(now),
            None => false,
        };
        if expired {
            self.remove_entry(key);
        }
        expired
    }

    /// The value of a key, or `None` if it has none or it has expired by `now`. An expired entry
    /// is removed.
    pub fn get_at(&mut self, key: &str, now: u64) -> (value: Option<Vec<u8>>)
        requires
            old(self).wf(),
        ensures
            final(self).wf(),
            value_view(value) == old(self)@.value_at(key@, now),
            final(self)@ == old(self)@.touched(key@, now),
    {
        match self.lookup(key, now) {
            Lookup::Live(value) => Some(value),
            Lookup::Expired => {
                self.remove_if_expired(key, now);
                None
            },
            Lookup::Absent => None,
        }
    }

    /// Removes a key. Returns its value, or `None` if it had none or it had expired by `now`.
    pub fn del_at(&mut self, key: &str, now: u64) -> (value: Option<Vec<u8>>)
        requires
            old(self).wf(),
        ensures
            final(self).wf(),
            value_view(value) == old(self)@.value_at(key@, now),
            final(self)@ == old(self)@.without(key@),
    {
        match self.remove_entry(key) {
            Some(entry) => if entry.is_expired(now) {
                None
            } else {
                Some(entry.value)
            },
            None => None,
        }
    }

    /// When a key expires, or `None` if it has no value or it has expired by `now`. An expired
    /// entry is removed.
    pub fn ttl_at(&mut self, key: &str, now: u64) -> (info: Option<TtlInfo>)
        requires
            old(self).wf(),
        ensures
            final(self).wf(),
            info == old(self)@.ttl_at(key@, now),
            final(self)@ == old(self)@.touched(key@, now),
    {
        let info = self.peek_ttl(key, now);
        if info.is_none() {
            self.remove_if_expired(key, now);
        }
        info
    }

    /// When a key expires, without removing anything.
    pub fn peek_ttl(&self, key: &str, now: u64) -> (info: Option<TtlInfo>)
        requires
            self.wf(),
        ensures
            info == self@.ttl_at(key@, now),
    {
        match self.shard(key).get(key) {
            Some(entry) => if entry.is_expired(now) {
                None
            } else {
                match entry.expires_at {
                    None => Some(TtlInfo::Permanent),
                    Some(at) => Some(TtlInfo::RemainingMs(at - now)),
                }
            },
            None => None,
        }
    }

    /// Whether a key has a value that has not expired by `now`. An expired entry is removed.
    pub fn contains_at(&mut self, key: &str, now: u64) -> (yes: bool)
        requires
            old(self).wf(),
        ensures
            final(self).wf(),
            yes == old(self)@.is_live(key@, now),
            final(self)@ == old(self)@.touched(key@, now),
    {
        let yes = self.peek_contains(key, now);
        if !yes {
            self.remove_if_expired(key, now);
        }
        yes
    }

    /// Whether a key has a value that has not expired by `now`, without removing anything.
    pub fn peek_contains(&self, key: &str, now: u64) -> (yes: bool)
        requires
            self.wf(),
        ensures
            yes == self@.is_live(key@, now),
    {
        match self.shard(key).get(key) {
            Some(entry) => !entry.is_expired(now),
            None => false,
        }
    }

    /// All keys and entries, each once, shard by shard.
    fn list(&self) -> (listing: Vec<(&String, &Entry)>)
        requires
            self.wf(),
        ensures
            listed_keys(listing@).no_duplicates(),
            forall|k: Seq<char>| #[trigger] listed_keys(listing@).contains(k) <==> self@.contains(k),
            forall|i: int|
                0 <= i < listing@.len() ==> (#[trigger] listing@[i]).1@
                    == self@.entries[listing@[i].0@],
    {
        let mut listing: Vec<(&String, &Entry)> = Vec::new();
        let mut i: usize = 0;
        while i < SHARDS
            invariant
                self.wf(),
                i <= SHARDS,
                listed_keys(listing@).no_duplicates(),
                forall|k: Seq<char>| #[trigger]
                    listed_keys(listing@).contains(k) <==> self@.contains(k) && shard_of(k) < i,
                forall|n: int|
                    0 <= n < listing@.len() ==> (#[trigger] listing@[n]).1@
                        == self@.entries[listing@[n].0@],
            decreases SHARDS - i,
        {
            let shard = &self.shards[i];
            let mut j: usize = 0;
            proof {
                shard.lemma_positions();
            }
            while j < shard.len()
                invariant
                    self.wf(),
                    i < SHARDS,
                    *shard == self.shards@[i as int],
                    j <= shard.spec_len(),
                    listed_keys(listing@).no_duplicates(),
                    forall|k: Seq<char>| #[trigger]
                        listed_keys(listing@).contains(k) <==> self@.contains(k) && (shard_of(k) < i
                            || (shard_of(k) == i && shard.position_of(k) < j)),
                    forall|n: int|
                        0 <= n < listing@.len() ==> (#[trigger] listing@[n]).1@
                            == self@.entries[listing@[n].0@],
                decreases shard.spec_len() - j,
            {
                let ghost before = listed_keys(listing@);
                proof {
                    shard.lemma_positions();
                }
                let slot = shard.at(j);
                let ghost key = slot.0@;
                listing.push(slot);
                proof {
                    let after = listed_keys(listing@);
                    assert(after =~= before.push(key));
                    assert(!before.contains(key));
                    assert forall|k: Seq<char>| #[trigger] after.contains(k) <==> self@.contains(k)
                        && (shard_of(k) < i || (shard_of(k) == i && shard.position_of(k) < j + 1)) by {
                        lemma_push_contains(before, key, k);
                        if self@.contains(k) && shard_of(k) == i && shard.position_of(k) == j {
                            assert(shard@.contains_key(k));
                            assert(shard.key_at(shard.position_of(k)) == k);
                        }
                    }
                }
                j += 1;
            }
            proof {
                shard.lemma_positions();
                assert forall|k: Seq<char>| #[trigger]
                    listed_keys(listing@).contains(k) <==> self@.contains(k) && shard_of(k) < i
                        + 1 by {
                    if self@.contains(k) && shard_of(k) == i {
                        assert(shard@.contains_key(k));
                    }
                }
            }
            i += 1;
        }
        proof {
            lemma_shard_in_range();
        }
        listing
    }

    /// The keys whose entries have expired by `now`, each once.
    fn list_expired(&self, now: u64) -> (keys: Vec<String>)
        requires
            self.wf(),
        ensures
            key_views(keys@).no_duplicates(),
            key_views(keys@).to_set() == self@.stale_keys(now),
    {
        let listing = self.list();
        let ghost all = listed_keys(listing@);
        let mut keys: Vec<String> = Vec::new();
        let mut n: usize = 0;
        while n < listing.len()
            invariant
                self.wf(),
                n <= listing@.len(),
                all == listed_keys(listing@),
                all.no_duplicates(),
                forall|k: Seq<char>| #[trigger] all.contains(k) <==> self@.contains(k),
                forall|i: int|
                    0 <= i < listing@.len() ==> (#[trigger] listing@[i]).1@
                        == self@.entries[listing@[i].0@],
                key_views(keys@).no_duplicates(),
                forall|k: Seq<char>| #[trigger]
                    key_views(keys@).contains(k) <==> all.take(n as int).contains(k)
                        && self@.entries[k].expired(now),
            decreases listing@.len() - n,
        {
            let ghost before = key_views(keys@);
            let slot = listing[n];
            let ghost key = slot.0@;
            proof {
                lemma_take_next(all, n as int);
            }
            if slot.1.is_expired(now) {
                keys.push(slot.0.clone());
                proof {
                    assert(key_views(keys@) =~= before.push(key));
                    lemma_push_new(before, key);
                }
            }
            n += 1;
        }
        proof {
            assert(all.take(n as int) =~= all);
            assert(key_views(keys@).to_set() =~= self@.stale_keys(now));
        }
        keys
    }

    /// Removes the entries of some keys.
    fn remove_listed(&mut self, keys: &Vec<String>)
        requires
            old(self).wf(),
        ensures
            final(self).wf(),
            final(self)@ == (StoreView {
                entries: old(self)@.entries.remove_keys(key_views(keys@).to_set()),
                ..old(self)@
            }),
    {
        let mut n: usize = 0;
        assert(old(self)@.entries.remove_keys(key_views(keys@).take(0).to_set())
            =~= old(self)@.entries);
        while n < keys.len()
            invariant
                self.wf(),
                n <= keys@.len(),
                self@ == (StoreView {
                    entries: old(self)@.entries.remove_keys(
                        key_views(keys@).take(n as int).to_set(),
                    ),
                    ..old(self)@
                }),
            decreases keys@.len() - n,
        {
            proof {
                let all = key_views(keys@);
                lemma_take_next(all, n as int);
                assert(old(self)@.entries.remove_keys(all.take(n as int).to_set()).remove(
                    all[n as int],
                ) =~= old(self)@.entries.remove_keys(all.take(n + 1).to_set()));
            }
            self.remove_entry(keys[n].as_str());
            n += 1;
        }
        assert(key_views(keys@).take(n as int) =~= key_views(keys@));
    }

    /// Removes all entries that have expired by `now`. Returns how many there were.
    pub fn sweep_expired_at(&mut self, now: u64) -> (removed: usize)
        requires
            old(self).wf(),
        ensures
            final(self).wf(),
            final(self)@ == old(self)@.purged(now),
            removed == old(self)@.stale_keys(now).len(),
    {
        let keys = self.list_expired(now);
        self.remove_listed(&keys);
        proof {
            key_views(keys@).unique_seq_to_set();
        }
        keys.len()
    }

    /// The keys that begin with `prefix` and come after `cursor`, in order, up to `limit` of them,
    /// and whether there are more. An empty cursor starts from the beginning.
    ///
    /// Keys that have expired by `now` are never returned, and all expired entries are removed,
    /// whether they match or not. With a `limit` of 0 nothing is returned and nothing is removed.
    pub fn scan_at(&mut self, prefix: &str, limit: usize, cursor: &str, now: u64) -> (page: (
        Vec<String>,
        bool,
    ))
        requires
            old(self).wf(),
        ensures
            final(self).wf(),
            key_views(page.0@) == old(self)@.page(prefix@, limit as nat, cursor@, now),
            page.1 == old(self)@.more(prefix@, limit as nat, cursor@, now),
            final(self)@ == if limit > 0 {
                old(self)@.purged(now)
            } else {
                old(self)@
            },
    {
        if limit == 0 {
            let none: Vec<String> = Vec::new();
            proof {
                lemma_empty_page(self@, prefix@, cursor@, now);
                assert(key_views(none@) =~= Seq::<Seq<char>>::empty());
            }
            return (none, false);
        }
        let page = self.first_page(prefix, limit, cursor, now);
        let expired = self.list_expired(now);
        self.remove_listed(&expired);
        page
    }

    /// The first keys that a scan looks for, up to `limit` of them, and whether there are more.
    fn first_page(&self, prefix: &str, limit: usize, cursor: &str, now: u64) -> (page: (
        Vec<String>,
        bool,
    ))
        requires
            self.wf(),
            limit > 0,
        ensures
            key_views(page.0@) == self@.page(prefix@, limit as nat, cursor@, now),
            page.1 == self@.more(prefix@, limit as nat, cursor@, now),
    {
        let matching = self.list_matching(prefix, cursor, now);
        let mut keys = sort_keys(matching);
        proof {
            let m = key_views(matching@);
            let s = key_views(keys@);
            lemma_sorted(m, s);
            lemma_in_order(s);
            assert(in_order(self@.matching(prefix@, cursor@, now)) == s);
        }
        let more = keys.len() > limit;
        let ghost s = key_views(keys@);
        keys.truncate(limit);
        proof {
            if more {
                assert(key_views(keys@) =~= s.take(limit as int));
            }
        }
        (keys, more)
    }

    /// Whether an entry has expired by `now`.
    pub fn has_expired(&self, now: u64) -> (yes: bool)
        requires
            self.wf(),
        ensures
            yes == (self@.stale_keys(now) != Set::<Seq<char>>::empty()),
    {
        let keys = self.list_expired(now);
        let yes = keys.len() > 0;
        proof {
            if yes {
                assert(self@.stale_keys(now).contains(key_views(keys@)[0])) by {
                    assert(key_views(keys@).to_set().contains(key_views(keys@)[0]));
                }
            } else {
                assert(key_views(keys@).to_set() =~= Set::<Seq<char>>::empty());
            }
        }
        yes
    }

    /// What [`ShardedKV::scan_at`] gives, or `None` where it would remove an entry.
    pub fn peek_scan(&self, prefix: &str, limit: usize, cursor: &str, now: u64) -> (page: Option<
        (Vec<String>, bool),
    >)
        requires
            self.wf(),
        ensures
            page is Some <==> limit == 0 || self@.stale_keys(now) == Set::<Seq<char>>::empty(),
            page matches Some((keys, more)) ==> key_views(keys@) == self@.page(
                prefix@,
                limit as nat,
                cursor@,
                now,
            ) && more == self@.more(prefix@, limit as nat, cursor@, now),
    {
        if limit == 0 {
            let none: Vec<String> = Vec::new();
            proof {
                lemma_empty_page(self@, prefix@, cursor@, now);
                assert(key_views(none@) =~= Seq::<Seq<char>>::empty());
            }
            return Some((none, false));
        }
        if self.has_expired(now) {
            return None;
        }
        Some(self.first_page(prefix, limit, cursor, now))
    }

    /// What [`ShardedKV::mget_at`] gives, or `None` where it would remove an entry.
    pub fn peek_mget(&self, keys: &[String], now: u64) -> (values: Option<Vec<Option<Vec<u8>>>>)
        requires
            self.wf(),
        ensures
            values is Some <==> forall|i: int|
                0 <= i < keys@.len() ==> !self@.is_stale(#[trigger] key_views(keys@)[i], now),
            values matches Some(values) ==> value_views(values@) == key_views(keys@).map_values(
                |k: Seq<char>| self@.value_at(k, now),
            ),
    {
        let ghost all = key_views(keys@);
        let mut values: Vec<Option<Vec<u8>>> = Vec::with_capacity(keys.len());
        let mut n: usize = 0;
        while n < keys.len()
            invariant
                self.wf(),
                n <= keys@.len(),
                all == key_views(keys@),
                values@.len() == n,
                forall|i: int|
                    0 <= i < n ==> !self@.is_stale(#[trigger] all[i], now) && value_view(values@[i])
                        == self@.value_at(all[i], now),
            decreases keys@.len() - n,
        {
            match self.lookup(keys[n].as_str(), now) {
                Lookup::Live(value) => values.push(Some(value)),
                Lookup::Expired => {
                    assert(self@.is_stale(all[n as int], now));
                    return None;
                },
                Lookup::Absent => values.push(None),
            }
            n += 1;
        }
        assert(value_views(values@) =~= all.map_values(|k: Seq<char>| self@.value_at(k, now)));
        Some(values)
    }

    /// The keys that a scan looks for, each once, in no particular order.
    fn list_matching(&self, prefix: &str, cursor: &str, now: u64) -> (keys: Vec<String>)
        requires
            self.wf(),
        ensures
            key_views(keys@).no_duplicates(),
            key_views(keys@).to_set() == self@.matching(prefix@, cursor@, now),
    {
        let listing = self.list();
        let ghost all = listed_keys(listing@);
        let mut keys: Vec<String> = Vec::new();
        let mut n: usize = 0;
        while n < listing.len()
            invariant
                self.wf(),
                n <= listing@.len(),
                all == listed_keys(listing@),
                all.no_duplicates(),
                forall|k: Seq<char>| #[trigger] all.contains(k) <==> self@.contains(k),
                forall|i: int|
                    0 <= i < listing@.len() ==> (#[trigger] listing@[i]).1@
                        == self@.entries[listing@[i].0@],
                key_views(keys@).no_duplicates(),
                forall|k: Seq<char>| #[trigger]
                    key_views(keys@).contains(k) <==> all.take(n as int).contains(k)
                        && !self@.entries[k].expired(now) && prefix@.is_prefix_of(k) && (
                    cursor@.len() == 0 || key_less(cursor@, k)),
            decreases listing@.len() - n,
        {
            let ghost before = key_views(keys@);
            let slot = listing[n];
            let ghost key = slot.0@;
            proof {
                lemma_take_next(all, n as int);
            }
            let text = slot.0.as_str();
            if !slot.1.is_expired(now) && key_starts_with(text, prefix) && (cursor.is_empty()
                || key_is_less(cursor, text)) {
                keys.push(slot.0.clone());
                proof {
                    assert(key_views(keys@) =~= before.push(key));
                    lemma_push_new(before, key);
                }
            }
            n += 1;
        }
        proof {
            assert(all.take(n as int) =~= all);
            assert(key_views(keys@).to_set() =~= self@.matching(prefix@, cursor@, now));
        }
        keys
    }

    /// The values of several keys, in the order asked for, with `None` for a key that has none or
    /// whose value has expired by `now`. Expired entries among them are removed.
    pub fn mget_at(&mut self, keys: &[String], now: u64) -> (values: Vec<Option<Vec<u8>>>)
        requires
            old(self).wf(),
        ensures
            final(self).wf(),
            value_views(values@) == key_views(keys@).map_values(
                |k: Seq<char>| old(self)@.value_at(k, now),
            ),
            final(self)@ == old(self)@.touched_all(key_views(keys@), now),
    {
        let mut values: Vec<Option<Vec<u8>>> = Vec::with_capacity(keys.len());
        let ghost all = key_views(keys@);
        let mut n: usize = 0;
        assert(old(self)@.touched_all(all.take(0), now).entries =~= old(self)@.entries);
        while n < keys.len()
            invariant
                self.wf(),
                n <= keys@.len(),
                all == key_views(keys@),
                values@.len() == n,
                forall|i: int|
                    0 <= i < n ==> value_view(#[trigger] values@[i]) == old(self)@.value_at(
                        all[i],
                        now,
                    ),
                self@ == old(self)@.touched_all(all.take(n as int), now),
            decreases keys@.len() - n,
        {
            proof {
                lemma_take_next(all, n as int);
                let k = all[n as int];
                assert(self@.touched(k, now).entries =~= old(self)@.touched_all(
                    all.take(n + 1),
                    now,
                ).entries);
                assert(self@.value_at(k, now) == old(self)@.value_at(k, now));
            }
            let value = self.get_at(keys[n].as_str(), now);
            values.push(value);
            n += 1;
        }
        proof {
            assert(all.take(n as int) =~= all);
            assert(value_views(values@) =~= all.map_values(
                |k: Seq<char>| old(self)@.value_at(k, now),
            ));
        }
        values
    }

    /// All entries that have not expired by `now`, each once, in no particular order.
    pub fn collect_for_snapshot_at(&self, now: u64) -> (entries: Vec<SnapshotEntry>)
        requires
            self.wf(),
        ensures
            lists(snapshot_views(entries@), self@.purged(now).entries),
    {
        let listing = self.list();
        let ghost all = listed_keys(listing@);
        let mut entries: Vec<SnapshotEntry> = Vec::new();
        let mut n: usize = 0;
        while n < listing.len()
            invariant
                self.wf(),
                n <= listing@.len(),
                all == listed_keys(listing@),
                all.no_duplicates(),
                forall|k: Seq<char>| #[trigger] all.contains(k) <==> self@.contains(k),
                forall|i: int|
                    0 <= i < listing@.len() ==> (#[trigger] listing@[i]).1@
                        == self@.entries[listing@[i].0@],
                keys_of(snapshot_views(entries@)).no_duplicates(),
                forall|k: Seq<char>| #[trigger]
                    keys_of(snapshot_views(entries@)).contains(k) <==> all.take(n as int).contains(
                        k,
                    ) && !self@.entries[k].expired(now),
                forall|i: int|
                    0 <= i < entries@.len() ==> (#[trigger] snapshot_views(entries@)[i]).1
                        == self@.entries[snapshot_views(entries@)[i].0],
            decreases listing@.len() - n,
        {
            let ghost before = keys_of(snapshot_views(entries@));
            let slot = listing[n];
            let ghost key = slot.0@;
            proof {
                lemma_take_next(all, n as int);
            }
            if !slot.1.is_expired(now) {
                let ghost was = snapshot_views(entries@);
                entries.push(
                    (slot.0.clone(), copy_bytes(slot.1.value.as_slice()), slot.1.expires_at),
                );
                proof {
                    let is = snapshot_views(entries@);
                    assert(is =~= was.push((key, slot.1@)));
                    assert(keys_of(is) =~= before.push(key));
                    lemma_push_new(before, key);
                }
            }
            n += 1;
        }
        proof {
            assert(all.take(n as int) =~= all);
            let is = snapshot_views(entries@);
            assert forall|i: int| 0 <= i < is.len() implies (#[trigger] is[i]).1
                == self@.purged(now).entries[is[i].0] by {
                assert(keys_of(is)[i] == is[i].0);
                assert(keys_of(is).contains(is[i].0));
            }
        }
        entries
    }

    /// Puts an entry of a snapshot back, whether or not the store is full.
    ///
    /// This is for restoring a snapshot only: it may take the store beyond its bound, so that
    /// nothing that was saved is dropped.
    pub fn load_entry(&mut self, key: String, value: Vec<u8>, expires_at: Option<u64>)
        requires
            old(self).wf(),
            old(self)@.contains(key@) || old(self)@.len() < u64::MAX,
        ensures
            final(self).wf(),
            final(self)@ == old(self)@.with(key@, EntryView { value: value@, expires_at }),
    {
        self.insert_entry(key, Entry { value, expires_at });
    }

    /// The number of entries that have not expired by `now`. Nothing is removed.
    pub fn len_active_at(&self, now: u64) -> (count: u64)
        requires
            self.wf(),
        ensures
            count == self@.live_keys(now).len(),
    {
        let listing = self.list();
        let ghost all = listed_keys(listing@);
        let ghost mut live: Seq<Seq<char>> = Seq::empty();
        let mut count: u64 = 0;
        let mut n: usize = 0;
        while n < listing.len()
            invariant
                self.wf(),
                n <= listing@.len(),
                all == listed_keys(listing@),
                all.no_duplicates(),
                forall|k: Seq<char>| #[trigger] all.contains(k) <==> self@.contains(k),
                forall|i: int|
                    0 <= i < listing@.len() ==> (#[trigger] listing@[i]).1@
                        == self@.entries[listing@[i].0@],
                count == live.len(),
                count <= n,
                live.no_duplicates(),
                forall|k: Seq<char>| #[trigger]
                    live.contains(k) <==> all.take(n as int).contains(k)
                        && !self@.entries[k].expired(now),
            decreases listing@.len() - n,
        {
            let ghost before = live;
            let slot = listing[n];
            let ghost key = slot.0@;
            proof {
                lemma_take_next(all, n as int);
            }
            if !slot.1.is_expired(now) {
                count += 1;
                proof {
                    live = before.push(key);
                    lemma_push_new(before, key);
                }
            }
            n += 1;
        }
        proof {
            assert(all.take(n as int) =~= all);
            assert(live.to_set() =~= self@.live_keys(now));
            live.unique_seq_to_set();
        }
        count
    }

    /// The number of entries, expired ones among them until they are removed.
    pub fn len(&self) -> (n: u64)
        requires
            self.wf(),
        ensures
            n == self@.len(),
    {
        self.entry_count
    }

    /// Whether the store has no entries.
    pub fn is_empty(&self) -> (yes: bool)
        requires
            self.wf(),
        ensures
            yes == (self@.len() == 0),
            yes == (self@.entries == Map::<Seq<char>, EntryView>::empty()),
    {
        proof {
            if self@.len() == 0 {
                assert(self@.entries.dom() =~= Set::empty());
                assert(self@.entries =~= Map::<Seq<char>, EntryView>::empty());
            }
        }
        self.len() == 0
    }
}

/// The operations that read the clock themselves. Each contract states what holds for the time that
/// [`now_ms`] gave.
impl ShardedKV {
    /// The value of a key, or `None` if it has none or it has expired. An expired entry is
    /// removed.
    pub fn get(&mut self, key: &str) -> (value: Option<Vec<u8>>)
        requires
            old(self).wf(),
        ensures
            final(self).wf(),
            exists|now: u64|
                call_ensures(now_ms, (), now)
                    && final(self)@ == #[trigger] old(self)@.touched(key@, now) && value_view(value)
                    == old(self)@.value_at(key@, now),
    {
        let now = now_ms();
        self.get_at(key, now)
    }

    /// Sets a key to a value that expires `ttl_ms` milliseconds from now. Returns false, and
    /// leaves the store as it is, if `ttl_ms` is 0, or if the key is new and the store is full.
    pub fn set_with_ttl(&mut self, key: &str, value: Vec<u8>, ttl_ms: u64) -> (done: bool)
        requires
            old(self).wf(),
        ensures
            final(self).wf(),
            done == (ttl_ms > 0 && old(self)@.admits(key@)),
            ttl_ms == 0 ==> final(self)@ == old(self)@,
            ttl_ms > 0 ==> exists|now: u64|
                call_ensures(now_ms, (), now)
                    && final(self)@ == old(self)@.written(
                    key@,
                    #[trigger] StoreView::expiring(value@, ttl_ms, now),
                ),
    {
        let now = now_ms();
        self.set_with_ttl_at(key, value, ttl_ms, now)
    }

    /// Removes a key. Returns its value, or `None` if it had none or it had expired.
    pub fn del(&mut self, key: &str) -> (value: Option<Vec<u8>>)
        requires
            old(self).wf(),
        ensures
            final(self).wf(),
            final(self)@ == old(self)@.without(key@),
            exists|now: u64|
                call_ensures(now_ms, (), now)
                    && value_view(value) == #[trigger] old(self)@.value_at(key@, now),
    {
        let now = now_ms();
        self.del_at(key, now)
    }

    /// When a key expires, or `None` if it has no value or it has expired. An expired entry is
    /// removed.
    pub fn ttl(&mut self, key: &str) -> (info: Option<TtlInfo>)
        requires
            old(self).wf(),
        ensures
            final(self).wf(),
            exists|now: u64|
                call_ensures(now_ms, (), now)
                    && final(self)@ == #[trigger] old(self)@.touched(key@, now) && info
                    == old(self)@.ttl_at(key@, now),
    {
        let now = now_ms();
        self.ttl_at(key, now)
    }

    /// Whether a key has a value that has not expired. An expired entry is removed.
    pub fn contains(&mut self, key: &str) -> (yes: bool)
        requires
            old(self).wf(),
        ensures
            final(self).wf(),
            exists|now: u64|
                call_ensures(now_ms, (), now)
                    && final(self)@ == #[trigger] old(self)@.touched(key@, now) && yes
                    == old(self)@.is_live(key@, now),
    {
        let now = now_ms();
        self.contains_at(key, now)
    }

    /// Removes all expired entries. Returns how many there were.
    pub fn sweep_expired(&mut self) -> (removed: usize)
        requires
            old(self).wf(),
        ensures
            final(self).wf(),
            exists|now: u64|
                call_ensures(now_ms, (), now)
                    && final(self)@ == #[trigger] old(self)@.purged(now) && removed
                    == old(self)@.stale_keys(now).len(),
    {
        let now = now_ms();
        self.sweep_expired_at(now)
    }

    /// The keys that begin with `prefix` and come after `cursor`, in order, up to `limit` of them,
    /// and whether there are more. See [`ShardedKV::scan_at`].
    pub fn scan(&mut self, prefix: &str, limit: usize, cursor: &str) -> (page: (Vec<String>, bool))
        requires
            old(self).wf(),
        ensures
            final(self).wf(),
            limit == 0 ==> page.0@.len() == 0 && !page.1 && final(self)@ == old(self)@,
            limit > 0 ==> exists|now: u64|
                call_ensures(now_ms, (), now)
                    && final(self)@ == #[trigger] old(self)@.purged(now) && key_views(page.0@)
                    == old(self)@.page(prefix@, limit as nat, cursor@, now) && page.1
                    == old(self)@.more(prefix@, limit as nat, cursor@, now),
    {
        let now = now_ms();
        let page = self.scan_at(prefix, limit, cursor, now);
        proof {
            assert(key_views(page.0@).len() == page.0@.len());
        }
        page
    }

    /// The values of several keys, in the order asked for, with `None` for a key that has none or
    /// whose value has expired. Expired entries among them are removed.
    pub fn mget(&mut self, keys: &[String]) -> (values: Vec<Option<Vec<u8>>>)
        requires
            old(self).wf(),
        ensures
            final(self).wf(),
            exists|now: u64|
                call_ensures(now_ms, (), now)
                    && final(self)@ == #[trigger] old(self)@.touched_all(key_views(keys@), now)
                    && value_views(values@) == key_views(keys@).map_values(
                    |k: Seq<char>| old(self)@.value_at(k, now),
                ),
    {
        let now = now_ms();
        self.mget_at(keys, now)
    }

    /// All entries that have not expired, each once, in no particular order.
    pub fn collect_for_snapshot(&self) -> (entries: Vec<SnapshotEntry>)
        requires
            self.wf(),
        ensures
            exists|now: u64|
                call_ensures(now_ms, (), now)
                    && lists(snapshot_views(entries@), (#[trigger] self@.purged(now)).entries),
    {
        let now = now_ms();
        self.collect_for_snapshot_at(now)
    }

    /// The number of entries that have not expired. Nothing is removed.
    pub fn len_active(&self) -> (count: u64)
        requires
            self.wf(),
        ensures
            exists|now: u64|
                call_ensures(now_ms, (), now)
                    && count == (#[trigger] self@.live_keys(now)).len(),
    {
        let now = now_ms();
        self.len_active_at(now)
    }
}

impl Default for ShardedKV {
    fn default() -> (store: Self)
        ensures
            store.wf(),
            store@ == StoreView::empty(0),
    {
        ShardedKV::new()
    }
}

proof fn lemma_push_contains(s: Seq<Seq<char>>, pushed: Seq<char>, k: Seq<char>)
    ensures
        s.push(pushed).contains(k) <==> s.contains(k) || k == pushed,
{
    if s.contains(k) {
        let i = choose|i: int| 0 <= i < s.len() && s[i] == k;
        assert(s.push(pushed)[i] == k);
    }
    assert(s.push(pushed)[s.len() as int] == pushed);
}

/// Pushing an element that is not there keeps a sequence free of duplicates.
proof fn lemma_push_new(s: Seq<Seq<char>>, pushed: Seq<char>)
    requires
        s.no_duplicates(),
        !s.contains(pushed),
    ensures
        s.push(pushed).no_duplicates(),
        forall|k: Seq<char>| #[trigger]
            s.push(pushed).contains(k) <==> s.contains(k) || k == pushed,
{
    let t = s.push(pushed);
    assert forall|i: int, j: int| 0 <= i < t.len() && 0 <= j < t.len() && i != j implies t[i]
        != t[j] by {
        if i < s.len() {
            assert(s.contains(s[i]));
        }
        if j < s.len() {
            assert(s.contains(s[j]));
        }
    }
    assert forall|k: Seq<char>| #[trigger] t.contains(k) <==> s.contains(k) || k == pushed by {
        lemma_push_contains(s, pushed, k);
    }
}

/// One more element of a sequence without duplicates is one that was not there.
proof fn lemma_take_next(s: Seq<Seq<char>>, n: int)
    requires
        0 <= n < s.len(),
    ensures
        forall|k: Seq<char>| #[trigger]
            s.take(n + 1).contains(k) <==> s.take(n).contains(k) || k == s[n],
        s.no_duplicates() ==> !s.take(n).contains(s[n]),
        s.contains(s[n]),
{
    assert(s.take(n + 1) =~= s.take(n).push(s[n]));
    assert forall|k: Seq<char>| #[trigger]
        s.take(n + 1).contains(k) <==> s.take(n).contains(k) || k == s[n] by {
        lemma_push_contains(s.take(n), s[n], k);
    }
}

/// Sorting keys that are all different gives them in strictly ascending order.
proof fn lemma_sorted(keys: Seq<Seq<char>>, sorted: Seq<Seq<char>>)
    requires
        keys.no_duplicates(),
        ascending(sorted),
        sorted.to_multiset() == keys.to_multiset(),
    ensures
        strictly_ascending(sorted),
        sorted.to_set() == keys.to_set(),
{
    broadcast use vstd::seq_lib::group_to_multiset_ensures;

    keys.lemma_multiset_has_no_duplicates();
    sorted.lemma_multiset_has_no_duplicates_conv();
    assert forall|i: int, j: int| 0 <= i < j < sorted.len() implies key_less(
        #[trigger] sorted[i],
        #[trigger] sorted[j],
    ) by {
        lemma_key_less_total(sorted[i], sorted[j]);
    }
    assert forall|k: Seq<char>| sorted.to_set().contains(k) == keys.to_set().contains(k) by {
        assert(sorted.contains(k) <==> sorted.to_multiset().count(k) > 0);
        assert(keys.contains(k) <==> keys.to_multiset().count(k) > 0);
    }
    assert(sorted.to_set() =~= keys.to_set());
}

/// A page of no keys is empty.
proof fn lemma_empty_page(store: StoreView, prefix: Seq<char>, cursor: Seq<char>, now: u64)
    ensures
        store.page(prefix, 0, cursor, now) == Seq::<Seq<char>>::empty(),
{
    let all = in_order(store.matching(prefix, cursor, now));
    assert(all.take(0) =~= Seq::<Seq<char>>::empty());
    if all.len() == 0 {
        assert(all =~= Seq::<Seq<char>>::empty());
    }
}

/// Every key has a shard.
pub proof fn lemma_shard_in_range()
    ensures
        forall|key: Seq<char>| #[trigger] shard_of(key) < SHARDS,
{
    assert forall|key: Seq<char>| #[trigger] shard_of(key) < SHARDS by {
        let hash = DefaultHasher::spec_finish(seq![encode_utf8(key), seq![0xFFu8]]) as usize;
        assert(hash & 15 < 16) by (bit_vector);
    }
}

} // verus!
