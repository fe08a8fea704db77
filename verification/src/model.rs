//! What a store is: the mathematical state that the contracts speak of.
use crate::entry::{EntryView, TtlInfo};
use crate::text::{key_less, lemma_key_less_total, lemma_key_less_transitive};
use vstd::prelude::*;

verus! {

/// The state of a store: its entries, expired ones among them until they are removed, and the
/// number of entries at which it takes no new key (0 for no such number).
#[verifier::ext_equal]
pub struct StoreView {
    pub entries: Map<Seq<char>, EntryView>,
    pub max_entries: usize,
}

impl StoreView {
    /// The store with no entries.
    pub open spec fn empty(max_entries: usize) -> StoreView {
        StoreView { entries: Map::empty(), max_entries }
    }

    /// The number of entries, expired ones among them.
    pub open spec fn len(self) -> nat {
        self.entries.dom().len()
    }

    /// The number of entries at which no new key is taken: the configured one, else the largest
    /// that the counter of entries can show.
    pub open spec fn capacity(self) -> nat {
        if self.max_entries == 0 {
            u64::MAX as nat
        } else {
            self.max_entries as nat
        }
    }

    /// Whether a key has an entry, expired or not.
    pub open spec fn contains(self, key: Seq<char>) -> bool {
        self.entries.contains_key(key)
    }

    /// Whether a key has an entry that has not expired as of `now`.
    pub open spec fn is_live(self, key: Seq<char>, now: u64) -> bool {
        self.contains(key) && !self.entries[key].expired(now)
    }

    /// Whether a key has an entry that has expired as of `now`.
    pub open spec fn is_stale(self, key: Seq<char>, now: u64) -> bool {
        self.contains(key) && self.entries[key].expired(now)
    }

    /// Whether the store takes an entry for a key: always in place of another entry of that key,
    /// and as a new one while there is room.
    pub open spec fn admits(self, key: Seq<char>) -> bool {
        self.contains(key) || self.len() < self.capacity()
    }

    /// The store after an entry was put under a key.
    pub open spec fn with(self, key: Seq<char>, entry: EntryView) -> StoreView {
        StoreView { entries: self.entries.insert(key, entry), ..self }
    }

    /// The store after a key was removed.
    pub open spec fn without(self, key: Seq<char>) -> StoreView {
        StoreView { entries: self.entries.remove(key), ..self }
    }

    /// The store after a write that it may refuse.
    pub open spec fn written(self, key: Seq<char>, entry: EntryView) -> StoreView {
        if self.admits(key) {
            self.with(key, entry)
        } else {
            self
        }
    }

    /// The store after a key was read: its entry is gone if it has expired.
    pub open spec fn touched(self, key: Seq<char>, now: u64) -> StoreView {
        if self.is_stale(key, now) {
            self.without(key)
        } else {
            self
        }
    }

    /// The keys whose entries have expired.
    pub open spec fn stale_keys(self, now: u64) -> Set<Seq<char>> {
        self.entries.dom().filter(|k: Seq<char>| self.entries[k].expired(now))
    }

    /// The keys whose entries have not expired.
    pub open spec fn live_keys(self, now: u64) -> Set<Seq<char>> {
        self.entries.dom().filter(|k: Seq<char>| !self.entries[k].expired(now))
    }

    /// The store after the expired entries among some keys were removed.
    pub open spec fn touched_all(self, keys: Seq<Seq<char>>, now: u64) -> StoreView {
        StoreView {
            entries: self.entries.remove_keys(
                self.stale_keys(now).filter(|k: Seq<char>| keys.contains(k)),
            ),
            ..self
        }
    }

    /// The store after all expired entries were removed.
    pub open spec fn purged(self, now: u64) -> StoreView {
        StoreView { entries: self.entries.remove_keys(self.stale_keys(now)), ..self }
    }

    /// The value that a read of a key gives.
    pub open spec fn value_at(self, key: Seq<char>, now: u64) -> Option<Seq<u8>> {
        if self.is_live(key, now) {
            Some(self.entries[key].value)
        } else {
            None
        }
    }

    /// What the TTL query gives for a key.
    pub open spec fn ttl_at(self, key: Seq<char>, now: u64) -> Option<TtlInfo> {
        if self.is_live(key, now) {
            Some(self.entries[key].ttl(now))
        } else {
            None
        }
    }

    /// When an entry with a relative TTL expires: at the last timestamp there is, at the latest.
    pub open spec fn deadline(ttl_ms: u64, now: u64) -> u64 {
        if now + ttl_ms <= u64::MAX {
            (now + ttl_ms) as u64
        } else {
            u64::MAX
        }
    }

    /// The entry that a write with a relative TTL leaves.
    pub open spec fn expiring(value: Seq<u8>, ttl_ms: u64, now: u64) -> EntryView {
        EntryView { value, expires_at: Some(Self::deadline(ttl_ms, now)) }
    }

    /// The keys that a scan looks for: live ones with the prefix, after the cursor unless that is
    /// empty.
    pub open spec fn matching(self, prefix: Seq<char>, cursor: Seq<char>, now: u64) -> Set<
        Seq<char>,
    > {
        self.live_keys(now).filter(
            |k: Seq<char>| prefix.is_prefix_of(k) && (cursor.len() == 0 || key_less(cursor, k)),
        )
    }

    /// The keys that a scan returns: the first `limit` of those it looks for, in order.
    pub open spec fn page(
        self,
        prefix: Seq<char>,
        limit: nat,
        cursor: Seq<char>,
        now: u64,
    ) -> Seq<Seq<char>> {
        let all = in_order(self.matching(prefix, cursor, now));
        if all.len() > limit {
            all.take(limit as int)
        } else {
            all
        }
    }

    /// Whether a scan leaves keys for a further page.
    pub open spec fn more(self, prefix: Seq<char>, limit: nat, cursor: Seq<char>, now: u64) -> bool {
        limit > 0 && in_order(self.matching(prefix, cursor, now)).len() > limit
    }
}

/// The keys of a sequence of entries.
pub open spec fn keys_of(entries: Seq<(Seq<char>, EntryView)>) -> Seq<Seq<char>> {
    entries.map_values(|e: (Seq<char>, EntryView)| e.0)
}

/// Whether a sequence of entries holds exactly the entries of a map, each once.
pub open spec fn lists(
    entries: Seq<(Seq<char>, EntryView)>,
    map: Map<Seq<char>, EntryView>,
) -> bool {
    &&& keys_of(entries).no_duplicates()
    &&& forall|k: Seq<char>| #[trigger] keys_of(entries).contains(k) <==> map.contains_key(k)
    &&& forall|i: int| 0 <= i < entries.len() ==> (#[trigger] entries[i]).1 == map[entries[i].0]
}

/// Whether each key comes before the ones that follow it.
pub open spec fn strictly_ascending(s: Seq<Seq<char>>) -> bool {
    forall|i: int, j: int| 0 <= i < j < s.len() ==> key_less(#[trigger] s[i], #[trigger] s[j])
}

/// The keys of a set in ascending order.
pub open spec fn in_order(keys: Set<Seq<char>>) -> Seq<Seq<char>> {
    choose|s: Seq<Seq<char>>| #[trigger] strictly_ascending(s) && s.to_set() == keys
}

proof fn lemma_last_is_greatest(s: Seq<Seq<char>>, key: Seq<char>)
    requires
        strictly_ascending(s),
        s.contains(key),
    ensures
        key == s.last() || key_less(key, s.last()),
{
    let i = choose|i: int| 0 <= i < s.len() && s[i] == key;
    if i < s.len() - 1 {
        assert(key_less(s[i], s[s.len() - 1]));
    }
}

/// Keys in ascending order are determined by which keys they are.
pub proof fn lemma_ascending_unique(a: Seq<Seq<char>>, b: Seq<Seq<char>>)
    requires
        strictly_ascending(a),
        strictly_ascending(b),
        a.to_set() == b.to_set(),
    ensures
        a == b,
    decreases a.len(),
{
    if a.len() == 0 {
        if b.len() > 0 {
            assert(b.to_set().contains(b[0]));
            assert(a.to_set().contains(b[0]));
        }
        assert(a =~= b);
    } else {
        assert(a.to_set().contains(a.last()));
        assert(b.contains(a.last()));
        assert(b.to_set().contains(b.last()));
        assert(a.contains(b.last()));
        lemma_last_is_greatest(b, a.last());
        lemma_last_is_greatest(a, b.last());
        lemma_key_less_total(a.last(), b.last());
        assert(a.last() == b.last());
        assert forall|k: Seq<char>| a.drop_last().to_set().contains(k) == b.drop_last().to_set().contains(
            k,
        ) by {
            lemma_drop_last_contains(a, k);
            lemma_drop_last_contains(b, k);
        }
        assert(a.drop_last().to_set() =~= b.drop_last().to_set());
        lemma_ascending_unique(a.drop_last(), b.drop_last());
        assert(a =~= a.drop_last().push(a.last()));
        assert(b =~= b.drop_last().push(b.last()));
    }
}

proof fn lemma_drop_last_contains(a: Seq<Seq<char>>, k: Seq<char>)
    requires
        strictly_ascending(a),
        a.len() > 0,
    ensures
        a.drop_last().to_set().contains(k) <==> a.to_set().contains(k) && k != a.last(),
{
    if a.to_set().contains(k) && k != a.last() {
        let i = choose|i: int| 0 <= i < a.len() && a[i] == k;
        assert(a.drop_last()[i] == k);
    }
    if a.drop_last().contains(k) {
        let i = choose|i: int| 0 <= i < a.len() - 1 && a.drop_last()[i] == k;
        assert(a[i] == k);
        assert(key_less(a[i], a[a.len() - 1]));
        lemma_key_less_total(k, a.last());
    }
}

/// A sequence of keys in ascending order is the ordering of its set.
pub proof fn lemma_in_order(s: Seq<Seq<char>>)
    requires
        strictly_ascending(s),
    ensures
        in_order(s.to_set()) == s,
        s.no_duplicates(),
        s.to_set().len() == s.len(),
{
    let t = in_order(s.to_set());
    assert(strictly_ascending(t) && t.to_set() == s.to_set());
    lemma_ascending_unique(s, t);
    assert(s.no_duplicates()) by {
        assert forall|i: int, j: int| 0 <= i < j < s.len() implies s[i] != s[j] by {
            assert(key_less(s[i], s[j]));
            lemma_key_less_total(s[i], s[j]);
        }
    }
    s.unique_seq_to_set();
}

/// Adds a key to keys in ascending order.
proof fn lemma_insert_in_order(s: Seq<Seq<char>>, key: Seq<char>) -> (t: Seq<Seq<char>>)
    requires
        strictly_ascending(s),
        !s.contains(key),
    ensures
        strictly_ascending(t),
        t.to_set() == s.to_set().insert(key),
    decreases s.len(),
{
    if s.len() == 0 {
        let t = seq![key];
        assert(t[0] == key);
        assert(t.to_set() =~= s.to_set().insert(key));
        t
    } else if key_less(s.last(), key) {
        let t = s.push(key);
        assert forall|i: int, j: int| 0 <= i < j < t.len() implies key_less(
            #[trigger] t[i],
            #[trigger] t[j],
        ) by {
            if j == s.len() && i < s.len() - 1 {
                assert(key_less(s[i], s[s.len() - 1]));
                lemma_key_less_transitive(s[i], s.last(), key);
            }
        }
        assert forall|k: Seq<char>| t.to_set().contains(k) == s.to_set().insert(key).contains(
            k,
        ) by {
            if s.contains(k) {
                let i = choose|i: int| 0 <= i < s.len() && s[i] == k;
                assert(t[i] == k);
            }
            assert(t[s.len() as int] == key);
        }
        assert(t.to_set() =~= s.to_set().insert(key));
        t
    } else {
        assert(s[s.len() - 1] != key);
        lemma_key_less_total(s.last(), key);
        assert(!s.drop_last().contains(key)) by {
            if s.drop_last().contains(key) {
                let i = choose|i: int| 0 <= i < s.len() - 1 && s.drop_last()[i] == key;
                assert(s[i] == key);
            }
        }
        let u = lemma_insert_in_order(s.drop_last(), key);
        let t = u.push(s.last());
        assert forall|i: int, j: int| 0 <= i < j < t.len() implies key_less(
            #[trigger] t[i],
            #[trigger] t[j],
        ) by {
            if j == u.len() {
                assert(u.to_set().contains(u[i]));
                if u[i] != key {
                    assert(s.drop_last().contains(u[i]));
                    let m = choose|m: int| 0 <= m < s.len() - 1 && s.drop_last()[m] == u[i];
                    assert(key_less(s[m], s[s.len() - 1]));
                }
            }
        }
        assert forall|k: Seq<char>| t.to_set().contains(k) == s.to_set().insert(key).contains(
            k,
        ) by {
            lemma_drop_last_contains(s, k);
            assert(t[u.len() as int] == s.last());
            if u.contains(k) {
                let i = choose|i: int| 0 <= i < u.len() && u[i] == k;
                assert(t[i] == k);
                assert(u.to_set().contains(k));
            }
            if t.contains(k) && k != s.last() {
                let i = choose|i: int| 0 <= i < t.len() && t[i] == k;
                assert(u[i] == k);
                assert(u.to_set().contains(k));
            }
            assert(s.to_set().contains(s.last()));
            if s.drop_last().to_set().contains(k) || k == key {
                assert(u.to_set().contains(k));
            }
        }
        assert(t.to_set() =~= s.to_set().insert(key));
        t
    }
}

/// Every finite set of keys can be put in ascending order.
pub proof fn lemma_in_order_exists(keys: Set<Seq<char>>)
    requires
        keys.finite(),
    ensures
        strictly_ascending(in_order(keys)),
        in_order(keys).to_set() == keys,
        in_order(keys).len() == keys.len(),
    decreases keys.len(),
{
    if keys.len() == 0 {
        let s = Seq::<Seq<char>>::empty();
        assert(strictly_ascending(s));
        assert(s.to_set() =~= keys);
        lemma_in_order(s);
    } else {
        let key = keys.choose();
        let rest = keys.remove(key);
        lemma_in_order_exists(rest);
        let s = in_order(rest);
        if s.contains(key) {
            assert(s.to_set().contains(key));
        }
        let t = lemma_insert_in_order(s, key);
        assert(t.to_set() =~= keys);
        lemma_in_order(t);
    }
}

} // verus!
