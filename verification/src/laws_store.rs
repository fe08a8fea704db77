//! What the operations of the store do, said of its entries alone.
use crate::bytes::bytes_less;
use crate::entry::{Entry, EntryView, TtlInfo};
use crate::model::{in_order, keys_of, lemma_in_order_exists, lists, StoreView};
use crate::sort::{ascending, key_views};
use crate::store::{snapshot_view, snapshot_views, value_view, value_views, SnapshotEntry};
use crate::text::{key_less, lemma_key_less_total};
use vstd::prelude::*;
use vstd::utf8::encode_utf8;

verus! {

/// An entry means its bytes and its timestamp, and it has expired from that timestamp on.
pub proof fn law_entry(entry: Entry, view: EntryView, now: u64)
    ensures
        entry@.value == entry.value@,
        entry@.expires_at == entry.expires_at,
        view.expires_at is None ==> !view.expired(now),
        view.expires_at matches Some(at) ==> (view.expired(now) <==> at <= now),
{
}

/// What a read of a key finds: its value and the time that is left, unless the key has no entry or
/// the timestamp of its entry has been reached.
pub proof fn law_reads(store: StoreView, key: Seq<char>, now: u64)
    ensures
        ({
            let present = store.entries.contains_key(key);
            let entry = store.entries[key];
            let over = match entry.expires_at {
                Some(at) => at <= now,
                None => false,
            };
            &&& store.contains(key) == present
            &&& store.is_live(key, now) == (present && !over)
            &&& store.is_stale(key, now) == (present && over)
            &&& present && !over ==> store.value_at(key, now) == Some(entry.value)
            &&& !present || over ==> store.value_at(key, now) is None
            &&& !present || over ==> store.ttl_at(key, now) is None
            &&& present && entry.expires_at is None ==> store.ttl_at(key, now) == Some(
                TtlInfo::Permanent,
            )
            &&& present && !over && entry.expires_at is Some ==> (store.ttl_at(
                key,
                now,
            ) matches Some(TtlInfo::RemainingMs(ms)) && now + ms == entry.expires_at->0)
        }),
{
}

/// A new store is empty, and keeps the bound that it was given.
pub proof fn law_empty(max_entries: usize, key: Seq<char>)
    ensures
        !StoreView::empty(max_entries).entries.contains_key(key),
        StoreView::empty(max_entries).entries.dom().len() == 0,
        StoreView::empty(max_entries).len() == 0,
        StoreView::empty(max_entries).max_entries == max_entries,
{
}

/// What a write does: it puts the entry under the key and touches nothing else if the key has an
/// entry, or if there are fewer entries than the bound, where there is one, and than the counter
/// can show, where there is none. Else it changes nothing.
pub proof fn law_writes(store: StoreView, key: Seq<char>, entry: EntryView)
    ensures
        ({
            let room = store.entries.contains_key(key) || store.entries.dom().len() < (if store.max_entries
                == 0 {
                0xFFFF_FFFF_FFFF_FFFFint
            } else {
                store.max_entries as int
            });
            &&& store.len() == store.entries.dom().len()
            &&& store.admits(key) == room
            &&& room ==> store.written(key, entry).entries == store.entries.insert(key, entry)
            &&& !room ==> store.written(key, entry).entries == store.entries
            &&& store.written(key, entry).max_entries == store.max_entries
            &&& store.with(key, entry).entries == store.entries.insert(key, entry)
            &&& store.with(key, entry).max_entries == store.max_entries
        }),
{
}

/// A value that is set with a TTL lives for exactly that many milliseconds: it is read back, with
/// the time that is left, at each time before `set_at + ttl_ms`, and at none from then on.
pub proof fn law_ttl_lasts(
    store: StoreView,
    key: Seq<char>,
    value: Seq<u8>,
    ttl_ms: u64,
    set_at: u64,
    now: u64,
)
    requires
        store.entries.contains_key(key) || store.entries.dom().len() < (if store.max_entries == 0 {
            0xFFFF_FFFF_FFFF_FFFFint
        } else {
            store.max_entries as int
        }),
    ensures
        ({
            let set = store.written(key, StoreView::expiring(value, ttl_ms, set_at));
            &&& set.entries.contains_key(key)
            &&& set.entries[key].value == value
            &&& set_at + ttl_ms <= 0xFFFF_FFFF_FFFF_FFFF ==> {
                &&& set.entries[key].expires_at == Some((set_at + ttl_ms) as u64)
                &&& now < set_at + ttl_ms ==> set.value_at(key, now) == Some(value) && set.ttl_at(
                    key,
                    now,
                ) == Some(TtlInfo::RemainingMs((set_at + ttl_ms - now) as u64))
                &&& now >= set_at + ttl_ms ==> set.value_at(key, now) is None && set.ttl_at(
                    key,
                    now,
                ) is None
            }
            &&& set_at + ttl_ms > 0xFFFF_FFFF_FFFF_FFFF ==> set.entries[key].expires_at == Some(
                0xFFFF_FFFF_FFFF_FFFFu64,
            )
        }),
{
}

/// What removing a key does: its entry is gone, and nothing else.
pub proof fn law_removes(store: StoreView, key: Seq<char>, other: Seq<char>)
    ensures
        !store.without(key).entries.contains_key(key),
        other != key ==> store.without(key).entries.contains_key(other)
            == store.entries.contains_key(other),
        other != key && store.entries.contains_key(other) ==> store.without(key).entries[other]
            == store.entries[other],
        store.without(key).max_entries == store.max_entries,
{
}

/// What reads, scans and sweeps remove: a read of keys the expired entries among these keys, a
/// sweep all expired entries, and nothing else. The sets of live and of expired keys say which keys
/// these are.
pub proof fn law_removes_expired(
    store: StoreView,
    keys: Seq<Seq<char>>,
    key: Seq<char>,
    other: Seq<char>,
    now: u64,
)
    ensures
        ({
            let over = match store.entries[other].expires_at {
                Some(at) => at <= now,
                None => false,
            };
            let present = store.entries.contains_key(other);
            let touched = store.touched(key, now);
            let all = store.touched_all(keys, now);
            let purged = store.purged(now);
            &&& touched.entries.contains_key(other) == (present && !(over && other == key))
            &&& all.entries.contains_key(other) == (present && !(over && exists|i: int|
                0 <= i < keys.len() && keys[i] == other))
            &&& purged.entries.contains_key(other) == (present && !over)
            &&& touched.entries.contains_key(other) ==> touched.entries[other]
                == store.entries[other]
            &&& all.entries.contains_key(other) ==> all.entries[other] == store.entries[other]
            &&& purged.entries.contains_key(other) ==> purged.entries[other]
                == store.entries[other]
            &&& touched.max_entries == store.max_entries
            &&& all.max_entries == store.max_entries
            &&& purged.max_entries == store.max_entries
            &&& store.stale_keys(now).contains(other) == (present && over)
            &&& store.live_keys(now).contains(other) == (present && !over)
        }),
{
}

/// What it means that some entries are those of a map: each of them is in the map, no two have the
/// same key, and every key of the map is among theirs.
pub proof fn law_lists(
    entries: Seq<(Seq<char>, EntryView)>,
    map: Map<Seq<char>, EntryView>,
    key: Seq<char>,
)
    requires
        lists(entries, map),
    ensures
        forall|i: int|
            0 <= i < entries.len() ==> map.contains_key((#[trigger] entries[i]).0)
                && map[entries[i].0] == entries[i].1,
        forall|i: int, j: int|
            0 <= i < j < entries.len() ==> (#[trigger] entries[i]).0 != (#[trigger] entries[j]).0,
        map.contains_key(key) ==> exists|i: int|
            0 <= i < entries.len() && (#[trigger] entries[i]).0 == key,
{
    let keys = keys_of(entries);
    assert forall|i: int| 0 <= i < entries.len() implies map.contains_key((#[trigger] entries[i]).0)
        && map[entries[i].0] == entries[i].1 by {
        assert(keys[i] == entries[i].0);
        assert(keys.contains(entries[i].0));
    }
    assert forall|i: int, j: int| 0 <= i < j < entries.len() implies (#[trigger] entries[i]).0 != (
    #[trigger] entries[j]).0 by {
        assert(keys[i] != keys[j]);
    }
    if map.contains_key(key) {
        assert(keys.contains(key));
        let i = choose|i: int| 0 <= i < keys.len() && keys[i] == key;
        assert(entries[i].0 == key);
    }
}

/// What the values and keys that operations take and return mean: the same, one by one and in
/// order.
pub proof fn law_views(
    keys: Seq<String>,
    values: Seq<Option<Vec<u8>>>,
    entries: Seq<SnapshotEntry>,
    i: int,
)
    ensures
        key_views(keys).len() == keys.len(),
        value_views(values).len() == values.len(),
        snapshot_views(entries).len() == entries.len(),
        0 <= i < keys.len() ==> key_views(keys)[i] == keys[i]@,
        0 <= i < values.len() ==> value_views(values)[i] == value_view(values[i]),
        0 <= i < values.len() && values[i] is None ==> value_view(values[i]) is None,
        0 <= i < values.len() && values[i] is Some ==> value_view(values[i]) == Some(
            values[i]->0@,
        ),
        0 <= i < entries.len() ==> snapshot_views(entries)[i] == snapshot_view(entries[i])
            && snapshot_view(entries[i]).0 == entries[i].0@ && snapshot_view(entries[i]).1.value
            == entries[i].1@ && snapshot_view(entries[i]).1.expires_at == entries[i].2,
{
}

/// The order of byte strings, of which `n` is the length of what they begin with in common: where
/// both go on, the smaller byte comes first, and where one ends, it comes first.
pub proof fn law_byte_order(a: Seq<u8>, b: Seq<u8>, n: int)
    requires
        0 <= n <= a.len(),
        n <= b.len(),
        forall|i: int| 0 <= i < n ==> a[i] == b[i],
        n == a.len() || n == b.len() || a[n] != b[n],
    ensures
        n < a.len() && n < b.len() ==> (bytes_less(a, b) <==> a[n] < b[n]),
        n == a.len() && n < b.len() ==> bytes_less(a, b),
        n == b.len() ==> !bytes_less(a, b),
    decreases n,
{
    if n > 0 {
        assert(a[0] == b[0]);
        let (x, y) = (a.drop_first(), b.drop_first());
        assert forall|i: int| 0 <= i < n - 1 implies x[i] == y[i] by {
            assert(a[i + 1] == b[i + 1]);
        }
        law_byte_order(x, y, n - 1);
    }
}

/// The order of keys is that of their UTF-8 bytes.
pub proof fn law_key_order(a: Seq<char>, b: Seq<char>, keys: Seq<Seq<char>>)
    ensures
        key_less(a, b) == bytes_less(encode_utf8(a), encode_utf8(b)),
        ascending(keys) <==> forall|i: int, j: int|
            0 <= i < j < keys.len() ==> !bytes_less(
                encode_utf8(#[trigger] keys[j]),
                encode_utf8(#[trigger] keys[i]),
            ),
{
    assert(forall|x: Seq<char>, y: Seq<char>| #[trigger]
        key_less(x, y) == bytes_less(encode_utf8(x), encode_utf8(y)));
}

/// What a scan returns: keys that are live, begin with the whole prefix and come after the cursor,
/// unless that is empty; no more of them than asked for, each once and in order; and of the keys
/// with these properties every one that is not returned comes after all that are, and is left out
/// only because the page is full. There is more exactly where a key is left out so.
pub proof fn law_scan_page(
    store: StoreView,
    prefix: Seq<char>,
    limit: nat,
    cursor: Seq<char>,
    now: u64,
)
    requires
        store.entries.dom().finite(),
    ensures
        ({
            let page = store.page(prefix, limit, cursor, now);
            &&& page.len() <= limit
            &&& forall|i: int|
                0 <= i < page.len() ==> {
                    let k = #[trigger] page[i];
                    &&& store.entries.contains_key(k)
                    &&& match store.entries[k].expires_at {
                        Some(at) => now < at,
                        None => true,
                    }
                    &&& prefix.is_prefix_of(k)
                    &&& cursor.len() == 0 || bytes_less(encode_utf8(cursor), encode_utf8(k))
                }
            &&& forall|i: int, j: int|
                0 <= i < j < page.len() ==> bytes_less(
                    encode_utf8(#[trigger] page[i]),
                    encode_utf8(#[trigger] page[j]),
                )
            &&& forall|k: Seq<char>|
                #![trigger store.entries.contains_key(k)]
                {
                    &&& store.entries.contains_key(k)
                    &&& match store.entries[k].expires_at {
                        Some(at) => now < at,
                        None => true,
                    }
                    &&& prefix.is_prefix_of(k)
                    &&& cursor.len() == 0 || bytes_less(encode_utf8(cursor), encode_utf8(k))
                    &&& !page.contains(k)
                } ==> {
                    &&& page.len() == limit
                    &&& limit > 0 ==> store.more(prefix, limit, cursor, now)
                    &&& forall|i: int|
                        0 <= i < page.len() ==> bytes_less(
                            encode_utf8(#[trigger] page[i]),
                            encode_utf8(k),
                        )
                }
            &&& store.more(prefix, limit, cursor, now) ==> limit > 0 && exists|k: Seq<char>|
                #![trigger store.entries.contains_key(k)]
                {
                    &&& store.entries.contains_key(k)
                    &&& match store.entries[k].expires_at {
                        Some(at) => now < at,
                        None => true,
                    }
                    &&& prefix.is_prefix_of(k)
                    &&& cursor.len() == 0 || bytes_less(encode_utf8(cursor), encode_utf8(k))
                    &&& !page.contains(k)
                }
        }),
{
    let matching = store.matching(prefix, cursor, now);
    let all = in_order(matching);
    let page = store.page(prefix, limit, cursor, now);
    lemma_in_order_exists(matching);
    assert forall|i: int| 0 <= i < page.len() implies matching.contains(#[trigger] page[i]) by {
        assert(all.to_set().contains(all[i]));
    }
    assert forall|i: int, j: int| 0 <= i < j < page.len() implies key_less(
        #[trigger] page[i],
        #[trigger] page[j],
    ) by {
        assert(key_less(all[i], all[j]));
    }
    assert forall|k: Seq<char>| #[trigger] matching.contains(k) && !page.contains(k) implies {
        &&& page.len() == limit
        &&& all.len() > limit
        &&& forall|i: int| 0 <= i < page.len() ==> key_less(#[trigger] page[i], k)
    } by {
        assert(all.to_set().contains(k));
        let n = choose|n: int| 0 <= n < all.len() && all[n] == k;
        if n < page.len() {
            assert(page[n] == k);
        }
        assert forall|i: int| 0 <= i < page.len() implies key_less(#[trigger] page[i], k) by {
            assert(key_less(all[i], all[n]));
        }
    }
    assert forall|k: Seq<char>|
        #![trigger store.entries.contains_key(k)]
        {
            &&& store.entries.contains_key(k)
            &&& match store.entries[k].expires_at {
                Some(at) => now < at,
                None => true,
            }
            &&& prefix.is_prefix_of(k)
            &&& cursor.len() == 0 || bytes_less(encode_utf8(cursor), encode_utf8(k))
        } implies matching.contains(k) by {}
    if store.more(prefix, limit, cursor, now) {
        let k = all[limit as int];
        assert(all.to_set().contains(k));
        assert(matching.contains(k));
        if page.contains(k) {
            let i = choose|i: int| 0 <= i < page.len() && page[i] == k;
            assert(key_less(all[i], all[limit as int]));
            lemma_key_less_total(all[i], k);
        }
        assert(store.entries.contains_key(k));
    }
}

} // verus!
