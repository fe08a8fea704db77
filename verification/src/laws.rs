//! What holds of the store across operations.
use crate::entry::{EntryView, TtlInfo};
use crate::fields::{blob_field, lemma_blob_len, lemma_text_len};
use crate::model::{
    in_order, keys_of, lemma_in_order, lemma_in_order_exists, strictly_ascending, StoreView,
};
use crate::protocol::{
    after, response, status, ttl_response, MAX_FRAME_SIZE, RESP_NOT_FOUND, RESP_OK,
};
use crate::request::RequestView;
use crate::text::{key_less, lemma_key_less_total, lemma_key_less_transitive};
use vstd::prelude::*;

verus! {

/// A value that was set is read back at any later time, whatever expiry its key had before, and
/// the key counts as one that never expires. Other keys read as before.
pub proof fn law_read_after_set(
    store: StoreView,
    key: Seq<char>,
    value: Seq<u8>,
    other: Seq<char>,
    now: u64,
)
    requires
        store.admits(key),
        other != key,
    ensures
        ({
            let set = store.written(key, EntryView { value, expires_at: None });
            &&& set.value_at(key, now) == Some(value)
            &&& set.ttl_at(key, now) == Some(TtlInfo::Permanent)
            &&& set.value_at(other, now) == store.value_at(other, now)
            &&& set.ttl_at(other, now) == store.ttl_at(other, now)
        }),
{
}

/// A value that was set with a TTL is read back for as long as the TTL lasts, and never after.
/// Other keys read as before.
pub proof fn law_read_after_set_with_ttl(
    store: StoreView,
    key: Seq<char>,
    value: Seq<u8>,
    ttl_ms: u64,
    set_at: u64,
    other: Seq<char>,
    now: u64,
)
    requires
        store.admits(key),
        other != key,
    ensures
        ({
            let set = store.written(key, StoreView::expiring(value, ttl_ms, set_at));
            let deadline = StoreView::deadline(ttl_ms, set_at);
            &&& now < deadline ==> set.value_at(key, now) == Some(value) && set.ttl_at(key, now)
                == Some(TtlInfo::RemainingMs((deadline - now) as u64))
            &&& now >= deadline ==> set.value_at(key, now) is None && set.ttl_at(key, now) is None
            &&& set.value_at(other, now) == store.value_at(other, now)
        }),
{
}

/// A key that was removed has no value, and other keys read as before.
pub proof fn law_read_after_del(store: StoreView, key: Seq<char>, other: Seq<char>, now: u64)
    requires
        other != key,
    ensures
        store.without(key).value_at(key, now) is None,
        store.without(key).value_at(other, now) == store.value_at(other, now),
{
}

/// Removing expired entries, one or all of them, changes nothing that a reader sees, then or
/// later.
pub proof fn law_purge_unseen(
    store: StoreView,
    purged_at: u64,
    purged_key: Seq<char>,
    key: Seq<char>,
    now: u64,
)
    requires
        purged_at <= now,
    ensures
        store.purged(purged_at).value_at(key, now) == store.value_at(key, now),
        store.purged(purged_at).ttl_at(key, now) == store.ttl_at(key, now),
        store.touched(purged_key, purged_at).value_at(key, now) == store.value_at(key, now),
        store.touched(purged_key, purged_at).ttl_at(key, now) == store.ttl_at(key, now),
        store.purged(purged_at).live_keys(now) == store.live_keys(now),
{
    assert(store.purged(purged_at).live_keys(now) =~= store.live_keys(now));
}

/// An expired entry is never seen: not by a read, a TTL query, a scan or a snapshot.
pub proof fn law_expired_is_absent(
    store: StoreView,
    key: Seq<char>,
    prefix: Seq<char>,
    limit: nat,
    cursor: Seq<char>,
    now: u64,
)
    requires
        store.entries.dom().finite(),
        store.is_stale(key, now),
    ensures
        store.value_at(key, now) is None,
        store.ttl_at(key, now) is None,
        !store.page(prefix, limit, cursor, now).contains(key),
        !store.purged(now).contains(key),
{
    let all = in_order(store.matching(prefix, cursor, now));
    lemma_in_order_exists(store.matching(prefix, cursor, now));
    let page = store.page(prefix, limit, cursor, now);
    if page.contains(key) {
        let i = choose|i: int| 0 <= i < page.len() && page[i] == key;
        assert(all[i] == key);
        assert(all.to_set().contains(key));
    }
}

/// Removing all expired entries frees one place for each of them, and what is left is what was
/// live.
pub proof fn law_purge_frees_capacity(store: StoreView, now: u64)
    requires
        store.entries.dom().finite(),
    ensures
        store.purged(now).len() == store.len() - store.stale_keys(now).len(),
        store.purged(now).len() == store.live_keys(now).len(),
        store.stale_keys(now).len() > 0 && store.len() <= store.capacity() ==> forall|key: Seq<
            char,
        >| #[trigger] store.purged(now).admits(key),
{
    let dom = store.entries.dom();
    let stale = store.stale_keys(now);
    assert(store.purged(now).entries.dom() =~= store.live_keys(now));
    assert(dom =~= stale.union(store.live_keys(now)));
    assert(stale.disjoint(store.live_keys(now)));
    vstd::set_lib::lemma_set_disjoint_lens(stale, store.live_keys(now));
}

/// Sweeping twice removes nothing the second time.
pub proof fn law_purge_once(store: StoreView, now: u64)
    ensures
        store.purged(now).stale_keys(now) == Set::<Seq<char>>::empty(),
        store.purged(now).purged(now) == store.purged(now),
{
    let purged = store.purged(now);
    assert(purged.stale_keys(now) =~= Set::<Seq<char>>::empty());
    assert(purged.purged(now).entries =~= purged.entries);
}

/// The number of entries counts keys: a write of a new key adds one, a write of a key that has an
/// entry none, and a removal takes one away if the key had an entry.
pub proof fn law_count(store: StoreView, key: Seq<char>, entry: EntryView)
    requires
        store.entries.dom().finite(),
    ensures
        store.admits(key) && !store.contains(key) ==> store.written(key, entry).len() == store.len()
            + 1,
        store.contains(key) ==> store.written(key, entry).len() == store.len(),
        !store.admits(key) ==> store.written(key, entry) == store,
        store.contains(key) ==> store.without(key).len() == store.len() - 1,
        !store.contains(key) ==> store.without(key).len() == store.len(),
{
    assert(store.contains(key) ==> store.with(key, entry).entries.dom() =~= store.entries.dom());
    assert(!store.contains(key) ==> store.without(key).entries =~= store.entries);
}

/// Reading several keys at once is reading them one after the other: each gives what a read of it
/// alone gives, and the same entries are removed.
pub proof fn law_mget_as_gets(store: StoreView, keys: Seq<Seq<char>>, key: Seq<char>, now: u64)
    ensures
        store.touched_all(keys, now).value_at(key, now) == store.value_at(key, now),
        store.touched_all(keys.push(key), now) == store.touched_all(keys, now).touched(key, now),
        store.touched_all(Seq::empty(), now) == store,
{
    let next = keys.push(key);
    assert forall|k: Seq<char>| #[trigger] next.contains(k) <==> keys.contains(k) || k == key by {
        if keys.contains(k) {
            let i = choose|i: int| 0 <= i < keys.len() && keys[i] == k;
            assert(next[i] == k);
        }
        assert(next[keys.len() as int] == key);
    }
    assert(store.touched_all(next, now).entries =~= store.touched_all(keys, now).touched(
        key,
        now,
    ).entries);
    assert(store.touched_all(Seq::empty(), now).entries =~= store.entries);
}

/// Reading one key removes one entry if it has expired, and else none.
pub proof fn law_touch_frees_one(store: StoreView, key: Seq<char>, now: u64)
    requires
        store.entries.dom().finite(),
    ensures
        store.touched(key, now).len() == if store.is_stale(key, now) {
            store.len() - 1
        } else {
            store.len() as int
        },
{
}

/// What happens to a store: a request is served at some time, or expired entries are swept.
pub enum Step {
    Serve { request: RequestView, now: u64 },
    Sweep { now: u64 },
}

/// The store after one step.
pub open spec fn stepped(store: StoreView, step: Step) -> StoreView {
    match step {
        Step::Serve { request, now } => after(store, request, now),
        Step::Sweep { now } => store.purged(now),
    }
}

/// The store after some steps.
pub open spec fn run(store: StoreView, steps: Seq<Step>) -> StoreView
    decreases steps.len(),
{
    if steps.len() == 0 {
        store
    } else {
        stepped(run(store, steps.drop_last()), steps.last())
    }
}

proof fn lemma_step_bound(store: StoreView, step: Step)
    requires
        store.entries.dom().finite(),
    ensures
        stepped(store, step).entries.dom().finite(),
        stepped(store, step).max_entries == store.max_entries,
        stepped(store, step).len() <= store.len() || stepped(store, step).len()
            <= store.capacity(),
{
    let next = stepped(store, step);
    if next.entries.dom().subset_of(store.entries.dom()) {
        vstd::set_lib::lemma_len_subset(next.entries.dom(), store.entries.dom());
    }
}

/// The bound on the number of entries is never exceeded, whatever requests are served and in
/// whatever order, those of different connections among them. A store that was restored beyond
/// its bound does not grow any further.
pub proof fn law_bound_kept(store: StoreView, steps: Seq<Step>)
    requires
        store.entries.dom().finite(),
    ensures
        run(store, steps).entries.dom().finite(),
        run(store, steps).max_entries == store.max_entries,
        store.len() <= store.capacity() ==> run(store, steps).len() <= store.capacity(),
        store.len() > store.capacity() ==> run(store, steps).len() <= store.len(),
    decreases steps.len(),
{
    if steps.len() > 0 {
        law_bound_kept(store, steps.drop_last());
        lemma_step_bound(run(store, steps.drop_last()), steps.last());
    }
}

/// A write is refused only for a new key in a full store: a key that has an entry can always be
/// written, and a store without a bound takes every key that its counter has a number for.
pub proof fn law_refused_only_when_full(store: StoreView, key: Seq<char>)
    ensures
        store.contains(key) ==> store.admits(key),
        store.max_entries == 0 && store.len() < u64::MAX ==> store.admits(key),
        store.max_entries > 0 && store.len() < store.max_entries ==> store.admits(key),
        store.max_entries > 0 && store.len() >= store.max_entries && !store.contains(key)
            ==> !store.admits(key),
{
}

/// The store after some writes, each of which it may refuse, and how many of them it accepted.
pub open spec fn set_all(store: StoreView, writes: Seq<(Seq<char>, EntryView)>) -> (StoreView, nat)
    decreases writes.len(),
{
    if writes.len() == 0 {
        (store, 0)
    } else {
        let (before, accepted) = set_all(store, writes.drop_last());
        let (key, entry) = writes.last();
        (
            before.written(key, entry),
            if before.admits(key) {
                accepted + 1
            } else {
                accepted
            },
        )
    }
}

/// Writes of different new keys, in whatever order they come, are accepted exactly as long as
/// there is room: as many of them as fit, and then none. The number of entries grows by that
/// number, and at no moment are there more than the bound allows. So an empty store with the bound
/// `max` accepts `max` of more than `max` writes, and all of fewer.
pub proof fn law_accepted_up_to_bound(store: StoreView, writes: Seq<(Seq<char>, EntryView)>)
    requires
        store.entries.dom().finite(),
        store.len() <= store.capacity(),
        keys_of(writes).no_duplicates(),
        forall|i: int| 0 <= i < writes.len() ==> !store.contains((#[trigger] writes[i]).0),
    ensures
        ({
            let (end, accepted) = set_all(store, writes);
            &&& accepted == if writes.len() <= store.capacity() - store.len() {
                writes.len() as int
            } else {
                store.capacity() - store.len()
            }
            &&& end.entries.dom().finite()
            &&& end.max_entries == store.max_entries
            &&& end.len() == store.len() + accepted
            &&& forall|i: int|
                0 <= i < writes.len() ==> (end.contains((#[trigger] writes[i]).0) <==> i < accepted)
            &&& forall|k: Seq<char>| #[trigger]
                end.contains(k) ==> store.contains(k) || keys_of(writes).contains(k)
        }),
        forall|m: int|
            0 <= m <= writes.len() ==> (#[trigger] set_all(store, writes.take(m))).0.len()
                <= store.capacity(),
    decreases writes.len(),
{
    if writes.len() > 0 {
        let rest = writes.drop_last();
        let last = writes.last();
        let keys = keys_of(writes);
        let (before, accepted) = set_all(store, rest);
        let end = set_all(store, writes).0;
        assert(keys_of(rest) =~= keys.drop_last());
        assert forall|i: int| 0 <= i < rest.len() implies !store.contains((#[trigger] rest[i]).0) by {
            assert(rest[i] == writes[i]);
        }
        law_accepted_up_to_bound(store, rest);
        assert(!before.contains(last.0)) by {
            assert(!store.contains(writes[writes.len() - 1].0));
            if keys_of(rest).contains(last.0) {
                let j = choose|j: int| 0 <= j < rest.len() && keys_of(rest)[j] == last.0;
                assert(keys[j] == keys[writes.len() - 1]);
            }
        }
        assert forall|i: int| 0 <= i < writes.len() implies (end.contains((#[trigger] writes[i]).0)
            <==> i < set_all(store, writes).1) by {
            if i < rest.len() {
                assert(rest[i] == writes[i]);
                assert(keys[i] != keys[writes.len() - 1]);
            }
        }
        assert forall|k: Seq<char>| #[trigger] end.contains(k) implies store.contains(k)
            || keys.contains(k) by {
            if k == last.0 {
                assert(keys[writes.len() - 1] == k);
            } else if !store.contains(k) {
                assert(before.contains(k));
                let j = choose|j: int| 0 <= j < rest.len() && keys_of(rest)[j] == k;
                assert(keys[j] == k);
            }
        }
        assert forall|m: int| 0 <= m <= writes.len() implies (#[trigger] set_all(
            store,
            writes.take(m),
        )).0.len() <= store.capacity() by {
            if m < writes.len() {
                assert(writes.take(m) =~= rest.take(m));
            } else {
                assert(writes.take(m) =~= writes);
            }
        }
    } else {
        assert forall|m: int| 0 <= m <= writes.len() implies (#[trigger] set_all(
            store,
            writes.take(m),
        )).0.len() <= store.capacity() by {
            assert(writes.take(m) =~= writes);
        }
    }
}

/// The matching keys after the last one of a page are those that the page left.
proof fn lemma_next_page(
    store: StoreView,
    prefix: Seq<char>,
    limit: nat,
    cursor: Seq<char>,
    now: u64,
)
    requires
        store.entries.dom().finite(),
        store.page(prefix, limit, cursor, now).len() > 0,
        store.page(prefix, limit, cursor, now).last().len() > 0,
    ensures
        in_order(
            store.matching(prefix, store.page(prefix, limit, cursor, now).last(), now),
        ) == in_order(store.matching(prefix, cursor, now)).skip(
            store.page(prefix, limit, cursor, now).len() as int,
        ),
{
    let matching = store.matching(prefix, cursor, now);
    let all = in_order(matching);
    lemma_in_order_exists(matching);
    let page = store.page(prefix, limit, cursor, now);
    let n = page.len();
    let last = page.last();
    assert(last == all[n - 1]);
    let rest = all.skip(n as int);
    let next = store.matching(prefix, last, now);
    assert(strictly_ascending(rest)) by {
        assert forall|i: int, j: int| 0 <= i < j < rest.len() implies key_less(
            #[trigger] rest[i],
            #[trigger] rest[j],
        ) by {
            assert(key_less(all[i + n], all[j + n]));
        }
    }
    assert forall|k: Seq<char>| rest.to_set().contains(k) == next.contains(k) by {
        assert(all.to_set().contains(last));
        assert(matching.contains(last));
        if rest.contains(k) {
            let i = choose|i: int| 0 <= i < rest.len() && rest[i] == k;
            assert(all[i + n] == k);
            assert(key_less(all[n - 1], all[i + n]));
            assert(all.to_set().contains(k));
            assert(matching.contains(k));
        }
        if next.contains(k) {
            if cursor.len() > 0 {
                lemma_key_less_transitive(cursor, last, k);
            }
            assert(matching.contains(k));
            assert(all.to_set().contains(k));
            let i = choose|i: int| 0 <= i < all.len() && all[i] == k;
            lemma_key_less_total(last, k);
            if i < n - 1 {
                assert(key_less(all[i], all[n - 1]));
            }
            assert(i >= n);
            assert(rest[i - n] == k);
        }
    }
    assert(rest.to_set() =~= next);
    lemma_in_order(rest);
}

/// The keys that a scan looks for depend on the live keys alone.
proof fn lemma_matching_of_live(
    a: StoreView,
    at_a: u64,
    b: StoreView,
    at_b: u64,
    prefix: Seq<char>,
    cursor: Seq<char>,
)
    requires
        a.live_keys(at_a) == b.live_keys(at_b),
    ensures
        a.matching(prefix, cursor, at_a) == b.matching(prefix, cursor, at_b),
{
    assert(a.matching(prefix, cursor, at_a) =~= b.matching(prefix, cursor, at_b));
}

/// Pages join: as long as the live keys are the same, a page of `first_limit` keys and the page of
/// `next_limit` keys that is asked for with its last key are together the page of as many keys as
/// both, and the second says whether there are more. The stores may be different ones and the
/// scans may be made at different times: neither removing expired entries in between nor the
/// passing of time shows. (A page that ends with the empty key cannot be gone on from, since an
/// empty cursor starts anew.)
pub proof fn law_scan_pages_join(
    first: StoreView,
    first_at: u64,
    next: StoreView,
    next_at: u64,
    whole: StoreView,
    whole_at: u64,
    prefix: Seq<char>,
    first_limit: nat,
    next_limit: nat,
    cursor: Seq<char>,
)
    requires
        first.entries.dom().finite(),
        first.live_keys(first_at) == next.live_keys(next_at),
        first.live_keys(first_at) == whole.live_keys(whole_at),
        first.page(prefix, first_limit, cursor, first_at).len() > 0,
        first.page(prefix, first_limit, cursor, first_at).last().len() > 0,
    ensures
        ({
            let page = first.page(prefix, first_limit, cursor, first_at);
            let both = first_limit + next_limit;
            &&& page + next.page(prefix, next_limit, page.last(), next_at) == whole.page(
                prefix,
                both,
                cursor,
                whole_at,
            )
            &&& next_limit > 0 ==> next.more(prefix, next_limit, page.last(), next_at)
                == whole.more(prefix, both, cursor, whole_at)
            &&& first.more(prefix, first_limit, cursor, first_at) <==> in_order(
                next.matching(prefix, page.last(), next_at),
            ).len() > 0
        }),
{
    let page = first.page(prefix, first_limit, cursor, first_at);
    let last = page.last();
    lemma_next_page(first, prefix, first_limit, cursor, first_at);
    lemma_matching_of_live(first, first_at, next, next_at, prefix, last);
    lemma_matching_of_live(first, first_at, whole, whole_at, prefix, cursor);
    let all = in_order(first.matching(prefix, cursor, first_at));
    let rest = all.skip(page.len() as int);
    assert(rest == in_order(next.matching(prefix, last, next_at)));
    assert(page + next.page(prefix, next_limit, last, next_at) =~= whole.page(
        prefix,
        first_limit + next_limit,
        cursor,
        whole_at,
    ));
}

/// The keys of the first `n` pages of a scan, each page but the first asked for with the last key
/// of the one before. Each scan leaves the store without its expired entries.
pub open spec fn pages(
    store: StoreView,
    prefix: Seq<char>,
    limit: nat,
    cursor: Seq<char>,
    now: u64,
    n: nat,
) -> Seq<Seq<char>>
    decreases n,
{
    if n == 0 {
        seq![]
    } else {
        let page = store.page(prefix, limit, cursor, now);
        if store.more(prefix, limit, cursor, now) {
            page + pages(store.purged(now), prefix, limit, page.last(), now, (n - 1) as nat)
        } else {
            page
        }
    }
}

proof fn lemma_purged_matching(store: StoreView, prefix: Seq<char>, cursor: Seq<char>, now: u64)
    ensures
        store.purged(now).matching(prefix, cursor, now) == store.matching(prefix, cursor, now),
{
    assert(store.purged(now).matching(prefix, cursor, now) =~= store.matching(prefix, cursor, now));
}

/// Paging through a scan, with the last key of each page as the cursor for the next one, gives
/// every live key with the prefix exactly once, in order, whatever the size of a page. (A page
/// that is the empty key alone cannot be gone on from, since an empty cursor starts anew.)
pub proof fn law_scan_pages(
    store: StoreView,
    prefix: Seq<char>,
    limit: nat,
    cursor: Seq<char>,
    now: u64,
    n: nat,
)
    requires
        store.entries.dom().finite(),
        limit > 1 || (limit == 1 && !store.is_live(Seq::empty(), now)),
        n > 0,
        n >= store.matching(prefix, cursor, now).len(),
    ensures
        pages(store, prefix, limit, cursor, now, n) == in_order(
            store.matching(prefix, cursor, now),
        ),
    decreases n,
{
    let matching = store.matching(prefix, cursor, now);
    let all = in_order(matching);
    lemma_in_order_exists(matching);
    if store.more(prefix, limit, cursor, now) {
        let page = store.page(prefix, limit, cursor, now);
        let last = page.last();
        assert(last == all[limit - 1]);
        if last.len() == 0 {
            assert(last =~= Seq::empty());
            assert(all.to_set().contains(last));
            assert(matching.contains(last));
            lemma_empty_key_first(all, limit - 1);
        }
        lemma_next_page(store, prefix, limit, cursor, now);
        lemma_purged_matching(store, prefix, last, now);
        let next = store.matching(prefix, last, now);
        lemma_in_order_exists(next);
        assert(next.len() == all.len() - limit);
        assert(store.purged(now).entries.dom().subset_of(store.entries.dom()));
        law_scan_pages(store.purged(now), prefix, limit, last, now, (n - 1) as nat);
        assert(page + all.skip(limit as int) =~= all);
    }
}

/// The empty key comes before all others.
proof fn lemma_empty_key_first(keys: Seq<Seq<char>>, i: int)
    requires
        strictly_ascending(keys),
        0 <= i < keys.len(),
        keys[i].len() == 0,
    ensures
        i == 0,
{
    if i > 0 {
        assert(key_less(keys[0], keys[i]));
        assert(keys[i] =~= Seq::empty());
    }
}

/// A value that was set over the wire is read back over the wire: a GET at any later time is
/// answered with the value, EXISTS with yes, and TTL with never.
pub proof fn law_wire_read_after_set(
    store: StoreView,
    key: Seq<char>,
    value: Seq<u8>,
    set_at: u64,
    now: u64,
)
    requires
        (RequestView::Put { key, value }).encoding().len() <= MAX_FRAME_SIZE,
        store.admits(key),
    ensures
        ({
            let set = after(store, RequestView::Put { key, value }, set_at);
            &&& response(store, RequestView::Put { key, value }, set_at) == status(RESP_OK)
            &&& response(set, RequestView::Get { key }, now) == seq![RESP_OK] + blob_field(value)
            &&& response(set, RequestView::Exists { key }, now) == status(RESP_OK)
            &&& response(set, RequestView::Ttl { key }, now) == seq![RESP_OK, 0u8]
        }),
{
    lemma_text_len(key);
    lemma_blob_len(value);
}

/// A value that was set over the wire with a TTL is read back over the wire until it expires, and
/// is not found after that.
pub proof fn law_wire_read_after_setx(
    store: StoreView,
    key: Seq<char>,
    value: Seq<u8>,
    ttl_ms: u64,
    set_at: u64,
    now: u64,
)
    requires
        (RequestView::PutTtl { key, value, ttl_ms }).encoding().len() <= MAX_FRAME_SIZE,
        store.admits(key),
    ensures
        ({
            let request = RequestView::PutTtl { key, value, ttl_ms };
            let set = after(store, request, set_at);
            let deadline = StoreView::deadline(ttl_ms, set_at);
            &&& response(store, request, set_at) == status(RESP_OK)
            &&& now < deadline ==> response(set, RequestView::Get { key }, now) == seq![RESP_OK]
                + blob_field(value) && response(set, RequestView::Exists { key }, now) == status(
                RESP_OK,
            ) && response(set, RequestView::Ttl { key }, now) == ttl_response(
                Some(TtlInfo::RemainingMs((deadline - now) as u64)),
            )
            &&& now >= deadline ==> response(set, RequestView::Get { key }, now) == status(
                RESP_NOT_FOUND,
            ) && response(set, RequestView::Exists { key }, now) == status(RESP_NOT_FOUND)
                && response(set, RequestView::Ttl { key }, now) == status(RESP_NOT_FOUND)
        }),
{
    lemma_text_len(key);
    lemma_blob_len(value);
}

} // verus!
