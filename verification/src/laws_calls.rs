//! What calls of the library's functions give, and how two calls relate, whatever the calls are. A
//! call is spoken of by what it was given and what it returned; a store that it changes, by what the
//! store was before and is after it.
use crate::bytes::bytes_less;
use crate::entry::{EntryView, TtlInfo};
use crate::laws_store::{
    law_reads, law_removes_expired, law_scan_page, law_ttl_lasts, law_views, law_writes,
};
use crate::sort::key_views;
use crate::store::{value_views, ShardedKV};
use vstd::prelude::*;
use vstd::utf8::encode_utf8;

verus! {

/// A call of [`ShardedKV::set`]: it succeeds exactly where the key has an entry or there are fewer
/// entries than the bound, and the key then has that value and no timestamp. No other key changes,
/// and none does where it fails.
pub proof fn law_call_set(store: &mut ShardedKV, key: &str, value: Vec<u8>, done: bool)
    requires
        call_ensures(ShardedKV::set, (store, key, value), done),
    ensures
        ({
            let (was, is) = (old(store)@, final(store)@);
            let bound = if was.max_entries == 0 {
                0xFFFF_FFFF_FFFF_FFFFint
            } else {
                was.max_entries as int
            };
            &&& done == (was.entries.contains_key(key@) || was.entries.dom().len() < bound)
            &&& is.max_entries == was.max_entries
            &&& !done ==> is.entries == was.entries
            &&& done ==> is.entries == was.entries.insert(
                key@,
                EntryView { value: value@, expires_at: None },
            )
        }),
{
    law_writes(old(store)@, key@, EntryView { value: value@, expires_at: None });
}

/// A call of [`ShardedKV::set_with_ttl_at`]: it succeeds exactly where the TTL is not 0 and the key
/// has an entry or there are fewer entries than the bound. No other key changes, and none does where
/// it fails.
pub proof fn law_call_set_with_ttl(
    store: &mut ShardedKV,
    key: &str,
    value: Vec<u8>,
    ttl_ms: u64,
    now: u64,
    done: bool,
)
    requires
        call_ensures(ShardedKV::set_with_ttl_at, (store, key, value, ttl_ms, now), done),
    ensures
        ({
            let (was, is) = (old(store)@, final(store)@);
            let bound = if was.max_entries == 0 {
                0xFFFF_FFFF_FFFF_FFFFint
            } else {
                was.max_entries as int
            };
            &&& done == (ttl_ms > 0 && (was.entries.contains_key(key@) || was.entries.dom().len()
                < bound))
            &&& is.max_entries == was.max_entries
            &&& !done ==> is.entries == was.entries
            &&& done ==> {
                &&& is.entries.dom() == was.entries.dom().insert(key@)
                &&& is.entries.remove(key@) == was.entries.remove(key@)
                &&& is.entries[key@].value == value@
                &&& now + ttl_ms <= 0xFFFF_FFFF_FFFF_FFFF ==> is.entries[key@].expires_at == Some(
                    (now + ttl_ms) as u64,
                )
                &&& now + ttl_ms > 0xFFFF_FFFF_FFFF_FFFF ==> is.entries[key@].expires_at == Some(
                    0xFFFF_FFFF_FFFF_FFFFu64,
                )
            }
        }),
{
    if ttl_ms > 0 && old(store)@.admits(key@) {
        law_ttl_lasts(old(store)@, key@, value@, ttl_ms, now, now);
    }
}

/// A call of [`ShardedKV::get_at`] after one of [`ShardedKV::set_with_ttl_at`] that succeeded, with
/// nothing between them: it gives the value at each time before the sum of the time it was set at
/// and the TTL, and nothing from then on.
pub proof fn law_call_get_after_set_with_ttl(
    setting: &mut ShardedKV,
    getting: &mut ShardedKV,
    key: &str,
    value: Vec<u8>,
    ttl_ms: u64,
    set_at: u64,
    now: u64,
    got: Option<Vec<u8>>,
)
    requires
        set_at + ttl_ms <= 0xFFFF_FFFF_FFFF_FFFF,
        call_ensures(ShardedKV::set_with_ttl_at, (setting, key, value, ttl_ms, set_at), true),
        call_ensures(ShardedKV::get_at, (getting, key, now), got),
    ensures
        *final(setting) == *old(getting) ==> {
            &&& now < set_at + ttl_ms ==> got is Some && got->0@ == value@
            &&& now >= set_at + ttl_ms ==> got is None
        },
{
    law_call_set_with_ttl(setting, key, value, ttl_ms, set_at, true);
    law_reads(old(getting)@, key@, now);
}

/// A call of [`ShardedKV::ttl_at`] after one of [`ShardedKV::set_with_ttl_at`] that succeeded, with
/// nothing between them: it gives what is left of the sum of the time it was set at and the TTL at
/// each time before that sum, and nothing from then on.
pub proof fn law_call_ttl_after_set_with_ttl(
    setting: &mut ShardedKV,
    asking: &mut ShardedKV,
    key: &str,
    value: Vec<u8>,
    ttl_ms: u64,
    set_at: u64,
    now: u64,
    info: Option<TtlInfo>,
)
    requires
        set_at + ttl_ms <= 0xFFFF_FFFF_FFFF_FFFF,
        call_ensures(ShardedKV::set_with_ttl_at, (setting, key, value, ttl_ms, set_at), true),
        call_ensures(ShardedKV::ttl_at, (asking, key, now), info),
    ensures
        *final(setting) == *old(asking) ==> {
            &&& now < set_at + ttl_ms ==> info == Some(
                TtlInfo::RemainingMs((set_at + ttl_ms - now) as u64),
            )
            &&& now >= set_at + ttl_ms ==> info is None
        },
{
    law_call_set_with_ttl(setting, key, value, ttl_ms, set_at, true);
    law_reads(old(asking)@, key@, now);
}

/// Calls of [`ShardedKV::get_at`], [`ShardedKV::contains_at`] and [`ShardedKV::ttl_at`]: they find a
/// key that has an entry whose timestamp, if it has one, has not been reached. An entry whose
/// timestamp has been reached is removed, and nothing else.
pub proof fn law_call_reads(
    getting: &mut ShardedKV,
    asking: &mut ShardedKV,
    timing: &mut ShardedKV,
    key: &str,
    now: u64,
    got: Option<Vec<u8>>,
    yes: bool,
    info: Option<TtlInfo>,
)
    requires
        call_ensures(ShardedKV::get_at, (getting, key, now), got),
        call_ensures(ShardedKV::contains_at, (asking, key, now), yes),
        call_ensures(ShardedKV::ttl_at, (timing, key, now), info),
    ensures
        *old(getting) == *old(asking) && *old(asking) == *old(timing) ==> {
            let was = old(getting)@;
            let entry = was.entries[key@];
            let present = was.entries.contains_key(key@);
            let over = match entry.expires_at {
                Some(at) => at <= now,
                None => false,
            };
            let left = if over {
                was.entries.remove(key@)
            } else {
                was.entries
            };
            &&& yes == (present && !over)
            &&& got is Some == yes
            &&& info is Some == yes
            &&& yes ==> got->0@ == entry.value
            &&& yes && entry.expires_at is None ==> info == Some(TtlInfo::Permanent)
            &&& yes && entry.expires_at is Some ==> (info matches Some(TtlInfo::RemainingMs(ms))
                && now + ms == entry.expires_at->0)
            &&& final(getting)@.entries == left
            &&& final(asking)@.entries == left
            &&& final(timing)@.entries == left
            &&& final(getting)@.max_entries == was.max_entries
            &&& final(asking)@.max_entries == was.max_entries
            &&& final(timing)@.max_entries == was.max_entries
        },
{
    let was = old(getting)@;
    law_reads(was, key@, now);
    assert(!was.entries.contains_key(key@) ==> was.entries.remove(key@) =~= was.entries);
}

/// A call of [`ShardedKV::del_at`]: it gives the value that [`ShardedKV::get_at`] would have given,
/// and removes the key and nothing else.
pub proof fn law_call_del(
    deleting: &mut ShardedKV,
    getting: &mut ShardedKV,
    key: &str,
    now: u64,
    removed: Option<Vec<u8>>,
    got: Option<Vec<u8>>,
)
    requires
        call_ensures(ShardedKV::del_at, (deleting, key, now), removed),
        call_ensures(ShardedKV::get_at, (getting, key, now), got),
    ensures
        *old(deleting) == *old(getting) ==> {
            &&& removed is Some == got is Some
            &&& removed is Some ==> removed->0@ == got->0@
        },
        final(deleting)@.entries == old(deleting)@.entries.remove(key@),
        final(deleting)@.max_entries == old(deleting)@.max_entries,
{
}

/// A call of [`ShardedKV::scan_at`]: the keys are live, begin with the whole prefix and come after
/// the cursor, unless that is empty; there are no more of them than asked for, and each comes before
/// the next; and of the keys with these properties every one that is not among them comes after all
/// of them, and is left out only because there are as many as asked for. There is more exactly where
/// a key is left out so and any were asked for. Where any were asked for, all entries whose
/// timestamps have been reached are removed, and nothing else changes.
#[verifier::spinoff_prover]
pub proof fn law_call_scan(
    store: &mut ShardedKV,
    prefix: &str,
    limit: usize,
    cursor: &str,
    now: u64,
    page: (Vec<String>, bool),
    k: Seq<char>,
)
    requires
        old(store).wf(),
        call_ensures(ShardedKV::scan_at, (store, prefix, limit, cursor, now), page),
    ensures
        ({
            let (was, is) = (old(store)@, final(store)@);
            let keys = page.0@;
            let present = was.entries.contains_key(k);
            let over = match was.entries[k].expires_at {
                Some(at) => at <= now,
                None => false,
            };
            let wanted = present && !over && prefix@.is_prefix_of(k) && (cursor@.len() == 0
                || bytes_less(encode_utf8(cursor@), encode_utf8(k)));
            let listed = exists|i: int| 0 <= i < keys.len() && (#[trigger] keys[i])@ == k;
            &&& keys.len() <= limit
            &&& listed ==> wanted
            &&& wanted && !listed ==> {
                &&& keys.len() == limit
                &&& limit > 0 ==> page.1
                &&& forall|i: int|
                    0 <= i < keys.len() ==> bytes_less(
                        encode_utf8((#[trigger] keys[i])@),
                        encode_utf8(k),
                    )
            }
            &&& forall|i: int, j: int|
                0 <= i < j < keys.len() ==> bytes_less(
                    encode_utf8((#[trigger] keys[i])@),
                    encode_utf8((#[trigger] keys[j])@),
                )
            &&& page.1 ==> limit > 0 && keys.len() == limit
            &&& is.max_entries == was.max_entries
            &&& is.entries.contains_key(k) == (present && !(over && limit > 0))
            &&& is.entries.contains_key(k) ==> is.entries[k] == was.entries[k]
        }),
{
    let was = old(store)@;
    let keys = page.0@;
    old(store).lemma_finite();
    law_scan_page(was, prefix@, limit as nat, cursor@, now);
    law_removes_expired(was, seq![], k, k, now);
    let found = was.page(prefix@, limit as nat, cursor@, now);
    assert(found.len() == keys.len());
    assert forall|i: int| 0 <= i < keys.len() implies #[trigger] found[i] == keys[i]@ by {
        law_views(keys, seq![], seq![], i);
    }
    if exists|i: int| 0 <= i < keys.len() && (#[trigger] keys[i])@ == k {
        let i = choose|i: int| 0 <= i < keys.len() && (#[trigger] keys[i])@ == k;
        assert(found[i] == k);
    } else {
        assert(!found.contains(k)) by {
            if found.contains(k) {
                let i = choose|i: int| 0 <= i < found.len() && found[i] == k;
                assert(keys[i]@ == k);
            }
        }
        if was.entries.contains_key(k) {
            assert forall|i: int| 0 <= i < keys.len() implies bytes_less(
                encode_utf8(found[i]),
                encode_utf8(k),
            ) == bytes_less(encode_utf8((#[trigger] keys[i])@), encode_utf8(k)) by {}
        }
    }
    assert forall|i: int, j: int| 0 <= i < j < keys.len() implies bytes_less(
        encode_utf8((#[trigger] keys[i])@),
        encode_utf8((#[trigger] keys[j])@),
    ) by {
        assert(bytes_less(encode_utf8(found[i]), encode_utf8(found[j])));
    }
}

/// A call of [`ShardedKV::mget_at`]: value `i` is what [`ShardedKV::get_at`] of key `i` would have
/// given. The entries of these keys whose timestamps have been reached are removed, and nothing else
/// changes.
pub proof fn law_call_mget(
    store: &mut ShardedKV,
    keys: &[String],
    now: u64,
    values: Vec<Option<Vec<u8>>>,
    i: int,
    getting: &mut ShardedKV,
    key: &str,
    got: Option<Vec<u8>>,
    k: Seq<char>,
)
    requires
        call_ensures(ShardedKV::mget_at, (store, keys, now), values),
        call_ensures(ShardedKV::get_at, (getting, key, now), got),
        0 <= i < keys@.len(),
        key@ == keys@[i]@,
    ensures
        values@.len() == keys@.len(),
        *old(store) == *old(getting) ==> {
            &&& values@[i] is Some == got is Some
            &&& got is Some ==> values@[i]->0@ == got->0@
        },
        ({
            let (was, is) = (old(store)@, final(store)@);
            let over = match was.entries[k].expires_at {
                Some(at) => at <= now,
                None => false,
            };
            let asked = exists|j: int| 0 <= j < keys@.len() && (#[trigger] keys@[j])@ == k;
            &&& is.max_entries == was.max_entries
            &&& is.entries.contains_key(k) == (was.entries.contains_key(k) && !(over && asked))
            &&& is.entries.contains_key(k) ==> is.entries[k] == was.entries[k]
        }),
{
    let was = old(store)@;
    law_views(keys@, values@, seq![], i);
    let texts = key_views(keys@);
    assert(value_views(values@).len() == values@.len());
    assert(value_views(values@)[i] == was.value_at(texts[i], now));
    law_removes_expired(was, texts, k, k, now);
    if exists|j: int| 0 <= j < keys@.len() && (#[trigger] keys@[j])@ == k {
        let j = choose|j: int| 0 <= j < keys@.len() && (#[trigger] keys@[j])@ == k;
        law_views(keys@, values@, seq![], j);
        assert(texts[j] == k);
    }
    if exists|j: int| 0 <= j < texts.len() && texts[j] == k {
        let j = choose|j: int| 0 <= j < texts.len() && texts[j] == k;
        law_views(keys@, values@, seq![], j);
        assert(keys@[j]@ == k);
    }
}

/// Calls of [`ShardedKV::sweep_expired_at`], [`ShardedKV::load_entry`] and
/// [`ShardedKV::with_max_entries`]: a sweep removes all entries whose timestamps have been reached and
/// nothing else, loading puts an entry under its key whatever the bound, and a new store has the bound
/// that it was given and no entries.
pub proof fn law_call_others(
    sweeping: &mut ShardedKV,
    now: u64,
    removed: usize,
    loading: &mut ShardedKV,
    key: String,
    value: Vec<u8>,
    expires_at: Option<u64>,
    max_entries: usize,
    new: ShardedKV,
    k: Seq<char>,
)
    requires
        call_ensures(ShardedKV::sweep_expired_at, (sweeping, now), removed),
        call_ensures(ShardedKV::load_entry, (loading, key, value, expires_at), ()),
        call_ensures(ShardedKV::with_max_entries, (max_entries,), new),
    ensures
        ({
            let (was, is) = (old(sweeping)@, final(sweeping)@);
            let over = match was.entries[k].expires_at {
                Some(at) => at <= now,
                None => false,
            };
            &&& is.max_entries == was.max_entries
            &&& is.entries.contains_key(k) == (was.entries.contains_key(k) && !over)
            &&& is.entries.contains_key(k) ==> is.entries[k] == was.entries[k]
        }),
        final(loading)@.entries == old(loading)@.entries.insert(
            key@,
            EntryView { value: value@, expires_at },
        ),
        final(loading)@.max_entries == old(loading)@.max_entries,
        !new@.entries.contains_key(k),
        new@.max_entries == max_entries,
{
    law_removes_expired(old(sweeping)@, seq![], k, k, now);
}

/// Calls of [`ShardedKV::sweep_expired_at`], [`ShardedKV::len`], [`ShardedKV::len_active_at`] and
/// [`ShardedKV::is_empty`] at one time: as many entries are removed as there are less the live ones,
/// and after that all are live.
pub proof fn law_call_counts(
    sweeping: &mut ShardedKV,
    now: u64,
    removed: usize,
    left: &ShardedKV,
    all: u64,
    live: u64,
    rest: u64,
    empty: bool,
)
    requires
        old(sweeping).wf(),
        call_ensures(ShardedKV::sweep_expired_at, (sweeping, now), removed),
        call_ensures(ShardedKV::len, (&*old(sweeping),), all),
        call_ensures(ShardedKV::len_active_at, (&*old(sweeping), now), live),
        call_ensures(ShardedKV::len, (left,), rest),
        call_ensures(ShardedKV::is_empty, (left,), empty),
    ensures
        all == old(sweeping)@.entries.dom().len(),
        all == live + removed,
        *final(sweeping) == *left ==> rest == live,
        empty == (rest == 0),
{
    let was = old(sweeping)@;
    old(sweeping).lemma_finite();
    let (a, b) = (was.live_keys(now), was.stale_keys(now));
    assert(a.disjoint(b));
    assert(a + b =~= was.entries.dom());
    vstd::set_lib::lemma_set_disjoint_lens(a, b);
    assert(was.purged(now).entries.dom() =~= a);
}

} // verus!
