//! Sorting keys.
use crate::text::{key_is_less, key_less, lemma_key_less_total, lemma_key_less_transitive};
use vstd::multiset::Multiset;
use vstd::prelude::*;
use vstd::seq_lib::group_to_multiset_ensures;

verus! {

/// The texts of a sequence of keys.
pub open spec fn key_views(keys: Seq<String>) -> Seq<Seq<char>> {
    keys.map_values(|k: String| k@)
}

/// Whether `a` may stand before `b`: in ascending order where `up`, else in descending order.
spec fn may_precede(a: Seq<char>, b: Seq<char>, up: bool) -> bool {
    if up {
        !key_less(b, a)
    } else {
        !key_less(a, b)
    }
}

spec fn ordered(s: Seq<Seq<char>>, up: bool) -> bool {
    forall|i: int, j: int| 0 <= i < j < s.len() ==> may_precede(#[trigger] s[i], #[trigger] s[j], up)
}

/// Whether no key comes before the one that it follows.
pub open spec fn ascending(s: Seq<Seq<char>>) -> bool {
    forall|i: int, j: int| 0 <= i < j < s.len() ==> !key_less(#[trigger] s[j], #[trigger] s[i])
}

proof fn lemma_may_precede(a: Seq<char>, b: Seq<char>, c: Seq<char>, up: bool)
    ensures
        may_precede(a, b, up) && may_precede(b, c, up) ==> may_precede(a, c, up),
        may_precede(a, b, up) || may_precede(b, a, up),
{
    lemma_key_less_total(a, b);
    lemma_key_less_total(b, c);
    lemma_key_less_total(a, c);
    if key_less(a, b) && key_less(b, c) {
        lemma_key_less_transitive(a, b, c);
    }
    if key_less(c, b) && key_less(b, a) {
        lemma_key_less_transitive(c, b, a);
    }
}

/// Moving the last key of one sequence to the end of another moves it between their multisets.
proof fn lemma_move_last(from: Seq<Seq<char>>, to: Seq<Seq<char>>, rest: Multiset<Seq<char>>)
    requires
        from.len() > 0,
    ensures
        to.push(from.last()).to_multiset().add(from.drop_last().to_multiset()).add(rest)
            == to.to_multiset().add(from.to_multiset()).add(rest),
{
    broadcast use group_to_multiset_ensures;

    assert(from =~= from.drop_last().push(from.last()));
    assert(to.push(from.last()).to_multiset().add(from.drop_last().to_multiset()).add(rest)
        =~= to.to_multiset().add(from.to_multiset()).add(rest));
}

/// Merges two runs, each sorted the other way round, by taking from their ends.
fn merge(left: Vec<String>, right: Vec<String>, up: bool) -> (out: Vec<String>)
    requires
        ordered(key_views(left@), !up),
        ordered(key_views(right@), !up),
    ensures
        ordered(key_views(out@), up),
        key_views(out@).to_multiset() == key_views(left@).to_multiset().add(
            key_views(right@).to_multiset(),
        ),
{
    broadcast use group_to_multiset_ensures;

    let ghost total = key_views(left@).to_multiset().add(key_views(right@).to_multiset());
    let mut left = left;
    let mut right = right;
    let mut out: Vec<String> = Vec::new();
    assert(key_views(out@).to_multiset() =~= Multiset::empty());
    assert(key_views(out@).to_multiset().add(key_views(left@).to_multiset()).add(
        key_views(right@).to_multiset(),
    ) =~= total);
    while left.len() > 0 || right.len() > 0
        invariant
            ordered(key_views(left@), !up),
            ordered(key_views(right@), !up),
            ordered(key_views(out@), up),
            forall|i: int, j: int|
                0 <= i < out@.len() && 0 <= j < left@.len() ==> may_precede(
                    #[trigger] key_views(out@)[i],
                    #[trigger] key_views(left@)[j],
                    up,
                ),
            forall|i: int, j: int|
                0 <= i < out@.len() && 0 <= j < right@.len() ==> may_precede(
                    #[trigger] key_views(out@)[i],
                    #[trigger] key_views(right@)[j],
                    up,
                ),
            key_views(out@).to_multiset().add(key_views(left@).to_multiset()).add(
                key_views(right@).to_multiset(),
            ) == total,
        decreases left@.len() + right@.len(),
    {
        let ghost l0 = key_views(left@);
        let ghost r0 = key_views(right@);
        let ghost o0 = key_views(out@);
        let take_left = if right.len() == 0 {
            true
        } else if left.len() == 0 {
            false
        } else {
            let a = left[left.len() - 1].as_str();
            let b = right[right.len() - 1].as_str();
            if up {
                !key_is_less(b, a)
            } else {
                !key_is_less(a, b)
            }
        };
        if take_left {
            proof {
                let p = l0.last();
                assert forall|j: int| 0 <= j < l0.len() implies may_precede(
                    p,
                    #[trigger] l0[j],
                    up,
                ) by {
                    lemma_may_precede(p, p, p, up);
                }
                assert forall|j: int| 0 <= j < r0.len() implies may_precede(
                    p,
                    #[trigger] r0[j],
                    up,
                ) by {
                    lemma_may_precede(r0.last(), r0.last(), r0.last(), up);
                    lemma_may_precede(p, r0.last(), r0[j], up);
                }
            }
            if let Some(key) = left.pop() {
                out.push(key);
            }
            proof {
                assert(key_views(left@) =~= l0.drop_last());
                assert(key_views(out@) =~= o0.push(l0.last()));
                lemma_move_last(l0, o0, r0.to_multiset());
            }
        } else {
            proof {
                let p = r0.last();
                assert forall|j: int| 0 <= j < r0.len() implies may_precede(
                    p,
                    #[trigger] r0[j],
                    up,
                ) by {
                    lemma_may_precede(p, p, p, up);
                }
                assert forall|j: int| 0 <= j < l0.len() implies may_precede(
                    p,
                    #[trigger] l0[j],
                    up,
                ) by {
                    lemma_may_precede(l0.last(), l0.last(), l0.last(), up);
                    lemma_may_precede(p, l0.last(), p, up);
                    lemma_may_precede(p, l0.last(), l0[j], up);
                }
            }
            if let Some(key) = right.pop() {
                out.push(key);
            }
            proof {
                assert(key_views(right@) =~= r0.drop_last());
                assert(key_views(out@) =~= o0.push(r0.last()));
                lemma_move_last(r0, o0, l0.to_multiset());
                assert(key_views(out@).to_multiset().add(key_views(left@).to_multiset()).add(
                    key_views(right@).to_multiset(),
                ) =~= key_views(out@).to_multiset().add(key_views(right@).to_multiset()).add(
                    l0.to_multiset(),
                ));
                assert(o0.to_multiset().add(r0.to_multiset()).add(l0.to_multiset())
                    =~= o0.to_multiset().add(l0.to_multiset()).add(r0.to_multiset()));
            }
        }
    }
    assert(key_views(left@).to_multiset() =~= Multiset::empty());
    assert(key_views(right@).to_multiset() =~= Multiset::empty());
    assert(key_views(out@).to_multiset() =~= total);
    out
}

fn sort_run(keys: Vec<String>, up: bool) -> (out: Vec<String>)
    ensures
        ordered(key_views(out@), up),
        key_views(out@).to_multiset() == key_views(keys@).to_multiset(),
    decreases keys@.len(),
{
    if keys.len() <= 1 {
        return keys;
    }
    let ghost all = key_views(keys@);
    let mut left = keys;
    let right = left.split_off(left.len() / 2);
    proof {
        assert(all =~= key_views(left@) + key_views(right@));
        vstd::seq_lib::lemma_multiset_commutative(key_views(left@), key_views(right@));
    }
    let left = sort_run(left, !up);
    let right = sort_run(right, !up);
    merge(left, right, up)
}

/// Sorts keys into ascending order.
pub fn sort_keys(keys: Vec<String>) -> (sorted: Vec<String>)
    ensures
        ascending(key_views(sorted@)),
        key_views(sorted@).to_multiset() == key_views(keys@).to_multiset(),
{
    let sorted = sort_run(keys, true);
    assert forall|i: int, j: int| 0 <= i < j < sorted@.len() implies !key_less(
        #[trigger] key_views(sorted@)[j],
        #[trigger] key_views(sorted@)[i],
    ) by {
        assert(may_precede(key_views(sorted@)[i], key_views(sorted@)[j], true));
    }
    sorted
}

} // verus!
