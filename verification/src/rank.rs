//! Ranking: the stable, descending order of a sequence of keys.
//!
//! A ranking lists the positions of the keys, the position of the largest key
//! first; positions whose keys are equal stay in the order they stand in.

use vstd::prelude::*;

verus! {

/// Position `a` comes before position `b`: its key is larger, or the keys are
/// equal and `a` is the earlier position.
pub open spec fn precedes(keys: Seq<int>, a: int, b: int) -> bool {
    keys[a] > keys[b] || (keys[a] == keys[b] && a < b)
}

/// `order` lists every position of `keys` exactly once, each before the
/// positions that it precedes.
pub open spec fn is_ranking(keys: Seq<int>, order: Seq<int>) -> bool {
    &&& order.len() == keys.len()
    &&& forall|i: int| 0 <= i < order.len() ==> 0 <= #[trigger] order[i] < keys.len()
    &&& forall|k: int| 0 <= k < keys.len() ==> order.contains(k)
    &&& forall|i: int, j: int|
        0 <= i < j < order.len() ==> precedes(keys, #[trigger] order[i], #[trigger] order[j])
}

/// The ranking of `keys`. There is exactly one: see [`lemma_ranking_exists`]
/// and [`lemma_ranking_unique`].
pub open spec fn ranking(keys: Seq<int>) -> Seq<int> {
    choose|order: Seq<int>| is_ranking(keys, order)
}

/// The keys of a vector as mathematical integers.
pub open spec fn key_values(keys: Seq<u64>) -> Seq<int> {
    keys.map_values(|k: u64| k as int)
}

/// The positions held by a vector as mathematical integers.
pub open spec fn positions(order: Seq<usize>) -> Seq<int> {
    order.map_values(|p: usize| p as int)
}

/// A ranking of all keys but the last becomes a ranking of all keys when the
/// last position is put behind the keys that are not smaller and before the
/// keys that are smaller.
pub proof fn lemma_extend_ranking(keys: Seq<int>, order: Seq<int>, place: int)
    requires
        keys.len() > 0,
        is_ranking(keys.drop_last(), order),
        0 <= place <= order.len(),
        forall|a: int| 0 <= a < place ==> keys[#[trigger] order[a]] >= keys.last(),
        forall|b: int| place <= b < order.len() ==> keys[#[trigger] order[b]] < keys.last(),
    ensures
        is_ranking(keys, order.insert(place, keys.len() - 1)),
{
    let newest = keys.len() - 1;
    let shorter = keys.drop_last();
    let next = order.insert(place, newest);
    order.insert_ensures(place, newest);
    assert forall|i: int| 0 <= i < next.len() implies 0 <= #[trigger] next[i] < keys.len() by {
        if i < place {
            assert(next[i] == order[i]);
        } else if i > place {
            assert(next[(i - 1) + 1] == order[i - 1]);
        }
    }
    assert forall|k: int| 0 <= k < keys.len() implies next.contains(k) by {
        if k == newest {
            assert(next[place] == k);
        } else {
            assert(order.contains(k));
            let i = choose|i: int| 0 <= i < order.len() && order[i] == k;
            if i < place {
                assert(next[i] == k);
            } else {
                assert(next[i + 1] == k);
            }
        }
    }
    assert forall|i: int, j: int| 0 <= i < j < next.len() implies precedes(
        keys,
        #[trigger] next[i],
        #[trigger] next[j],
    ) by {
        let a = if i < place { i } else { i - 1 };
        let b = if j < place { j } else { j - 1 };
        if i != place {
            assert(next[i] == order[a]);
            assert(shorter[order[a]] == keys[order[a]]);
        }
        if j != place {
            assert(next[j] == order[b]);
            assert(shorter[order[b]] == keys[order[b]]);
        }
        if i != place && j != place {
            assert(precedes(shorter, order[a], order[b]));
        }
    }
}

/// Finds where a new key goes in a ranking: behind the keys that are not
/// smaller, before those that are.
proof fn lemma_place(keys: Seq<int>, order: Seq<int>, key: int, bound: int) -> (place: int)
    requires
        is_ranking(keys, order),
        0 <= bound <= order.len(),
        forall|b: int| bound <= b < order.len() ==> keys[#[trigger] order[b]] < key,
    ensures
        0 <= place <= order.len(),
        forall|a: int| 0 <= a < place ==> keys[#[trigger] order[a]] >= key,
        forall|b: int| place <= b < order.len() ==> keys[#[trigger] order[b]] < key,
    decreases bound,
{
    if bound == 0 {
        0
    } else if keys[order[bound - 1]] >= key {
        assert forall|a: int| 0 <= a < bound implies keys[#[trigger] order[a]] >= key by {
            if a < bound - 1 {
                assert(precedes(keys, order[a], order[bound - 1]));
            }
        }
        bound
    } else {
        lemma_place(keys, order, key, bound - 1)
    }
}

/// Every sequence of keys has a ranking.
pub proof fn lemma_ranking_exists(keys: Seq<int>)
    ensures
        is_ranking(keys, ranking(keys)),
    decreases keys.len(),
{
    if keys.len() == 0 {
        assert(is_ranking(keys, Seq::<int>::empty()));
    } else {
        let shorter = keys.drop_last();
        lemma_ranking_exists(shorter);
        let order = ranking(shorter);
        let place = lemma_place(shorter, order, keys.last(), order.len() as int);
        assert forall|a: int| 0 <= a < order.len() implies shorter[#[trigger] order[a]]
            == keys[order[a]] by {}
        lemma_extend_ranking(keys, order, place);
    }
}

/// Two rankings of the same keys agree on their first `n` places.
proof fn lemma_rankings_agree(keys: Seq<int>, first: Seq<int>, second: Seq<int>, n: int)
    requires
        is_ranking(keys, first),
        is_ranking(keys, second),
        0 <= n <= keys.len(),
    ensures
        forall|i: int| 0 <= i < n ==> first[i] == second[i],
    decreases n,
{
    if n > 0 {
        lemma_rankings_agree(keys, first, second, n - 1);
        let i = n - 1;
        let a = first[i];
        let b = second[i];
        if a != b {
            if precedes(keys, a, b) {
                assert(second.contains(a));
                let j = choose|j: int| 0 <= j < second.len() && second[j] == a;
                if j < i {
                    assert(first[j] == a);
                    assert(precedes(keys, first[j], first[i]));
                } else if j > i {
                    assert(precedes(keys, second[i], second[j]));
                }
            } else {
                assert(first.contains(b));
                let j = choose|j: int| 0 <= j < first.len() && first[j] == b;
                if j < i {
                    assert(second[j] == b);
                    assert(precedes(keys, second[j], second[i]));
                } else if j > i {
                    assert(precedes(keys, first[i], first[j]));
                }
            }
        }
    }
}

/// A sequence of keys has only one ranking.
pub proof fn lemma_ranking_unique(keys: Seq<int>, first: Seq<int>, second: Seq<int>)
    requires
        is_ranking(keys, first),
        is_ranking(keys, second),
    ensures
        first == second,
{
    lemma_rankings_agree(keys, first, second, keys.len() as int);
    assert(first =~= second);
}

/// Where no key differs from another, the ranking keeps every position in
/// its place.
pub proof fn lemma_ranking_of_equal_keys(keys: Seq<int>)
    requires
        forall|i: int, j: int| 0 <= i < j < keys.len() ==> keys[i] == keys[j],
    ensures
        ranking(keys) == Seq::new(keys.len(), |i: int| i),
{
    let same = Seq::new(keys.len(), |i: int| i);
    assert forall|k: int| 0 <= k < keys.len() implies same.contains(k) by {
        assert(same[k] == k);
    }
    assert(is_ranking(keys, same));
    lemma_ranking_unique(keys, same, ranking(keys));
}

/// Ranks the keys: the positions of `keys`, largest key first, equal keys in
/// the order they stand in.
pub fn rank_keys(keys: &Vec<u64>) -> (order: Vec<usize>)
    ensures
        is_ranking(key_values(keys@), positions(order@)),
        positions(order@) == ranking(key_values(keys@)),
{
    let ghost all = key_values(keys@);
    let mut order: Vec<usize> = Vec::new();
    let mut next: usize = 0;
    assert(is_ranking(all.take(0), positions(order@)));
    while next < keys.len()
        invariant
            next <= keys.len(),
            all == key_values(keys@),
            is_ranking(all.take(next as int), positions(order@)),
        decreases keys.len() - next,
    {
        let key: u64 = keys[next];
        let ghost known = all.take(next as int);
        let ghost before = positions(order@);
        let mut place: usize = order.len();
        assert forall|i: int| 0 <= i < order.len() implies (#[trigger] order@[i]) < next by {
            assert(0 <= before[i] < known.len());
        }
        while place > 0 && keys[order[place - 1]] < key
            invariant
                place <= order.len(),
                forall|i: int| 0 <= i < order.len() ==> (#[trigger] order@[i]) < next,
                order.len() == next,
                next < keys.len(),
                all == key_values(keys@),
                known == all.take(next as int),
                before == positions(order@),
                is_ranking(known, before),
                forall|b: int| place <= b < order.len() ==> known[#[trigger] before[b]] < key,
            decreases place,
        {
            assert(0 <= before[place - 1] < known.len());
            place -= 1;
        }
        proof {
            let longer = all.take(next + 1);
            assert(longer.drop_last() =~= known);
            assert(longer.last() == key);
            assert forall|a: int| 0 <= a < place implies longer[#[trigger] before[a]] >= key by {
                assert(0 <= before[place - 1] < known.len());
                if a < place - 1 {
                    assert(precedes(known, before[a], before[place - 1]));
                }
            }
            assert forall|b: int| place <= b < before.len() implies longer[#[trigger] before[b]]
                < key by {
                assert(known[before[b]] < key);
            }
            lemma_extend_ranking(longer, before, place as int);
        }
        order.insert(place, next);
        assert(positions(order@) =~= before.insert(place as int, next as int));
        next += 1;
    }
    proof {
        assert(all.take(next as int) =~= all);
        lemma_ranking_exists(all);
        lemma_ranking_unique(all, positions(order@), ranking(all));
    }
    order
}

} // verus!
