//! The order in which a text is edited at several places: from the back.
//!
//! An edit moves what stands behind it, so editing from the back leaves the places that are still
//! to come where they were.

use vstd::prelude::*;

verus! {

/// Where `key` goes in an order of the positions of `keys` from the back: before the first
/// position whose key is not greater.
pub open spec fn place_from_back(keys: Seq<int>, order: Seq<int>, key: int, from: int) -> int
    decreases order.len() - from,
{
    if 0 <= from < order.len() && keys[order[from]] > key {
        place_from_back(keys, order, key, from + 1)
    } else {
        from
    }
}

/// The first `n` positions of `keys`, greatest key first; of equal keys the later one first.
pub open spec fn order_from_back(keys: Seq<int>, n: int) -> Seq<int>
    decreases n,
{
    if n <= 0 {
        Seq::empty()
    } else {
        let before = order_from_back(keys, n - 1);
        before.insert(place_from_back(keys, before, keys[n - 1], 0), n - 1)
    }
}

/// The positions of `keys`, greatest key first; of equal keys the later one first.
pub open spec fn from_back(keys: Seq<int>) -> Seq<int> {
    order_from_back(keys, keys.len() as int)
}

/// Whether the position `a` comes before the position `b` in the order from the back.
pub open spec fn sooner(keys: Seq<int>, a: int, b: int) -> bool {
    keys[a] > keys[b] || (keys[a] == keys[b] && a > b)
}

/// Whether `order` lists the first `n` positions of `keys`, each once, sooner ones first.
pub open spec fn is_order_from_back(keys: Seq<int>, n: int, order: Seq<int>) -> bool {
    &&& order.len() == n
    &&& forall|i: int| 0 <= i < n ==> 0 <= #[trigger] order[i] < n
    &&& forall|i: int, j: int|
        0 <= i < j < n ==> sooner(keys, #[trigger] order[i], #[trigger] order[j])
    &&& forall|p: int| 0 <= p < n ==> #[trigger] order.contains(p)
}

proof fn lemma_place_from_back(keys: Seq<int>, order: Seq<int>, key: int, from: int)
    requires
        0 <= from <= order.len(),
    ensures
        from <= place_from_back(keys, order, key, from) <= order.len(),
        forall|i: int|
            from <= i < place_from_back(keys, order, key, from) ==> keys[#[trigger] order[i]] > key,
        place_from_back(keys, order, key, from) < order.len()
            ==> keys[order[place_from_back(keys, order, key, from)]] <= key,
    decreases order.len() - from,
{
    if from < order.len() && keys[order[from]] > key {
        lemma_place_from_back(keys, order, key, from + 1);
    }
}

proof fn lemma_order_from_back(keys: Seq<int>, n: int)
    requires
        0 <= n <= keys.len(),
    ensures
        is_order_from_back(keys, n, order_from_back(keys, n)),
    decreases n,
{
    if n > 0 {
        let before = order_from_back(keys, n - 1);
        let key = keys[n - 1];
        lemma_order_from_back(keys, n - 1);
        lemma_place_from_back(keys, before, key, 0);
        let p = place_from_back(keys, before, key, 0);
        let order = order_from_back(keys, n);
        assert(order[p] == n - 1);
        assert forall|i: int, j: int| 0 <= i < j < n implies sooner(
            keys,
            #[trigger] order[i],
            #[trigger] order[j],
        ) by {
            let bi = if i < p {
                i
            } else {
                i - 1
            };
            let bj = if j < p {
                j
            } else {
                j - 1
            };
            if i != p && j != p {
                assert(sooner(keys, before[bi], before[bj]));
            } else if i == p {
                assert(order[j] == before[j - 1]);
                if p < j - 1 {
                    assert(sooner(keys, before[p], before[j - 1]));
                }
            } else {
                assert(order[i] == before[i]);
            }
        }
        assert forall|q: int| 0 <= q < n implies #[trigger] order.contains(q) by {
            if q < n - 1 {
                assert(before.contains(q));
                let k = choose|k: int| 0 <= k < before.len() && before[k] == q;
                assert(order[if k < p {
                    k
                } else {
                    k + 1
                }] == q);
            }
        }
    }
}

/// `from_back` lists every position once, greatest key first, of equal keys the later one first.
pub proof fn law_from_back(keys: Seq<int>)
    ensures
        is_order_from_back(keys, keys.len() as int, from_back(keys)),
{
    lemma_order_from_back(keys, keys.len() as int);
}

/// In the order from the back no key comes before a greater one, and of equal keys the later one
/// comes first. Every position is in it, and none twice.
pub proof fn law_from_back_sorted(keys: Seq<int>, i: int, j: int)
    requires
        0 <= i < j < keys.len(),
    ensures
        ({
            let order = from_back(keys);
            &&& order.len() == keys.len()
            &&& keys[order[i]] >= keys[order[j]]
            &&& keys[order[i]] == keys[order[j]] ==> order[i] > order[j]
            &&& order[i] != order[j]
            &&& forall|p: int| 0 <= p < keys.len() <==> #[trigger] order.contains(p)
        }),
{
    let order = from_back(keys);
    law_from_back(keys);
    assert(sooner(keys, order[i], order[j]));
    assert forall|p: int| #[trigger] order.contains(p) implies 0 <= p < keys.len() by {
        let k = choose|k: int| 0 <= k < order.len() && order[k] == p;
        assert(0 <= order[k] < keys.len());
    }
}

/// No other list of the positions does.
pub proof fn law_from_back_unique(keys: Seq<int>, order: Seq<int>)
    requires
        is_order_from_back(keys, keys.len() as int, order),
    ensures
        order == from_back(keys),
{
    law_from_back(keys);
    lemma_same_order(keys, order, from_back(keys), keys.len() as int);
    assert(order.take(keys.len() as int) == order);
    assert(from_back(keys).take(keys.len() as int) == from_back(keys));
}

proof fn lemma_same_order(keys: Seq<int>, a: Seq<int>, b: Seq<int>, n: int)
    requires
        is_order_from_back(keys, keys.len() as int, a),
        is_order_from_back(keys, keys.len() as int, b),
        0 <= n <= keys.len(),
    ensures
        a.take(n) == b.take(n),
    decreases n,
{
    if n > 0 {
        lemma_same_order(keys, a, b, n - 1);
        let i = n - 1;
        assert forall|k: int| 0 <= k < i implies a[k] == b[k] by {
            assert(a.take(i)[k] == b.take(i)[k]);
        }
        assert(b.contains(a[i]));
        assert(a.contains(b[i]));
        let k = choose|k: int| 0 <= k < b.len() && b[k] == a[i];
        let m = choose|m: int| 0 <= m < a.len() && a[m] == b[i];
        if k < i {
            assert(sooner(keys, a[k], a[i]));
        }
        if m < i {
            assert(sooner(keys, b[m], b[i]));
        }
        if a[i] != b[i] {
            assert(sooner(keys, a[i], a[m]));
            assert(sooner(keys, b[i], b[k]));
        }
    }
}

/// How many keys are greater than the one at `p`.
pub open spec fn rank(keys: Seq<int>, p: int) -> nat {
    Set::new(|q: int| 0 <= q < keys.len() && keys[q] > keys[p]).len()
}

/// Where no two keys are equal, the place of a position in the order from the back is the number
/// of keys greater than its own.
pub proof fn law_place_is_rank(keys: Seq<int>, i: int)
    requires
        keys.no_duplicates(),
        0 <= i < keys.len(),
    ensures
        rank(keys, from_back(keys)[i]) == i,
{
    let order = from_back(keys);
    law_from_back(keys);
    let sooner_ones = order.take(i);
    assert forall|a: int, b: int| 0 <= a < b < i implies sooner_ones[a] != sooner_ones[b] by {
        assert(sooner(keys, order[a], order[b]));
    }
    sooner_ones.unique_seq_to_set();
    let greater = Set::new(|q: int| 0 <= q < keys.len() && keys[q] > keys[order[i]]);
    assert forall|q: int| greater.contains(q) == sooner_ones.to_set().contains(q) by {
        if sooner_ones.contains(q) {
            let a = choose|a: int| 0 <= a < i && sooner_ones[a] == q;
            assert(sooner(keys, order[a], order[i]));
            assert(keys[order[a]] != keys[order[i]]);
        }
        if greater.contains(q) {
            assert(order.contains(q));
            let a = choose|a: int| 0 <= a < order.len() && order[a] == q;
            if a > i {
                assert(sooner(keys, order[i], order[a]));
            }
            assert(sooner_ones[a] == q);
        }
    }
    assert(greater =~= sooner_ones.to_set());
}

proof fn lemma_same_keys(keys: Seq<int>, n: int)
    requires
        0 <= n <= keys.len(),
    ensures
        order_from_back(keys, n).map_values(|p: int| keys[p]).to_multiset() == keys.take(
            n,
        ).to_multiset(),
    decreases n,
{
    broadcast use vstd::seq_lib::group_to_multiset_ensures;

    let key_of = |p: int| keys[p];
    if n > 0 {
        lemma_same_keys(keys, n - 1);
        lemma_order_from_back(keys, n - 1);
        let before = order_from_back(keys, n - 1);
        let p = place_from_back(keys, before, keys[n - 1], 0);
        lemma_place_from_back(keys, before, keys[n - 1], 0);
        assert(order_from_back(keys, n).map_values(key_of) =~= before.map_values(key_of).insert(
            p,
            keys[n - 1],
        ));
        vstd::seq_lib::to_multiset_insert(before.map_values(key_of), p, keys[n - 1]);
        assert(keys.take(n) =~= keys.take(n - 1).push(keys[n - 1]));
    } else {
        assert(order_from_back(keys, n).map_values(key_of) =~= keys.take(0));
    }
}

/// The keys in the order from the back are the keys, each as often as before.
pub proof fn law_same_keys(keys: Seq<int>)
    ensures
        Seq::new(keys.len(), |k: int| keys[from_back(keys)[k]]).to_multiset() == keys.to_multiset(),
{
    lemma_same_keys(keys, keys.len() as int);
    law_from_back(keys);
    assert(keys.take(keys.len() as int) =~= keys);
    assert(from_back(keys).map_values(|p: int| keys[p]) =~= Seq::new(
        keys.len(),
        |k: int| keys[from_back(keys)[k]],
    ));
}

/// Machine integers as mathematical ones.
pub open spec fn as_ints(s: Seq<usize>) -> Seq<int> {
    s.map_values(|x: usize| x as int)
}

/// Lists the positions of `keys`, greatest key first; of equal keys the later one first.
pub fn back_to_front(keys: &Vec<usize>) -> (order: Vec<usize>)
    ensures
        as_ints(order@) == from_back(as_ints(keys@)),
{
    let ghost ks = as_ints(keys@);
    let mut order: Vec<usize> = Vec::new();
    assert(as_ints(order@) == order_from_back(ks, 0));
    let mut n: usize = 0;
    while n < keys.len()
        invariant
            n <= keys.len(),
            ks == as_ints(keys@),
            as_ints(order@) == order_from_back(ks, n as int),
        decreases keys.len() - n,
    {
        proof {
            lemma_order_from_back(ks, n as int);
            lemma_place_from_back(ks, as_ints(order@), ks[n as int], 0);
            assert forall|i: int| 0 <= i < order@.len() implies (#[trigger] order@[i]) < n by {
                assert(as_ints(order@)[i] == order@[i]);
            }
        }
        let mut p: usize = 0;
        while p < order.len() && keys[order[p]] > keys[n]
            invariant
                n < keys.len(),
                p <= order.len(),
                ks == as_ints(keys@),
                forall|i: int| 0 <= i < order@.len() ==> (#[trigger] order@[i]) < n,
                place_from_back(ks, as_ints(order@), ks[n as int], p as int) == place_from_back(
                    ks,
                    as_ints(order@),
                    ks[n as int],
                    0,
                ),
            decreases order.len() - p,
        {
            p = p + 1;
        }
        let ghost before = order@;
        order.insert(p, n);
        assert(as_ints(order@) == as_ints(before).insert(p as int, n as int));
        n = n + 1;
    }
    order
}

} // verus!
