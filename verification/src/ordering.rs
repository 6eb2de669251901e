//! Stable orders, as lists of places.

use vstd::prelude::*;

use crate::single::Single;

verus! {

/// Whether place `a` comes before place `b` when the largest key comes first
/// and equal keys keep their places.
pub open spec fn ranks_before(keys: Seq<Single>, a: int, b: int) -> bool {
    keys[a].key() > keys[b].key() || (keys[a].key() == keys[b].key() && a < b)
}

/// Whether `order` lists every place of `keys` once, each before those that it
/// ranks before.
pub open spec fn is_ranking(keys: Seq<Single>, order: Seq<usize>) -> bool {
    &&& order.len() == keys.len()
    &&& forall|i: int| 0 <= i < order.len() ==> (#[trigger] order[i]) < keys.len()
    &&& forall|i: int, j: int|
        0 <= i < j < order.len() ==> ranks_before(
            keys,
            #[trigger] order[i] as int,
            #[trigger] order[j] as int,
        )
}

/// The places of `keys`, largest key first, equal keys in their given order.
pub fn rank_descending(keys: &Vec<Single>) -> (order: Vec<usize>)
    ensures
        is_ranking(keys@, order@),
        order@ == ranking(keys@),
{
    let mut order: Vec<usize> = Vec::new();
    let mut n: usize = 0;
    while n < keys.len()
        invariant
            n <= keys.len(),
            order.len() == n,
            forall|i: int| 0 <= i < order.len() ==> (#[trigger] order@[i]) < n,
            forall|i: int, j: int|
                0 <= i < j < order.len() ==> ranks_before(
                    keys@,
                    #[trigger] order@[i] as int,
                    #[trigger] order@[j] as int,
                ),
        decreases keys.len() - n,
    {
        let mut at: usize = order.len();
        while at > 0 && keys[order[at - 1]].place() < keys[n].place()
            invariant
                n < keys.len(),
                order.len() == n,
                at <= order.len(),
                forall|i: int| 0 <= i < order.len() ==> (#[trigger] order@[i]) < n,
                forall|i: int|
                    at <= i < order.len() ==> keys@[(#[trigger] order@[i]) as int].key()
                        < keys@[n as int].key(),
            decreases at,
        {
            at = at - 1;
        }
        let ghost before = order@;
        proof {
            assert forall|i: int| 0 <= i < at implies ranks_before(
                keys@,
                (#[trigger] before[i]) as int,
                n as int,
            ) by {
                if i < at - 1 {
                    assert(ranks_before(keys@, before[i] as int, before[at - 1] as int));
                }
            }
        }
        order.insert(at, n);
        n = n + 1;
    }
    proof {
        lemma_ranking_is(keys@, order@);
    }
    order
}

/// A ranking lists no place twice.
pub proof fn a_ranking_repeats_nothing(keys: Seq<Single>, order: Seq<usize>)
    requires
        is_ranking(keys, order),
    ensures
        order.no_duplicates(),
{
    assert forall|i: int, j: int| 0 <= i < order.len() && 0 <= j < order.len() && i != j implies order[i]
        != order[j] by {
        if i < j {
            assert(ranks_before(keys, order[i] as int, order[j] as int));
        } else {
            assert(ranks_before(keys, order[j] as int, order[i] as int));
        }
    }
}

/// A ranking leaves no place out.
pub proof fn a_ranking_is_complete(keys: Seq<Single>, order: Seq<usize>, place: int)
    requires
        is_ranking(keys, order),
        0 <= place < keys.len(),
    ensures
        exists|i: int| 0 <= i < order.len() && #[trigger] order[i] == place,
{
    a_ranking_repeats_nothing(keys, order);
    let ints = order.map_values(|u: usize| u as int);
    assert(ints.no_duplicates());
    ints.unique_seq_to_set();
    vstd::seq_lib::seq_to_set_is_finite(ints);
    let all = vstd::set_lib::set_int_range(0, keys.len() as int);
    vstd::set_lib::lemma_int_range(0, keys.len() as int);
    assert(ints.to_set().subset_of(all)) by {
        assert forall|x: int| ints.to_set().contains(x) implies all.contains(x) by {
            let i = choose|i: int| 0 <= i < ints.len() && ints[i] == x;
            assert(order[i] < keys.len());
        }
    }
    vstd::set_lib::lemma_subset_equality(ints.to_set(), all);
    assert(ints.to_set().contains(place));
    let i = choose|i: int| 0 <= i < ints.len() && ints[i] == place;
    assert(order[i] == place);
}

/// There is one ranking only.
pub proof fn a_ranking_is_unique(keys: Seq<Single>, a: Seq<usize>, b: Seq<usize>)
    requires
        is_ranking(keys, a),
        is_ranking(keys, b),
    ensures
        a == b,
{
    assert forall|i: int| 0 <= i < a.len() implies a[i] == b[i] by {
        lemma_rankings_agree(keys, a, b, i);
    }
    assert(a =~= b);
}

proof fn lemma_rankings_agree(keys: Seq<Single>, a: Seq<usize>, b: Seq<usize>, i: int)
    requires
        is_ranking(keys, a),
        is_ranking(keys, b),
        0 <= i < a.len(),
    ensures
        forall|j: int| 0 <= j <= i ==> a[j] == b[j],
    decreases i,
{
    if i > 0 {
        lemma_rankings_agree(keys, a, b, i - 1);
    }
    if a[i] != b[i] {
        a_ranking_is_complete(keys, b, a[i] as int);
        a_ranking_is_complete(keys, a, b[i] as int);
        let p = choose|p: int| 0 <= p < b.len() && #[trigger] b[p] == a[i] as int;
        let q = choose|q: int| 0 <= q < a.len() && #[trigger] a[q] == b[i] as int;
        a_ranking_repeats_nothing(keys, a);
        a_ranking_repeats_nothing(keys, b);
        assert(p > i) by {
            if p < i {
                assert(a[p] == b[p]);
            }
        }
        assert(q > i) by {
            if q < i {
                assert(a[q] == b[q]);
            }
        }
        assert(ranks_before(keys, b[i] as int, b[p] as int));
        assert(ranks_before(keys, a[i] as int, a[q] as int));
    }
}

/// The ranking of a list of keys.
pub open spec fn ranking(keys: Seq<Single>) -> Seq<usize> {
    choose|order: Seq<usize>| is_ranking(keys, order)
}

proof fn lemma_ranking_is(keys: Seq<Single>, order: Seq<usize>)
    requires
        is_ranking(keys, order),
    ensures
        ranking(keys) == order,
{
    a_ranking_is_unique(keys, ranking(keys), order);
}

/// Whether `order` ranks the first `n` places of `keys`.
spec fn ranks_first(keys: Seq<Single>, order: Seq<usize>, n: nat) -> bool {
    &&& order.len() == n
    &&& forall|i: int| 0 <= i < order.len() ==> (#[trigger] order[i]) < n
    &&& forall|i: int, j: int|
        0 <= i < j < order.len() ==> ranks_before(
            keys,
            #[trigger] order[i] as int,
            #[trigger] order[j] as int,
        )
}

/// Where place `n` belongs among the first `at` of an order, the others of
/// which all come behind it.
proof fn lemma_place_among(keys: Seq<Single>, order: Seq<usize>, n: nat, at: int) -> (place: int)
    requires
        n < keys.len(),
        ranks_first(keys, order, n),
        0 <= at <= order.len(),
        forall|i: int|
            at <= i < order.len() ==> keys[(#[trigger] order[i]) as int].key() < keys[n as int].key(),
    ensures
        0 <= place <= order.len(),
        forall|i: int|
            place <= i < order.len() ==> ranks_before(
                keys,
                n as int,
                (#[trigger] order[i]) as int,
            ),
        forall|i: int|
            0 <= i < place ==> ranks_before(keys, (#[trigger] order[i]) as int, n as int),
    decreases at,
{
    if at > 0 && keys[order[at - 1] as int].key() < keys[n as int].key() {
        lemma_place_among(keys, order, n, at - 1)
    } else {
        assert forall|i: int| 0 <= i < at implies ranks_before(
            keys,
            (#[trigger] order[i]) as int,
            n as int,
        ) by {
            if i < at - 1 {
                assert(ranks_before(keys, order[i] as int, order[at - 1] as int));
            }
        }
        at
    }
}

proof fn lemma_first_ranked(keys: Seq<Single>, n: nat) -> (order: Seq<usize>)
    requires
        n <= keys.len() <= usize::MAX,
    ensures
        ranks_first(keys, order, n),
    decreases n,
{
    if n == 0 {
        Seq::empty()
    } else {
        let m = (n - 1) as nat;
        let before = lemma_first_ranked(keys, m);
        let at = lemma_place_among(keys, before, m, before.len() as int);
        before.insert(at, m as usize)
    }
}

/// Every list that fits in memory has a ranking: what is said to be ordered by
/// the ranking is ordered, complete and without repetition.
pub proof fn a_list_has_a_ranking(keys: Seq<Single>)
    requires
        keys.len() <= usize::MAX,
    ensures
        is_ranking(keys, ranking(keys)),
{
    let order = lemma_first_ranked(keys, keys.len());
    assert(is_ranking(keys, order));
}

/// The first of a ranking are the best: each has a larger key than those behind
/// it, or the same key and an earlier place, and so it is with every place that
/// is not among them.
pub proof fn the_first_of_a_ranking_are_the_best(keys: Seq<Single>, n: int)
    requires
        keys.len() <= usize::MAX,
        0 <= n <= keys.len(),
    ensures
        ({
            let order = ranking(keys);
            &&& order.len() == keys.len()
            &&& forall|i: int| 0 <= i < order.len() ==> (#[trigger] order[i]) < keys.len()
            &&& forall|i: int, j: int|
                0 <= i < j < order.len() ==> keys[(#[trigger] order[i]) as int].key() > keys[(
                #[trigger] order[j]) as int].key() || (keys[order[i] as int].key()
                    == keys[order[j] as int].key() && order[i] < order[j])
            &&& forall|p: int, k: int|
                #![trigger keys[p], order[k]]
                0 <= p < keys.len() && 0 <= k < n && !(exists|m: int|
                    0 <= m < n && #[trigger] order[m] == p) ==> keys[order[k] as int].key()
                    > keys[p].key() || (keys[order[k] as int].key() == keys[p].key() && order[k]
                    < p)
        }),
{
    a_list_has_a_ranking(keys);
    let order = ranking(keys);
    assert forall|i: int, j: int| 0 <= i < j < order.len() implies keys[(
    #[trigger] order[i]) as int].key() > keys[(#[trigger] order[j]) as int].key() || (
    keys[order[i] as int].key() == keys[order[j] as int].key() && order[i] < order[j]) by {
        assert(ranks_before(keys, order[i] as int, order[j] as int));
    }
    assert forall|p: int, k: int|
        #![trigger keys[p], order[k]]
        0 <= p < keys.len() && 0 <= k < n && !(exists|m: int|
            0 <= m < n && #[trigger] order[m] == p) implies keys[order[k] as int].key()
        > keys[p].key() || (keys[order[k] as int].key() == keys[p].key() && order[k] < p) by {
        a_ranking_is_complete(keys, order, p);
        let q = choose|q: int| 0 <= q < order.len() && #[trigger] order[q] == p;
        assert(q >= n);
        assert(ranks_before(keys, order[k] as int, order[q] as int));
    }
}

} // verus!
