//! Which places of a list a rule picks.

use vstd::prelude::*;

verus! {

/// Whether `places` are the places below `n` that a rule picks: all of them,
/// none other, and in order.
pub open spec fn selects(places: Seq<int>, n: nat, rule: spec_fn(int) -> bool) -> bool {
    &&& forall|j: int| 0 <= j < places.len() ==> 0 <= #[trigger] places[j] < n && rule(places[j])
    &&& forall|i: int, j: int|
        0 <= i < j < places.len() ==> #[trigger] places[i] < #[trigger] places[j]
    &&& forall|p: int| 0 <= p < n && #[trigger] rule(p) ==> places.contains(p)
}

/// The places below one more.
pub proof fn lemma_next(places: Seq<int>, n: nat, rule: spec_fn(int) -> bool)
    requires
        selects(places, n, rule),
    ensures
        rule(n as int) ==> selects(places.push(n as int), n + 1, rule),
        !rule(n as int) ==> selects(places, n + 1, rule),
{
    if rule(n as int) {
        let more = places.push(n as int);
        assert forall|p: int| 0 <= p < n + 1 && #[trigger] rule(p) implies more.contains(p) by {
            if p < n {
                assert(places.contains(p));
                let j = choose|j: int| 0 <= j < places.len() && places[j] == p;
                assert(more[j] == p);
            } else {
                assert(more[places.len() as int] == p);
            }
        }
    }
}

pub proof fn lemma_none(rule: spec_fn(int) -> bool)
    ensures
        selects(Seq::empty(), 0, rule),
{
}

} // verus!
