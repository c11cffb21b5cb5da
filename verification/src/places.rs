//! Places in a sequence that have a property, in rising order.

use vstd::prelude::*;

verus! {

/// Rising places that are exactly those with a property.
pub open spec fn are_places(places: Seq<int>, n: int, holds: spec_fn(int) -> bool) -> bool {
    &&& forall|k: int|
        0 <= k < places.len() ==> 0 <= (#[trigger] places[k]) < n && holds(places[k])
    &&& forall|k: int, l: int|
        0 <= k < l < places.len() ==> (#[trigger] places[k]) < #[trigger] places[l]
    &&& forall|i: int| 0 <= i < n && #[trigger] holds(i) ==> places.contains(i)
}

/// A longer list of places.
pub proof fn places_push(places: Seq<int>, n: int, holds: spec_fn(int) -> bool)
    requires
        0 <= n,
        are_places(places, n, holds),
    ensures
        holds(n) ==> are_places(places.push(n), n + 1, holds),
        !holds(n) ==> are_places(places, n + 1, holds),
{
    if holds(n) {
        let more = places.push(n);
        assert forall|i: int| 0 <= i < n + 1 && #[trigger] holds(i) implies more.contains(i) by {
            if i < n {
                assert(places.contains(i));
                let k = choose|k: int| 0 <= k < places.len() && places[k] == i;
                assert(more[k] == i);
            } else {
                assert(more[places.len() as int] == i);
            }
        }
    } else {
        assert forall|i: int| 0 <= i < n + 1 && #[trigger] holds(i) implies places.contains(i) by {
            assert(i < n);
        }
    }
}

/// Properties that agree have the same places.
pub proof fn places_agree(
    places: Seq<int>,
    n: int,
    held: spec_fn(int) -> bool,
    holds: spec_fn(int) -> bool,
)
    requires
        are_places(places, n, held),
        forall|i: int| 0 <= i < n ==> #[trigger] holds(i) == held(i),
    ensures
        are_places(places, n, holds),
{
    assert forall|k: int| 0 <= k < places.len() implies 0 <= (#[trigger] places[k]) < n && holds(
        places[k],
    ) by {
        assert(held(places[k]));
        assert(holds(places[k]) == held(places[k]));
    }
    assert forall|i: int| 0 <= i < n && #[trigger] holds(i) implies places.contains(i) by {
        assert(held(i));
    }
}

/// Whether a sequence is made of the items of another at some places.
pub open spec fn are_items<T>(out: Seq<T>, all: Seq<T>, places: Seq<int>) -> bool {
    &&& out.len() == places.len()
    &&& forall|k: int| 0 <= k < out.len() ==> #[trigger] out[k] == all[places[k]]
}

} // verus!
