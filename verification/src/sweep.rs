//! The places of a list of stop points in the order of their first
//! coordinate.
//!
//! Two stop points are no nearer to each other than their first coordinates
//! are. With the places in this order, the stop points near a given one are
//! found among its neighbours in the order, and the search for them can stop
//! at the first whose first coordinate is too far away.

use vstd::prelude::*;
use vstd::multiset::lemma_multiset_empty_len;
use vstd::seq_lib::{
    lemma_multiset_commutative, to_multiset_build, to_multiset_contains, to_multiset_len,
};
use crate::model::StopPoint;

verus! {

broadcast use vstd::multiset::group_multiset_axioms;

/// Every place of `order` is a place of a list of `count` stop points.
pub open spec fn below(order: Seq<usize>, count: nat) -> bool {
    forall|i: int| 0 <= i < order.len() ==> #[trigger] order[i] < count
}

/// The first coordinates of the stop points at the places of `order` do not
/// decrease along it.
pub open spec fn ascending(stops: Seq<StopPoint>, order: Seq<usize>) -> bool {
    forall|i: int, j: int|
        0 <= i <= j < order.len() ==> stops[#[trigger] order[i] as int].position.x
            <= stops[#[trigger] order[j] as int].position.x
}

/// The places from zero up to `count`, in their own order.
pub open spec fn all_places(count: nat) -> Seq<usize> {
    Seq::new(count, |i: int| i as usize)
}

/// `order` holds every place of `stops` once, in the order of the first
/// coordinates of the stop points.
pub open spec fn is_sweep_order(stops: Seq<StopPoint>, order: Seq<usize>) -> bool {
    &&& order.len() == stops.len()
    &&& below(order, stops.len())
    &&& order.no_duplicates()
    &&& forall|place: usize| place < stops.len() ==> #[trigger] order.contains(place)
    &&& ascending(stops, order)
}

/// Two lists of places, each in order, as one list in order.
fn merge(stops: &Vec<StopPoint>, left: &Vec<usize>, right: &Vec<usize>) -> (out: Vec<usize>)
    requires
        below(left@, stops@.len()),
        below(right@, stops@.len()),
        ascending(stops@, left@),
        ascending(stops@, right@),
    ensures
        out@.to_multiset() == left@.to_multiset().add(right@.to_multiset()),
        below(out@, stops@.len()),
        ascending(stops@, out@),
{
    let mut out: Vec<usize> = Vec::new();
    let mut i: usize = 0;
    let mut j: usize = 0;
    proof {
        assert(left@.take(0) =~= Seq::<usize>::empty());
        assert(right@.take(0) =~= Seq::<usize>::empty());
        assert(out@ =~= Seq::<usize>::empty());
        to_multiset_len(Seq::<usize>::empty());
        lemma_multiset_empty_len(Seq::<usize>::empty().to_multiset());
        assert(out@.to_multiset() =~= left@.take(0).to_multiset().add(right@.take(0).to_multiset()));
    }
    while i < left.len() || j < right.len()
        invariant
            i <= left.len(),
            j <= right.len(),
            below(left@, stops@.len()),
            below(right@, stops@.len()),
            ascending(stops@, left@),
            ascending(stops@, right@),
            out@.to_multiset() == left@.take(i as int).to_multiset().add(
                right@.take(j as int).to_multiset(),
            ),
            below(out@, stops@.len()),
            ascending(stops@, out@),
            forall|k: int, m: int|
                0 <= k < out@.len() && i <= m < left@.len() ==> stops@[#[trigger] out@[k] as int].position.x
                    <= stops@[#[trigger] left@[m] as int].position.x,
            forall|k: int, m: int|
                0 <= k < out@.len() && j <= m < right@.len() ==> stops@[#[trigger] out@[k] as int].position.x
                    <= stops@[#[trigger] right@[m] as int].position.x,
        decreases left.len() - i + right.len() - j,
    {
        let from_left: bool = if j >= right.len() {
            true
        } else if i >= left.len() {
            false
        } else {
            stops[left[i]].position.x <= stops[right[j]].position.x
        };
        let ghost before = out@;
        if from_left {
            let place: usize = left[i];
            proof {
                assert(left@.take(i + 1) =~= left@.take(i as int).push(place));
                to_multiset_build(left@.take(i as int), place);
                to_multiset_build(before, place);
                assert(before.to_multiset().insert(place) =~= left@.take(i + 1).to_multiset().add(
                    right@.take(j as int).to_multiset(),
                ));
            }
            out.push(place);
            i += 1;
        } else {
            let place: usize = right[j];
            proof {
                assert(right@.take(j + 1) =~= right@.take(j as int).push(place));
                to_multiset_build(right@.take(j as int), place);
                to_multiset_build(before, place);
                assert(before.to_multiset().insert(place) =~= left@.take(i as int).to_multiset().add(
                    right@.take(j + 1).to_multiset(),
                ));
            }
            out.push(place);
            j += 1;
        }
    }
    proof {
        assert(left@.take(left.len() as int) =~= left@);
        assert(right@.take(right.len() as int) =~= right@);
    }
    out
}

/// The places of `places` in the order of the first coordinates of the stop
/// points.
fn sort(stops: &Vec<StopPoint>, places: Vec<usize>) -> (out: Vec<usize>)
    requires
        below(places@, stops@.len()),
    ensures
        out@.to_multiset() == places@.to_multiset(),
        below(out@, stops@.len()),
        ascending(stops@, out@),
    decreases places@.len(),
{
    if places.len() <= 1 {
        return places;
    }
    let middle: usize = places.len() / 2;
    let mut left = places;
    let right = left.split_off(middle);
    proof {
        assert(places@ =~= left@ + right@);
        lemma_multiset_commutative(left@, right@);
    }
    let left = sort(stops, left);
    let right = sort(stops, right);
    merge(stops, &left, &right)
}

/// The places of `stops`, each once, in the order of the first coordinates
/// of the stop points.
pub fn places_by_x(stops: &Vec<StopPoint>) -> (order: Vec<usize>)
    ensures
        is_sweep_order(stops@, order@),
{
    let mut places: Vec<usize> = Vec::new();
    let mut i: usize = 0;
    while i < stops.len()
        invariant
            i <= stops.len(),
            places@ == all_places(i as nat),
        decreases stops.len() - i,
    {
        places.push(i);
        proof {
            assert(places@ =~= all_places((i + 1) as nat));
        }
        i += 1;
    }
    let order = sort(stops, places);
    proof {
        let every = all_places(stops@.len());
        every.lemma_multiset_has_no_duplicates();
        order@.lemma_multiset_has_no_duplicates_conv();
        every.to_multiset_ensures();
        order@.to_multiset_ensures();
        assert forall|place: usize| place < stops@.len() implies #[trigger] order@.contains(
            place,
        ) by {
            assert(every[place as int] == place);
            assert(every.contains(place));
            to_multiset_contains(every, place);
            to_multiset_contains(order@, place);
        }
    }
    order
}

} // verus!
