//! The pairs of stop points that are near enough for a transfer.
//!
//! The pairs are found by a sweep along the first coordinate. The places of
//! the stop points are put in the order of that coordinate; each stop point is
//! then held against those that follow it in the order, up to the first whose
//! first coordinate alone is farther away than the threshold.

use vstd::prelude::*;
use crate::geometry::{
    distance, distance_within, gap, gap_between, lemma_distance_reaches_gap,
    lemma_distance_symmetric,
};
use crate::model::StopPoint;
use crate::rules::{effective_action, effective_rule, rules_of, Rule, RuleAction, TransferRules};
use crate::sweep::{is_sweep_order, places_by_x};

verus! {

/// Two stop points, named by their places in a list of stop points, and the
/// distance between them in millimetres.
#[derive(Clone, Copy, Debug, PartialEq, Eq, Structural)]
pub struct CandidatePair {
    /// The place of one stop point.
    pub first: usize,
    /// The place of the other.
    pub second: usize,
    /// The distance between the two, rounded up to whole millimetres.
    pub distance: u64,
}

/// The rules forbid a transfer between the stop points `a` and `b` in both
/// directions.
pub open spec fn pair_excluded(rules: Seq<Rule>, a: Seq<char>, b: Seq<char>) -> bool {
    &&& effective_action(rules, (a, b)) == Some(RuleAction::Exclude)
    &&& effective_action(rules, (b, a)) == Some(RuleAction::Exclude)
}

/// The stop points at the places `a` and `b`, with `a` before `b`, are within
/// `max_distance` millimetres of each other, and the rules leave at least one
/// direction between them open.
pub open spec fn is_candidate(
    stops: Seq<StopPoint>,
    max_distance: nat,
    rules: Seq<Rule>,
    a: int,
    b: int,
) -> bool {
    &&& 0 <= a < b < stops.len()
    &&& distance(stops[a].position, stops[b].position) <= max_distance
    &&& !pair_excluded(rules, stops[a].id@, stops[b].id@)
}

/// `pairs` lists the pair of the places `a` and `b`.
pub open spec fn holds_pair(pairs: Seq<CandidatePair>, a: int, b: int) -> bool {
    exists|k: int|
        0 <= k < pairs.len() && (#[trigger] pairs[k]).first == a && pairs[k].second == b
}

/// Two pairs name the same two places.
pub open spec fn same_places(p: CandidatePair, q: CandidatePair) -> bool {
    p.first == q.first && p.second == q.second
}

/// The earlier of two places.
pub open spec fn lower(a: int, b: int) -> int {
    if a < b {
        a
    } else {
        b
    }
}

/// The later of two places.
pub open spec fn upper(a: int, b: int) -> int {
    if a < b {
        b
    } else {
        a
    }
}

/// The sweep has dealt with the positions `p` and `q` of the order when it
/// stands at the positions `i` and `j`.
spec fn swept(i: int, j: int, p: int, q: int) -> bool {
    p < i || (p == i && q < j)
}

/// `pair` names the places at two positions of the order that the sweep has
/// dealt with.
spec fn has_origin(order: Seq<usize>, pair: CandidatePair, i: int, j: int) -> bool {
    exists|p: int, q: int|
        #![trigger order[p], order[q]]
        0 <= p < q < order.len() && swept(i, j, p, q) && pair.first == lower(
            order[p] as int,
            order[q] as int,
        ) && pair.second == upper(order[p] as int, order[q] as int)
}

/// `pairs` lists the pair of the places `x` and `y` if the two are near
/// enough and the rules leave a direction between them open.
spec fn settled(
    stops: Seq<StopPoint>,
    max_distance: nat,
    rules: Seq<Rule>,
    pairs: Seq<CandidatePair>,
    x: int,
    y: int,
) -> bool {
    is_candidate(stops, max_distance, rules, lower(x, y), upper(x, y)) ==> holds_pair(
        pairs,
        lower(x, y),
        upper(x, y),
    )
}

/// What the sweep has found when it stands at the positions `i` and `j`.
spec fn found(
    stops: Seq<StopPoint>,
    max_distance: nat,
    rules: Seq<Rule>,
    order: Seq<usize>,
    pairs: Seq<CandidatePair>,
    i: int,
    j: int,
) -> bool {
    &&& forall|k: int|
        0 <= k < pairs.len() ==> {
            &&& is_candidate(
                stops,
                max_distance,
                rules,
                (#[trigger] pairs[k]).first as int,
                pairs[k].second as int,
            )
            &&& pairs[k].distance == distance(
                stops[pairs[k].first as int].position,
                stops[pairs[k].second as int].position,
            )
            &&& has_origin(order, pairs[k], i, j)
        }
    &&& forall|k: int, l: int|
        0 <= k < l < pairs.len() ==> !same_places(#[trigger] pairs[k], #[trigger] pairs[l])
    &&& forall|p: int, q: int|
        #![trigger order[p], order[q]]
        0 <= p < q < order.len() && swept(i, j, p, q) ==> settled(
            stops,
            max_distance,
            rules,
            pairs,
            order[p] as int,
            order[q] as int,
        )
}

/// Every unordered pair of distinct stop points that lie within `max_distance`
/// millimetres of each other, unless the rules forbid both directions between
/// them. Each pair is listed once, the earlier stop point first, with its
/// distance.
pub fn candidate_pairs(
    stops: &Vec<StopPoint>,
    max_distance: u64,
    rules: Option<&TransferRules>,
) -> (pairs: Vec<CandidatePair>)
    ensures
        forall|k: int|
            0 <= k < pairs.len() ==> {
                &&& is_candidate(
                    stops@,
                    max_distance as nat,
                    rules_of(rules),
                    (#[trigger] pairs[k]).first as int,
                    pairs[k].second as int,
                )
                &&& pairs[k].distance == distance(
                    stops[pairs[k].first as int].position,
                    stops[pairs[k].second as int].position,
                )
            },
        forall|a: int, b: int|
            #[trigger] is_candidate(stops@, max_distance as nat, rules_of(rules), a, b)
                ==> holds_pair(pairs@, a, b),
        forall|k: int, l: int|
            0 <= k < l < pairs.len() ==> !same_places(#[trigger] pairs[k], #[trigger] pairs[l]),
{
    let order = places_by_x(stops);
    let n: usize = stops.len();
    let mut pairs: Vec<CandidatePair> = Vec::new();
    let mut i: usize = 0;
    while i < n
        invariant
            i <= n,
            n == stops.len(),
            is_sweep_order(stops@, order@),
            found(stops@, max_distance as nat, rules_of(rules), order@, pairs@, i as int, 0),
        decreases n - i,
    {
        let a: usize = order[i];
        let mut j: usize = i + 1;
        proof {
            assert forall|k: int| 0 <= k < pairs.len() implies has_origin(
                order@,
                #[trigger] pairs[k],
                i as int,
                j as int,
            ) by {
                lemma_origin_stays(order@, pairs[k], i as int, 0, i as int, j as int);
            }
        }
        while j < n && gap_between(stops[a].position, stops[order[j]].position) <= max_distance
            invariant
                i < j <= n,
                n == stops.len(),
                a == order[i as int],
                is_sweep_order(stops@, order@),
                found(
                    stops@,
                    max_distance as nat,
                    rules_of(rules),
                    order@,
                    pairs@,
                    i as int,
                    j as int,
                ),
            decreases n - j,
        {
            let b: usize = order[j];
            let ghost before = pairs@;
            proof {
                lemma_distance_symmetric(stops[a as int].position, stops[b as int].position);
            }
            match distance_within(stops[a].position, stops[b].position, max_distance) {
                Some(d) => {
                    let low: usize = if a < b {
                        a
                    } else {
                        b
                    };
                    let high: usize = if a < b {
                        b
                    } else {
                        a
                    };
                    let excluded: bool = effective_rule(rules, &stops[low].id, &stops[high].id)
                        == Some(RuleAction::Exclude) && effective_rule(
                        rules,
                        &stops[high].id,
                        &stops[low].id,
                    ) == Some(RuleAction::Exclude);
                    if !excluded {
                        let pair = CandidatePair { first: low, second: high, distance: d };
                        proof {
                            lemma_new_pair(order@, before, pair, i as int, j as int);
                        }
                        pairs.push(pair);
                        proof {
                            assert(pairs@[pairs.len() - 1] == pair);
                            assert(holds_pair(pairs@, low as int, high as int));
                        }
                    }
                },
                None => {},
            }
            proof {
                let max = max_distance as nat;
                let r = rules_of(rules);
                assert forall|k: int| 0 <= k < pairs.len() implies has_origin(
                    order@,
                    #[trigger] pairs[k],
                    i as int,
                    j + 1,
                ) by {
                    if k < before.len() {
                        assert(pairs[k] == before[k]);
                        lemma_origin_stays(order@, pairs[k], i as int, j as int, i as int, j + 1);
                    } else {
                        assert(order@[i as int] == a && order@[j as int] == b);
                        assert(swept(i as int, j + 1, i as int, j as int));
                    }
                }
                assert forall|p: int, q: int|
                    #![trigger order@[p], order@[q]]
                    0 <= p < q < order@.len() && swept(i as int, j + 1, p, q) implies settled(
                    stops@,
                    max,
                    r,
                    pairs@,
                    order@[p] as int,
                    order@[q] as int,
                ) by {
                    if swept(i as int, j as int, p, q) {
                        assert(settled(stops@, max, r, before, order@[p] as int, order@[q] as int));
                        lemma_holds_pair_stays(
                            before,
                            pairs@,
                            lower(order@[p] as int, order@[q] as int),
                            upper(order@[p] as int, order@[q] as int),
                        );
                    }
                }
            }
            j += 1;
        }
        proof {
            let max = max_distance as nat;
            let r = rules_of(rules);
            assert forall|k: int| 0 <= k < pairs.len() implies has_origin(
                order@,
                #[trigger] pairs[k],
                i + 1,
                0,
            ) by {
                lemma_origin_stays(order@, pairs[k], i as int, j as int, i + 1, 0);
            }
            assert forall|p: int, q: int|
                #![trigger order@[p], order@[q]]
                0 <= p < q < order@.len() && swept(i + 1, 0, p, q) implies settled(
                stops@,
                max,
                r,
                pairs@,
                order@[p] as int,
                order@[q] as int,
            ) by {
                if !swept(i as int, j as int, p, q) {
                    // The stop point at `q` lies beyond the one at which the sweep stopped.
                    assert(p == i && j <= q);
                    let here = stops@[a as int].position;
                    let stop = stops@[order@[j as int] as int].position;
                    let there = stops@[order@[q] as int].position;
                    assert(here.x <= stop.x <= there.x);
                    assert(gap(here, stop) > max);
                    assert(gap(here, there) > max);
                    lemma_distance_reaches_gap(here, there, max);
                    lemma_distance_symmetric(here, there);
                }
            }
        }
        i += 1;
    }
    proof {
        let max = max_distance as nat;
        let r = rules_of(rules);
        assert forall|x: int, y: int| #[trigger] is_candidate(stops@, max, r, x, y) implies holds_pair(
            pairs@,
            x,
            y,
        ) by {
            assert(order@.contains(x as usize));
            assert(order@.contains(y as usize));
            let p: int = choose|p: int| 0 <= p < order@.len() && order@[p] == x as usize;
            let q: int = choose|q: int| 0 <= q < order@.len() && order@[q] == y as usize;
            if p < q {
                assert(swept(n as int, 0, p, q));
                assert(settled(stops@, max, r, pairs@, order@[p] as int, order@[q] as int));
            } else {
                assert(swept(n as int, 0, q, p));
                assert(settled(stops@, max, r, pairs@, order@[q] as int, order@[p] as int));
            }
        }
    }
    pairs
}

/// A pair that the sweep had dealt with stays dealt with as the sweep goes
/// on.
proof fn lemma_origin_stays(
    order: Seq<usize>,
    pair: CandidatePair,
    i: int,
    j: int,
    later_i: int,
    later_j: int,
)
    requires
        has_origin(order, pair, i, j),
        forall|p: int, q: int| 0 <= p < q && swept(i, j, p, q) ==> swept(later_i, later_j, p, q),
    ensures
        has_origin(order, pair, later_i, later_j),
{
    let (p, q) = choose|p: int, q: int|
        #![trigger order[p], order[q]]
        0 <= p < q < order.len() && swept(i, j, p, q) && pair.first == lower(
            order[p] as int,
            order[q] as int,
        ) && pair.second == upper(order[p] as int, order[q] as int);
    assert(swept(later_i, later_j, p, q));
    assert(pair.first == lower(order[p] as int, order[q] as int));
}

/// A list of pairs that grows goes on listing what it listed.
proof fn lemma_holds_pair_stays(
    shorter: Seq<CandidatePair>,
    longer: Seq<CandidatePair>,
    a: int,
    b: int,
)
    requires
        shorter.len() <= longer.len(),
        forall|k: int| 0 <= k < shorter.len() ==> #[trigger] longer[k] == shorter[k],
    ensures
        holds_pair(shorter, a, b) ==> holds_pair(longer, a, b),
{
    if holds_pair(shorter, a, b) {
        let k: int = choose|k: int|
            0 <= k < shorter.len() && (#[trigger] shorter[k]).first == a && shorter[k].second == b;
        assert(longer[k].first == a);
    }
}

/// The pair of the places at the positions `i` and `j`, which the sweep has
/// not dealt with yet, is none of the pairs that it has found.
proof fn lemma_new_pair(
    order: Seq<usize>,
    pairs: Seq<CandidatePair>,
    pair: CandidatePair,
    i: int,
    j: int,
)
    requires
        order.no_duplicates(),
        0 <= i < j < order.len(),
        pair.first == lower(order[i] as int, order[j] as int),
        pair.second == upper(order[i] as int, order[j] as int),
        forall|k: int| 0 <= k < pairs.len() ==> has_origin(order, #[trigger] pairs[k], i, j),
    ensures
        forall|k: int| 0 <= k < pairs.len() ==> !same_places(#[trigger] pairs[k], pair),
{
    assert forall|k: int| 0 <= k < pairs.len() implies !same_places(#[trigger] pairs[k], pair) by {
        let (p, q) = choose|p: int, q: int|
            #![trigger order[p], order[q]]
            0 <= p < q < order.len() && swept(i, j, p, q) && pairs[k].first == lower(
                order[p] as int,
                order[q] as int,
            ) && pairs[k].second == upper(order[p] as int, order[q] as int);
        if same_places(pairs[k], pair) {
            assert(order[p] == order[i] || order[p] == order[j]);
            assert(order[q] == order[i] || order[q] == order[j]);
            assert(p == i || p == j);
            assert(q == i || q == j);
        }
    }
}

} // verus!
