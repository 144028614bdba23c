//! The generation of transfers for a whole model.
//!
//! Generation looks at every ordered pair of stop points. For two distinct
//! stop points within the distance threshold it yields a transfer with the
//! computed timing; for a stop point and itself it yields a transfer without
//! walking, where the parameters ask for such transfers. A rule that stands
//! for the pair forbids the transfer or replaces its timing. What generation
//! yields is put into the model only where the model holds no transfer for
//! the pair yet.

use vstd::prelude::*;
use crate::candidates::{candidate_pairs, holds_pair, is_candidate, CandidatePair};
use crate::error::TransferError;
use crate::geometry::{distance, lemma_distance_symmetric, lemma_within_limit, sq_distance};
use crate::model::{
    distinct_ids, has_key, has_stop, is_first, key_of, lemma_merged, merged, Model, StopPoint,
    Transfer, TransferKey, TransferTimes,
};
use crate::params::GenerationParameters;
use crate::rules::{effective_action, rules_of, Rule, RuleAction, TransferRules};
use crate::synthesizer::{
    computed_times, lemma_walking_time_least, ruled, same_point_times, synthesize_pair,
    synthesize_same_point,
};

verus! {

/// `stops` holds stop points at the places `a` and `b`, and `key` is the key
/// of the transfers from the first to the second.
pub open spec fn names(stops: Seq<StopPoint>, key: TransferKey, a: int, b: int) -> bool {
    &&& 0 <= a < stops.len()
    &&& 0 <= b < stops.len()
    &&& key_of(stops, a, b) == key
}

/// The timing of the transfer that generation yields from the stop point at
/// the place `a` to the one at the place `b`, if it yields one.
pub open spec fn generated(
    stops: Seq<StopPoint>,
    params: GenerationParameters,
    rules: Seq<Rule>,
    a: int,
    b: int,
) -> Option<TransferTimes> {
    if a == b {
        if params.same_point_transfers {
            ruled(effective_action(rules, key_of(stops, a, b)), same_point_times(params))
        } else {
            None
        }
    } else if distance(stops[a].position, stops[b].position) <= params.max_distance {
        ruled(
            effective_action(rules, key_of(stops, a, b)),
            computed_times(distance(stops[a].position, stops[b].position) as int, params),
        )
    } else {
        None
    }
}

/// The timing of the transfer that generation yields for `key`, if it yields
/// one.
pub open spec fn produced(
    stops: Seq<StopPoint>,
    params: GenerationParameters,
    rules: Seq<Rule>,
    key: TransferKey,
) -> Option<TransferTimes> {
    if exists|a: int, b: int| names(stops, key, a, b) {
        let (a, b) = choose|a: int, b: int| names(stops, key, a, b);
        generated(stops, params, rules, a, b)
    } else {
        None
    }
}

/// The transfers of a model after generation: those that it held before,
/// unchanged, and what generation yields for the other keys.
pub open spec fn generation(
    stops: Seq<StopPoint>,
    existing: Map<TransferKey, TransferTimes>,
    params: GenerationParameters,
    rules: Seq<Rule>,
) -> Map<TransferKey, TransferTimes> {
    Map::new(
        |key: TransferKey| existing.contains_key(key) || produced(stops, params, rules, key) is Some,
        |key: TransferKey|
            if existing.contains_key(key) {
                existing[key]
            } else {
                produced(stops, params, rules, key).unwrap()
            },
    )
}

/// `transfer` is what generation yields for some ordered pair of stop points.
pub open spec fn stems(
    stops: Seq<StopPoint>,
    params: GenerationParameters,
    rules: Seq<Rule>,
    transfer: Transfer,
) -> bool {
    exists|a: int, b: int|
        #[trigger] names(stops, transfer.key(), a, b) && generated(stops, params, rules, a, b)
            == Some(transfer.times)
}

/// `transfers` holds a transfer for the stop points at the places `a` and
/// `b`, if generation yields one for them.
pub open spec fn covered(
    stops: Seq<StopPoint>,
    params: GenerationParameters,
    rules: Seq<Rule>,
    transfers: Seq<Transfer>,
    a: int,
    b: int,
) -> bool {
    generated(stops, params, rules, a, b) is Some ==> has_key(transfers, key_of(stops, a, b))
}

/// Where identifiers are unique, a key names at most one ordered pair of stop
/// points, and what generation yields for the key is what it yields for that
/// pair.
pub proof fn lemma_produced(
    stops: Seq<StopPoint>,
    params: GenerationParameters,
    rules: Seq<Rule>,
    a: int,
    b: int,
)
    requires
        distinct_ids(stops),
        0 <= a < stops.len(),
        0 <= b < stops.len(),
    ensures
        produced(stops, params, rules, key_of(stops, a, b)) == generated(stops, params, rules, a, b),
{
    let key = key_of(stops, a, b);
    assert(names(stops, key, a, b));
    let (c, d) = choose|c: int, d: int| names(stops, key, c, d);
    assert(names(stops, key, c, d));
    assert(stops[a].id@ == stops[c].id@);
    assert(stops[b].id@ == stops[d].id@);
    assert(a == c);
    assert(b == d);
}

proof fn lemma_first_occurrence(transfers: Seq<Transfer>, key: TransferKey) -> (i: int)
    requires
        has_key(transfers, key),
    ensures
        0 <= i < transfers.len(),
        transfers[i].key() == key,
        is_first(transfers, i),
    decreases transfers.len(),
{
    let front = transfers.drop_last();
    if has_key(front, key) {
        let i: int = lemma_first_occurrence(front, key);
        assert(transfers[i] == front[i]);
        assert forall|j: int| 0 <= j < i implies #[trigger] transfers[j].key() != key by {
            assert(front[j].key() != front[i].key());
        }
        i
    } else {
        let k: int = choose|k: int| 0 <= k < transfers.len() && #[trigger] transfers[k].key() == key;
        if k < front.len() {
            assert(front[k].key() == key);
        }
        assert forall|j: int| 0 <= j < transfers.len() - 1 implies #[trigger] transfers[j].key()
            != key by {
            assert(front[j].key() == transfers[j].key());
        }
        transfers.len() - 1
    }
}

proof fn lemma_has_key_extends(shorter: Seq<Transfer>, longer: Seq<Transfer>, key: TransferKey)
    requires
        shorter.len() <= longer.len(),
        forall|i: int| 0 <= i < shorter.len() ==> #[trigger] longer[i] == shorter[i],
        has_key(shorter, key),
    ensures
        has_key(longer, key),
{
    let i: int = choose|i: int| 0 <= i < shorter.len() && #[trigger] shorter[i].key() == key;
    assert(longer[i].key() == key);
}

/// Putting into a model's transfers a list that holds what generation
/// yields, and nothing else, gives the transfers after generation.
pub proof fn lemma_merged_is_generation(
    stops: Seq<StopPoint>,
    existing: Map<TransferKey, TransferTimes>,
    params: GenerationParameters,
    rules: Seq<Rule>,
    additions: Seq<Transfer>,
)
    requires
        distinct_ids(stops),
        forall|i: int|
            0 <= i < additions.len() ==> stems(stops, params, rules, #[trigger] additions[i]),
        forall|a: int, b: int|
            0 <= a < stops.len() && 0 <= b < stops.len() ==> #[trigger] covered(
                stops,
                params,
                rules,
                additions,
                a,
                b,
            ),
    ensures
        merged(existing, additions) == generation(stops, existing, params, rules),
{
    let after = merged(existing, additions);
    let target = generation(stops, existing, params, rules);
    lemma_merged(existing, additions);
    assert forall|key: TransferKey| #[trigger] after.contains_key(key) implies target.contains_key(
        key,
    ) && target[key] == after[key] by {
        if !existing.contains_key(key) {
            assert(has_key(additions, key));
            let i: int = lemma_first_occurrence(additions, key);
            assert(after[additions[i].key()] == additions[i].times);
            assert(stems(stops, params, rules, additions[i]));
            let (a, b) = choose|a: int, b: int|
                #[trigger] names(stops, additions[i].key(), a, b) && generated(
                    stops,
                    params,
                    rules,
                    a,
                    b,
                ) == Some(additions[i].times);
            lemma_produced(stops, params, rules, a, b);
        }
    }
    assert forall|key: TransferKey| #[trigger] target.contains_key(key) implies after.contains_key(
        key,
    ) by {
        if !existing.contains_key(key) {
            let (a, b) = choose|a: int, b: int| names(stops, key, a, b);
            assert(names(stops, key, a, b));
            assert(covered(stops, params, rules, additions, a, b));
        }
    }
    assert(after =~= target);
}

/// Puts a transfer at the end of a list, if there is one.
fn push_some(additions: &mut Vec<Transfer>, transfer: Option<Transfer>)
    ensures
        final(additions)@ == (match transfer {
            Some(t) => old(additions)@.push(t),
            None => old(additions)@,
        }),
{
    match transfer {
        Some(t) => {
            additions.push(t);
        },
        None => {},
    }
}

/// Every transfer that generation yields for the stop points of `stops`,
/// whatever transfers a model may hold already. Each transfer of the list is
/// one that generation yields for an ordered pair of stop points, and the
/// list holds one for every pair for which generation yields one.
fn synthesize_all(
    stops: &Vec<StopPoint>,
    params: &GenerationParameters,
    rules: Option<&TransferRules>,
) -> (additions: Vec<Transfer>)
    requires
        params.valid(),
    ensures
        forall|i: int|
            0 <= i < additions.len() ==> stems(
                stops@,
                *params,
                rules_of(rules),
                #[trigger] additions[i],
            ),
        forall|a: int, b: int|
            0 <= a < stops.len() && 0 <= b < stops.len() ==> #[trigger] covered(
                stops@,
                *params,
                rules_of(rules),
                additions@,
                a,
                b,
            ),
{
    let limit: u64 = params.max_distance as u64;
    let pairs = candidate_pairs(stops, limit, rules);
    let mut additions: Vec<Transfer> = Vec::new();
    let mut k: usize = 0;
    while k < pairs.len()
        invariant
            k <= pairs.len(),
            params.valid(),
            limit == params.max_distance,
            forall|j: int|
                0 <= j < pairs.len() ==> {
                    &&& is_candidate(
                        stops@,
                        limit as nat,
                        rules_of(rules),
                        (#[trigger] pairs[j]).first as int,
                        pairs[j].second as int,
                    )
                    &&& pairs[j].distance == distance(
                        stops[pairs[j].first as int].position,
                        stops[pairs[j].second as int].position,
                    )
                },
            forall|i: int|
                0 <= i < additions.len() ==> stems(
                    stops@,
                    *params,
                    rules_of(rules),
                    #[trigger] additions[i],
                ),
            forall|j: int|
                0 <= j < k ==> {
                    &&& covered(
                        stops@,
                        *params,
                        rules_of(rules),
                        additions@,
                        (#[trigger] pairs[j]).first as int,
                        pairs[j].second as int,
                    )
                    &&& covered(
                        stops@,
                        *params,
                        rules_of(rules),
                        additions@,
                        pairs[j].second as int,
                        pairs[j].first as int,
                    )
                },
        decreases pairs.len() - k,
    {
        let pair: CandidatePair = pairs[k];
        let ghost before = additions@;
        let ghost a: int = pair.first as int;
        let ghost b: int = pair.second as int;
        proof {
            lemma_walking_time_least(pair.distance as int, params.walking_speed as int);
            lemma_distance_symmetric(stops[a].position, stops[b].position);
            assert(names(stops@, key_of(stops@, a, b), a, b));
            assert(names(stops@, key_of(stops@, b, a), b, a));
        }
        match synthesize_pair(stops, &pair, params, rules) {
            Ok((forward, backward)) => {
                push_some(&mut additions, forward);
                let ghost between = additions@;
                push_some(&mut additions, backward);
                proof {
                    if forward is Some {
                        assert(between[between.len() - 1].key() == key_of(stops@, a, b));
                        lemma_has_key_extends(between, additions@, key_of(stops@, a, b));
                    }
                    if backward is Some {
                        assert(additions@[additions.len() - 1].key() == key_of(stops@, b, a));
                    }
                }
            },
            Err(_) => {},
        }
        proof {
            assert forall|j: int| 0 <= j < k implies {
                &&& covered(
                    stops@,
                    *params,
                    rules_of(rules),
                    additions@,
                    (#[trigger] pairs[j]).first as int,
                    pairs[j].second as int,
                )
                &&& covered(
                    stops@,
                    *params,
                    rules_of(rules),
                    additions@,
                    pairs[j].second as int,
                    pairs[j].first as int,
                )
            } by {
                let x: int = pairs[j].first as int;
                let y: int = pairs[j].second as int;
                if has_key(before, key_of(stops@, x, y)) {
                    lemma_has_key_extends(before, additions@, key_of(stops@, x, y));
                }
                if has_key(before, key_of(stops@, y, x)) {
                    lemma_has_key_extends(before, additions@, key_of(stops@, y, x));
                }
            }
        }
        k += 1;
    }
    proof {
        assert forall|a: int, b: int|
            0 <= a < stops.len() && 0 <= b < stops.len() && a != b implies #[trigger] covered(
            stops@,
            *params,
            rules_of(rules),
            additions@,
            a,
            b,
        ) by {
            if generated(stops@, *params, rules_of(rules), a, b) is Some {
                lemma_distance_symmetric(stops[a].position, stops[b].position);
                let x: int = if a < b {
                    a
                } else {
                    b
                };
                let y: int = if a < b {
                    b
                } else {
                    a
                };
                assert(is_candidate(stops@, limit as nat, rules_of(rules), x, y));
                assert(holds_pair(pairs@, x, y));
                let j: int = choose|j: int|
                    0 <= j < pairs.len() && (#[trigger] pairs[j]).first == x && pairs[j].second
                        == y;
                assert(covered(
                    stops@,
                    *params,
                    rules_of(rules),
                    additions@,
                    pairs[j].first as int,
                    pairs[j].second as int,
                ));
            }
        }
    }
    let mut at: usize = 0;
    while at < stops.len() && params.same_point_transfers
        invariant
            at <= stops.len(),
            forall|i: int|
                0 <= i < additions.len() ==> stems(
                    stops@,
                    *params,
                    rules_of(rules),
                    #[trigger] additions[i],
                ),
            forall|a: int, b: int|
                0 <= a < stops.len() && 0 <= b < stops.len() && (a != b || a < at)
                    ==> #[trigger] covered(stops@, *params, rules_of(rules), additions@, a, b),
        decreases stops.len() - at,
    {
        let ghost before = additions@;
        proof {
            assert(names(stops@, key_of(stops@, at as int, at as int), at as int, at as int));
        }
        match synthesize_same_point(stops, at, params, rules) {
            Ok(transfer) => {
                push_some(&mut additions, transfer);
                proof {
                    if transfer is Some {
                        assert(additions@[additions.len() - 1].key() == key_of(
                            stops@,
                            at as int,
                            at as int,
                        ));
                    }
                }
            },
            Err(_) => {},
        }
        proof {
            assert forall|a: int, b: int|
                0 <= a < stops.len() && 0 <= b < stops.len() && (a != b || a < at
                    + 1) implies #[trigger] covered(
                stops@,
                *params,
                rules_of(rules),
                additions@,
                a,
                b,
            ) by {
                if a != b || a < at {
                    assert(covered(stops@, *params, rules_of(rules), before, a, b));
                    if has_key(before, key_of(stops@, a, b)) {
                        lemma_has_key_extends(before, additions@, key_of(stops@, a, b));
                    }
                }
            }
        }
        at += 1;
    }
    additions
}

/// Generates the transfers of a model: puts what generation yields into the
/// model wherever the model holds no transfer for the pair yet, and gives the
/// number of transfers added. The transfers that the model held stay as they
/// were, at the front of its list. Fails, and changes nothing, when the
/// parameters are not valid.
pub fn generate_transfers(
    model: &mut Model,
    params: &GenerationParameters,
    rules: Option<&TransferRules>,
) -> (res: Result<usize, TransferError>)
    ensures
        final(model).stops() == old(model).stops(),
        res is Ok <==> params.valid(),
        match res {
            Ok(count) => {
                &&& final(model).transfer_map() == generation(
                    old(model).stops(),
                    old(model).transfer_map(),
                    *params,
                    rules_of(rules),
                )
                &&& final(model).transfer_list().len() == old(model).transfer_list().len() + count
                &&& final(model).transfer_list().subrange(
                    0,
                    old(model).transfer_list().len() as int,
                ) == old(model).transfer_list()
            },
            Err(e) => {
                &&& e == TransferError::InvalidParameter
                &&& final(model).transfer_list() == old(model).transfer_list()
            },
        },
{
    if params.validate().is_err() {
        return Err(TransferError::InvalidParameter);
    }
    let additions = synthesize_all(model.stop_points(), params, rules);
    proof {
        let stops = model.stops();
        assert forall|i: int| 0 <= i < additions.len() implies {
            &&& has_stop(stops, (#[trigger] additions[i]).from_stop_id@)
            &&& has_stop(stops, additions[i].to_stop_id@)
        } by {
            assert(stems(stops, *params, rules_of(rules), additions[i]));
            let (a, b) = choose|a: int, b: int|
                #[trigger] names(stops, additions[i].key(), a, b) && generated(
                    stops,
                    *params,
                    rules_of(rules),
                    a,
                    b,
                ) == Some(additions[i].times);
            assert(stops[a].id@ == additions[i].from_stop_id@);
            assert(stops[b].id@ == additions[i].to_stop_id@);
        }
        lemma_merged_is_generation(
            stops,
            model.transfer_map(),
            *params,
            rules_of(rules),
            additions@,
        );
    }
    model.merge_transfers(&additions)
}

/// A transfer that the model holds before generation is there afterwards,
/// with the timing it had, whatever generation would compute for its pair.
pub proof fn lemma_existing_wins(
    stops: Seq<StopPoint>,
    existing: Map<TransferKey, TransferTimes>,
    params: GenerationParameters,
    rules: Seq<Rule>,
    key: TransferKey,
)
    requires
        existing.contains_key(key),
    ensures
        generation(stops, existing, params, rules).contains_key(key),
        generation(stops, existing, params, rules)[key] == existing[key],
{
}

/// Generating a second time, with the same parameters and rules, changes
/// nothing.
pub proof fn lemma_generation_idempotent(
    stops: Seq<StopPoint>,
    existing: Map<TransferKey, TransferTimes>,
    params: GenerationParameters,
    rules: Seq<Rule>,
)
    ensures
        generation(stops, generation(stops, existing, params, rules), params, rules) == generation(
            stops,
            existing,
            params,
            rules,
        ),
{
    let once = generation(stops, existing, params, rules);
    let twice = generation(stops, once, params, rules);
    assert(twice =~= once);
}

/// The two directions between a pair of distinct stop points fare alike.
/// Where the model holds a transfer in neither direction yet, and the rules
/// make the same of the computed timing in both, generation yields both
/// transfers or neither, and the two take equally long. It yields them when
/// the stop points are within the distance threshold and the rules allow it.
pub proof fn lemma_generation_symmetric(
    stops: Seq<StopPoint>,
    existing: Map<TransferKey, TransferTimes>,
    params: GenerationParameters,
    rules: Seq<Rule>,
    a: int,
    b: int,
)
    requires
        distinct_ids(stops),
        0 <= a < stops.len(),
        0 <= b < stops.len(),
        a != b,
        !existing.contains_key(key_of(stops, a, b)),
        !existing.contains_key(key_of(stops, b, a)),
        ruled(
            effective_action(rules, key_of(stops, a, b)),
            computed_times(distance(stops[a].position, stops[b].position) as int, params),
        ) == ruled(
            effective_action(rules, key_of(stops, b, a)),
            computed_times(distance(stops[a].position, stops[b].position) as int, params),
        ),
    ensures
        generation(stops, existing, params, rules).contains_key(key_of(stops, a, b)) == generation(
            stops,
            existing,
            params,
            rules,
        ).contains_key(key_of(stops, b, a)),
        generation(stops, existing, params, rules).contains_key(key_of(stops, a, b)) ==> generation(
            stops,
            existing,
            params,
            rules,
        )[key_of(stops, a, b)] == generation(stops, existing, params, rules)[key_of(stops, b, a)],
        distance(stops[a].position, stops[b].position) <= params.max_distance
            && effective_action(rules, key_of(stops, a, b)) != Some(RuleAction::Exclude)
            ==> generation(stops, existing, params, rules).contains_key(key_of(stops, a, b)),
{
    lemma_distance_symmetric(stops[a].position, stops[b].position);
    lemma_produced(stops, params, rules, a, b);
    lemma_produced(stops, params, rules, b, a);
}

/// Where the distance threshold falls. For two distinct stop points between
/// which the model holds no transfer yet, generation makes a transfer when
/// they are no farther apart than the threshold, also when they are exactly
/// as far apart, unless a rule forbids it; it makes none when they are
/// farther apart by any amount.
pub proof fn lemma_generation_threshold(
    stops: Seq<StopPoint>,
    existing: Map<TransferKey, TransferTimes>,
    params: GenerationParameters,
    rules: Seq<Rule>,
    a: int,
    b: int,
)
    requires
        distinct_ids(stops),
        0 <= a < stops.len(),
        0 <= b < stops.len(),
        a != b,
        params.max_distance >= 0,
        !existing.contains_key(key_of(stops, a, b)),
    ensures
        sq_distance(stops[a].position, stops[b].position) <= params.max_distance
            * params.max_distance && effective_action(rules, key_of(stops, a, b)) != Some(
            RuleAction::Exclude,
        ) ==> generation(stops, existing, params, rules).contains_key(key_of(stops, a, b)),
        sq_distance(stops[a].position, stops[b].position) > params.max_distance
            * params.max_distance ==> !generation(stops, existing, params, rules).contains_key(
            key_of(stops, a, b),
        ),
{
    lemma_within_limit(stops[a].position, stops[b].position, params.max_distance as nat);
    lemma_produced(stops, params, rules, a, b);
}

} // verus!
