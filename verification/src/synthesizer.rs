//! From a pair of stop points to the transfers between them.

use vstd::prelude::*;
use vstd::arithmetic::div_mod::{lemma_fundamental_div_mod, lemma_mod_bound};
use crate::candidates::CandidatePair;
use crate::error::TransferError;
use crate::geometry::{ceil_sqrt, lemma_ceil_sqrt};
use crate::model::{StopPoint, Transfer, TransferTimes};
use crate::params::GenerationParameters;
use crate::rules::{effective_action, effective_rule, rules_of, Rule, RuleAction, TransferRules};

verus! {

/// The whole seconds it takes to walk `distance` millimetres at `speed`
/// millimetres per second: the quotient, rounded up.
pub open spec fn walking_time(distance: int, speed: int) -> int {
    if distance % speed == 0 {
        distance / speed
    } else {
        distance / speed + 1
    }
}

/// The walking time is the least number of seconds in which the distance can
/// be covered.
pub proof fn lemma_walking_time_least(distance: int, speed: int)
    requires
        distance >= 0,
        speed > 0,
    ensures
        walking_time(distance, speed) >= 0,
        walking_time(distance, speed) * speed >= distance,
        (walking_time(distance, speed) - 1) * speed < distance,
        walking_time(distance, speed) <= distance,
        distance == 0 ==> walking_time(distance, speed) == 0,
{
    let q: int = distance / speed;
    let r: int = distance % speed;
    lemma_fundamental_div_mod(distance, speed);
    lemma_mod_bound(distance, speed);
    assert(q >= 0 && q * speed >= q) by (nonlinear_arith)
        requires
            distance == speed * q + r,
            0 <= r < speed,
            distance >= 0,
    ;
    assert(q * speed == speed * q) by (nonlinear_arith);
    assert((q + 1) * speed == speed * q + speed) by (nonlinear_arith);
    assert((q - 1) * speed == speed * q - speed) by (nonlinear_arith);
}

/// Rounding the distance up to whole millimetres before dividing loses
/// nothing: the walking time over the rounded distance is the least number of
/// seconds `t` for which `t * speed` reaches the distance itself, whose square
/// is `square`.
pub proof fn lemma_walking_time_exact(square: nat, speed: int)
    requires
        speed > 0,
    ensures
        ({
            let t = walking_time(ceil_sqrt(square) as int, speed);
            &&& t >= 0
            &&& (t * speed) * (t * speed) >= square
            &&& t > 0 ==> ((t - 1) * speed) * ((t - 1) * speed) < square
        }),
{
    lemma_ceil_sqrt(square);
    let r: int = ceil_sqrt(square) as int;
    let t: int = walking_time(r, speed);
    lemma_walking_time_least(r, speed);
    let reach: int = t * speed;
    assert(reach * reach >= r * r) by (nonlinear_arith)
        requires
            reach >= r,
            r >= 0,
    ;
    if t > 0 {
        let short: int = (t - 1) * speed;
        assert(short >= 0) by (nonlinear_arith)
            requires
                short == (t - 1) * speed,
                t > 0,
                speed > 0,
        ;
        assert(short * short <= (r - 1) * (r - 1)) by (nonlinear_arith)
            requires
                0 <= short <= r - 1,
        ;
    }
}

/// The timing that is computed for a transfer over `distance` millimetres.
pub open spec fn computed_times(distance: int, params: GenerationParameters) -> TransferTimes {
    TransferTimes {
        duration: (walking_time(distance, params.walking_speed as int) + params.waiting_time) as u64,
        real_walking_time: walking_time(distance, params.walking_speed as int) as u64,
        waiting_time: params.waiting_time,
    }
}

/// The timing of a transfer from a stop point to itself.
pub open spec fn same_point_times(params: GenerationParameters) -> TransferTimes {
    TransferTimes {
        duration: params.waiting_time as u64,
        real_walking_time: 0,
        waiting_time: params.waiting_time,
    }
}

/// What becomes of a computed timing under the rule that stands for the pair.
pub open spec fn ruled(action: Option<RuleAction>, computed: TransferTimes) -> Option<
    TransferTimes,
> {
    match action {
        Some(RuleAction::Exclude) => None,
        Some(RuleAction::Override(times)) => Some(times),
        _ => Some(computed),
    }
}

/// The transfer from the stop point at the place `from` to the one at the
/// place `to`, if the rules allow one.
pub open spec fn directed_transfer(
    stops: Seq<StopPoint>,
    rules: Seq<Rule>,
    from: int,
    to: int,
    computed: TransferTimes,
) -> Option<Transfer> {
    match ruled(effective_action(rules, (stops[from].id@, stops[to].id@)), computed) {
        Some(times) => Some(
            Transfer { from_stop_id: stops[from].id, to_stop_id: stops[to].id, times: times },
        ),
        None => None,
    }
}

/// The transfer from the stop point at the place `at` to itself, if the
/// parameters ask for such transfers and the rules allow this one.
pub open spec fn same_point_transfer(
    stops: Seq<StopPoint>,
    rules: Seq<Rule>,
    params: GenerationParameters,
    at: int,
) -> Option<Transfer> {
    if params.same_point_transfers {
        directed_transfer(stops, rules, at, at, same_point_times(params))
    } else {
        None
    }
}

/// The timing of a transfer over `distance` millimetres: the walking time,
/// and the walking time and the waiting time together.
pub fn compute_times(distance: u64, params: &GenerationParameters) -> (times: TransferTimes)
    requires
        params.valid(),
        walking_time(distance as int, params.walking_speed as int) + params.waiting_time
            <= u64::MAX,
    ensures
        times == computed_times(distance as int, *params),
        times.duration == times.real_walking_time + times.waiting_time,
{
    let speed: u64 = params.walking_speed as u64;
    let whole: u64 = distance / speed;
    let walking: u64 = if distance % speed == 0 {
        whole
    } else {
        whole + 1
    };
    TransferTimes {
        duration: walking + params.waiting_time as u64,
        real_walking_time: walking,
        waiting_time: params.waiting_time,
    }
}

/// The timing of a transfer from a stop point to itself: no walking, and the
/// waiting time.
pub fn compute_same_point_times(params: &GenerationParameters) -> (times: TransferTimes)
    ensures
        times == same_point_times(*params),
        times.duration == times.real_walking_time + times.waiting_time,
{
    TransferTimes {
        duration: params.waiting_time as u64,
        real_walking_time: 0,
        waiting_time: params.waiting_time,
    }
}

/// Applies the rule that stands for a pair to the timing computed for it.
pub fn apply_rule(action: Option<RuleAction>, computed: TransferTimes) -> (times: Option<
    TransferTimes,
>)
    ensures
        times == ruled(action, computed),
{
    match action {
        Some(RuleAction::Exclude) => None,
        Some(RuleAction::Override(times)) => Some(times),
        _ => Some(computed),
    }
}

fn synthesize_directed(
    stops: &Vec<StopPoint>,
    rules: Option<&TransferRules>,
    from: usize,
    to: usize,
    computed: TransferTimes,
) -> (transfer: Option<Transfer>)
    requires
        from < stops.len(),
        to < stops.len(),
    ensures
        transfer == directed_transfer(stops@, rules_of(rules), from as int, to as int, computed),
{
    let action = effective_rule(rules, &stops[from].id, &stops[to].id);
    match apply_rule(action, computed) {
        Some(times) => Some(
            Transfer {
                from_stop_id: stops[from].id.clone(),
                to_stop_id: stops[to].id.clone(),
                times: times,
            },
        ),
        None => None,
    }
}

/// The transfers between the two stop points of a candidate pair: one from
/// the first to the second and one back, both with the timing computed from
/// the pair's distance, except where a rule forbids the transfer or gives its
/// timing. A pair of a stop point with itself yields nothing. Fails when the
/// pair names a place at which `stops` holds no stop point.
pub fn synthesize_pair(
    stops: &Vec<StopPoint>,
    pair: &CandidatePair,
    params: &GenerationParameters,
    rules: Option<&TransferRules>,
) -> (res: Result<(Option<Transfer>, Option<Transfer>), TransferError>)
    requires
        params.valid(),
        walking_time(pair.distance as int, params.walking_speed as int) + params.waiting_time
            <= u64::MAX,
    ensures
        res is Ok <==> pair.first < stops.len() && pair.second < stops.len(),
        match res {
            Ok((forward, backward)) => if pair.first == pair.second {
                forward is None && backward is None
            } else {
                &&& forward == directed_transfer(
                    stops@,
                    rules_of(rules),
                    pair.first as int,
                    pair.second as int,
                    computed_times(pair.distance as int, *params),
                )
                &&& backward == directed_transfer(
                    stops@,
                    rules_of(rules),
                    pair.second as int,
                    pair.first as int,
                    computed_times(pair.distance as int, *params),
                )
            },
            Err(e) => e == TransferError::DanglingReference,
        },
{
    if pair.first >= stops.len() || pair.second >= stops.len() {
        return Err(TransferError::DanglingReference);
    }
    if pair.first == pair.second {
        return Ok((None, None));
    }
    let computed = compute_times(pair.distance, params);
    let forward = synthesize_directed(stops, rules, pair.first, pair.second, computed);
    let backward = synthesize_directed(stops, rules, pair.second, pair.first, computed);
    Ok((forward, backward))
}

/// The transfer from the stop point at the place `at` to itself: without
/// walking, and as long as the waiting time, except where a rule forbids it
/// or gives its timing; none where the parameters ask for no such transfers.
/// Fails when `stops` holds no stop point at that place.
pub fn synthesize_same_point(
    stops: &Vec<StopPoint>,
    at: usize,
    params: &GenerationParameters,
    rules: Option<&TransferRules>,
) -> (res: Result<Option<Transfer>, TransferError>)
    ensures
        res is Ok <==> at < stops.len(),
        match res {
            Ok(transfer) => transfer == same_point_transfer(
                stops@,
                rules_of(rules),
                *params,
                at as int,
            ),
            Err(e) => e == TransferError::DanglingReference,
        },
{
    if at >= stops.len() {
        return Err(TransferError::DanglingReference);
    }
    if !params.same_point_transfers {
        return Ok(None);
    }
    let times = compute_same_point_times(params);
    Ok(synthesize_directed(stops, rules, at, at, times))
}

} // verus!
