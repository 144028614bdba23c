use transit_transfers::engine::generate_transfers;
use transit_transfers::error::TransferError;
use transit_transfers::geometry::{distance_within, Position};
use transit_transfers::model::{Model, StopPoint, Transfer, TransferTimes};
use transit_transfers::params::GenerationParameters;
use transit_transfers::rules::{Rule, RuleAction, TransferRules};

fn stop(id: &str, x: i64, y: i64) -> StopPoint {
    StopPoint { id: id.to_string(), position: Position { x, y, z: 0 }, stop_area: None }
}

fn model_of(stops: Vec<StopPoint>) -> Model {
    let mut model = Model::new();
    for s in stops {
        assert!(model.insert_stop_point(s));
    }
    model
}

fn params(max_distance: i64, walking_speed: i64, waiting_time: u32) -> GenerationParameters {
    GenerationParameters { max_distance, walking_speed, waiting_time, same_point_transfers: false }
}

fn times(duration: u64, real_walking_time: u64, waiting_time: u32) -> TransferTimes {
    TransferTimes { duration, real_walking_time, waiting_time }
}

fn transfer(from: &str, to: &str, t: TransferTimes) -> Transfer {
    Transfer { from_stop_id: from.to_string(), to_stop_id: to.to_string(), times: t }
}

fn snapshot(model: &Model) -> (Vec<StopPoint>, Vec<Transfer>) {
    (model.stop_points().clone(), model.transfers().clone())
}

fn get(model: &Model, from: &str, to: &str) -> Option<TransferTimes> {
    model.get_transfer(&from.to_string(), &to.to_string())
}

#[test]
fn pair_within_the_threshold_gets_both_transfers() {
    // Two stop points 111 m apart, a threshold of 150 m, 1 m/s, 60 s of waiting.
    let mut model = model_of(vec![stop("A", 0, 0), stop("B", 111_000, 0)]);
    let added = generate_transfers(&mut model, &params(150_000, 1000, 60), None);
    assert_eq!(added, Ok(2));
    assert_eq!(get(&model, "A", "B"), Some(times(171, 111, 60)));
    assert_eq!(get(&model, "B", "A"), Some(times(171, 111, 60)));
    assert_eq!(
        model.transfers(),
        &vec![transfer("A", "B", times(171, 111, 60)), transfer("B", "A", times(171, 111, 60))]
    );
}

#[test]
fn pair_beyond_the_threshold_gets_no_transfer() {
    let mut model = model_of(vec![stop("A", 0, 0), stop("B", 111_000, 0)]);
    let added = generate_transfers(&mut model, &params(50_000, 1000, 60), None);
    assert_eq!(added, Ok(0));
    assert!(model.transfers().is_empty());
    assert_eq!(get(&model, "A", "B"), None);
    assert_eq!(get(&model, "B", "A"), None);
}

#[test]
fn same_point_transfer_takes_the_waiting_time() {
    let mut model = model_of(vec![stop("C", 2_000, 3_000)]);
    let p = GenerationParameters {
        max_distance: 300_000,
        walking_speed: 785,
        waiting_time: 30,
        same_point_transfers: true,
    };
    assert_eq!(generate_transfers(&mut model, &p, None), Ok(1));
    assert_eq!(model.transfers(), &vec![transfer("C", "C", times(30, 0, 30))]);
}

#[test]
fn no_same_point_transfer_unless_asked_for() {
    let mut model = model_of(vec![stop("C", 2_000, 3_000)]);
    assert_eq!(generate_transfers(&mut model, &params(300_000, 785, 30), None), Ok(0));
    assert!(model.transfers().is_empty());
}

#[test]
fn same_point_transfers_come_with_the_pairs() {
    let mut model = model_of(vec![stop("A", 0, 0), stop("B", 0, 1_500)]);
    let p = GenerationParameters {
        max_distance: 2_000,
        walking_speed: 1_000,
        waiting_time: 10,
        same_point_transfers: true,
    };
    assert_eq!(generate_transfers(&mut model, &p, None), Ok(4));
    assert_eq!(get(&model, "A", "A"), Some(times(10, 0, 10)));
    assert_eq!(get(&model, "B", "B"), Some(times(10, 0, 10)));
    assert_eq!(get(&model, "A", "B"), Some(times(12, 2, 10)));
    assert_eq!(get(&model, "B", "A"), Some(times(12, 2, 10)));
}

#[test]
fn durations_are_the_same_in_both_directions() {
    let mut model = model_of(vec![
        stop("A", -12_345, 67_890),
        stop("B", 98_765, -4_321),
        stop("C", 1, 1),
        stop("D", 5_000_000, 5_000_000),
    ]);
    assert_eq!(generate_transfers(&mut model, &params(300_000, 785, 60), None), Ok(6));
    for (x, y) in [("A", "B"), ("A", "C"), ("B", "C")] {
        let there = get(&model, x, y).unwrap();
        let back = get(&model, y, x).unwrap();
        assert_eq!(there, back);
        assert_eq!(there.duration, there.real_walking_time + 60);
    }
    // A to B: 132_594.3.. mm at 785 mm/s is 168.9.. s.
    assert_eq!(get(&model, "A", "B"), Some(times(229, 169, 60)));
    for other in ["A", "B", "C"] {
        assert_eq!(get(&model, "D", other), None);
        assert_eq!(get(&model, other, "D"), None);
    }
}

#[test]
fn generating_twice_is_generating_once() {
    let mut model = model_of(vec![stop("A", 0, 0), stop("B", 100_000, 0), stop("C", 0, 250_000)]);
    let p = GenerationParameters {
        max_distance: 300_000,
        walking_speed: 785,
        waiting_time: 60,
        same_point_transfers: true,
    };
    assert_eq!(generate_transfers(&mut model, &p, None), Ok(9));
    let once = snapshot(&model);
    assert_eq!(generate_transfers(&mut model, &p, None), Ok(0));
    assert_eq!(snapshot(&model), once);
}

#[test]
fn threshold_is_inclusive() {
    // 3000 mm east and 4000 mm north: exactly 5000 mm.
    let stops = vec![stop("A", 0, 0), stop("B", 3_000, 4_000)];
    let mut at = model_of(stops.clone());
    assert_eq!(generate_transfers(&mut at, &params(5_000, 1_000, 0), None), Ok(2));
    assert_eq!(get(&at, "A", "B"), Some(times(5, 5, 0)));

    let mut below = model_of(stops);
    assert_eq!(generate_transfers(&mut below, &params(4_999, 1_000, 0), None), Ok(0));

    // One millimetre further north: a little more than 5000 mm.
    let mut beyond = model_of(vec![stop("A", 0, 0), stop("B", 3_000, 4_001)]);
    assert_eq!(generate_transfers(&mut beyond, &params(5_000, 1_000, 0), None), Ok(0));
    assert!(beyond.transfers().is_empty());
}

#[test]
fn threshold_of_zero_joins_stop_points_at_the_same_place() {
    let mut model = model_of(vec![stop("A", 7, 7), stop("B", 7, 7), stop("C", 7, 8)]);
    assert_eq!(generate_transfers(&mut model, &params(0, 1, 5), None), Ok(2));
    assert_eq!(get(&model, "A", "B"), Some(times(5, 0, 5)));
    assert_eq!(get(&model, "B", "A"), Some(times(5, 0, 5)));
    assert_eq!(get(&model, "A", "C"), None);
}

#[test]
fn existing_transfer_is_not_overwritten() {
    let mut model = model_of(vec![stop("A", 0, 0), stop("B", 111_000, 0)]);
    assert_eq!(model.insert_transfer(transfer("A", "B", times(999, 900, 99))), Ok(true));
    assert_eq!(generate_transfers(&mut model, &params(150_000, 1000, 60), None), Ok(1));
    assert_eq!(get(&model, "A", "B"), Some(times(999, 900, 99)));
    assert_eq!(get(&model, "B", "A"), Some(times(171, 111, 60)));
    assert_eq!(
        model.transfers(),
        &vec![transfer("A", "B", times(999, 900, 99)), transfer("B", "A", times(171, 111, 60))]
    );
}

#[test]
fn existing_transfer_between_distant_stop_points_stays() {
    let mut model = model_of(vec![stop("A", 0, 0), stop("B", 10_000_000, 0)]);
    assert_eq!(model.insert_transfer(transfer("A", "B", times(1, 2, 3))), Ok(true));
    assert_eq!(generate_transfers(&mut model, &params(150_000, 1000, 60), None), Ok(0));
    assert_eq!(model.transfers(), &vec![transfer("A", "B", times(1, 2, 3))]);
}

#[test]
fn walking_speed_of_zero_is_refused() {
    let mut model = model_of(vec![stop("A", 0, 0), stop("B", 111_000, 0)]);
    assert_eq!(model.insert_transfer(transfer("A", "B", times(999, 900, 99))), Ok(true));
    let before = snapshot(&model);
    assert_eq!(
        generate_transfers(&mut model, &params(150_000, 0, 60), None),
        Err(TransferError::InvalidParameter)
    );
    assert_eq!(snapshot(&model), before);
}

#[test]
fn negative_walking_speed_is_refused() {
    let mut model = model_of(vec![stop("A", 0, 0), stop("B", 111_000, 0)]);
    let before = snapshot(&model);
    assert_eq!(
        generate_transfers(&mut model, &params(150_000, -785, 60), None),
        Err(TransferError::InvalidParameter)
    );
    assert_eq!(snapshot(&model), before);
}

#[test]
fn negative_distance_threshold_is_refused() {
    let mut model = model_of(vec![stop("A", 0, 0), stop("B", 111_000, 0)]);
    let before = snapshot(&model);
    assert_eq!(
        generate_transfers(&mut model, &params(-1, 1000, 60), None),
        Err(TransferError::InvalidParameter)
    );
    assert_eq!(snapshot(&model), before);
    assert!(model.transfers().is_empty());
}

#[test]
fn empty_model_is_no_error() {
    let mut model = Model::new();
    assert_eq!(generate_transfers(&mut model, &params(150_000, 1000, 60), None), Ok(0));
    assert!(model.transfers().is_empty());
    assert!(model.stop_points().is_empty());
}

#[test]
fn stop_points_are_left_alone() {
    let stops = vec![stop("A", 0, 0), stop("B", 111_000, 0), stop("C", 1, 2)];
    let mut model = model_of(stops.clone());
    assert_eq!(generate_transfers(&mut model, &params(150_000, 1000, 60), None), Ok(6));
    assert_eq!(model.stop_points(), &stops);
}

fn rule(from: &str, to: &str, action: RuleAction) -> Rule {
    Rule { from_stop_id: from.to_string(), to_stop_id: to.to_string(), action }
}

#[test]
fn exclusion_suppresses_one_direction() {
    let mut rules = TransferRules::new();
    assert_eq!(rules.push(rule("A", "B", RuleAction::Exclude)), None);
    let mut model = model_of(vec![stop("A", 0, 0), stop("B", 111_000, 0)]);
    assert_eq!(generate_transfers(&mut model, &params(150_000, 1000, 60), Some(&rules)), Ok(1));
    assert_eq!(get(&model, "A", "B"), None);
    assert_eq!(get(&model, "B", "A"), Some(times(171, 111, 60)));
}

#[test]
fn exclusion_of_both_directions_suppresses_the_pair() {
    let mut rules = TransferRules::new();
    rules.push(rule("A", "B", RuleAction::Exclude));
    rules.push(rule("B", "A", RuleAction::Exclude));
    let mut model = model_of(vec![stop("A", 0, 0), stop("B", 111_000, 0), stop("C", 0, 1_000)]);
    assert_eq!(generate_transfers(&mut model, &params(150_000, 1000, 60), Some(&rules)), Ok(4));
    assert_eq!(get(&model, "A", "B"), None);
    assert_eq!(get(&model, "B", "A"), None);
    assert_eq!(get(&model, "A", "C"), Some(times(61, 1, 60)));
}

#[test]
fn override_replaces_the_computed_timing() {
    let mut rules = TransferRules::new();
    rules.push(rule("A", "B", RuleAction::Override(times(500, 400, 100))));
    let mut model = model_of(vec![stop("A", 0, 0), stop("B", 111_000, 0)]);
    assert_eq!(generate_transfers(&mut model, &params(150_000, 1000, 60), Some(&rules)), Ok(2));
    assert_eq!(get(&model, "A", "B"), Some(times(500, 400, 100)));
    assert_eq!(get(&model, "B", "A"), Some(times(171, 111, 60)));
}

#[test]
fn override_does_not_reach_beyond_the_threshold() {
    let mut rules = TransferRules::new();
    rules.push(rule("A", "B", RuleAction::Override(times(500, 400, 100))));
    let mut model = model_of(vec![stop("A", 0, 0), stop("B", 111_000, 0)]);
    assert_eq!(generate_transfers(&mut model, &params(50_000, 1000, 60), Some(&rules)), Ok(0));
    assert!(model.transfers().is_empty());
}

#[test]
fn existing_transfer_wins_over_a_rule() {
    let mut rules = TransferRules::new();
    rules.push(rule("A", "B", RuleAction::Override(times(500, 400, 100))));
    rules.push(rule("B", "A", RuleAction::Exclude));
    let mut model = model_of(vec![stop("A", 0, 0), stop("B", 111_000, 0)]);
    model.insert_transfer(transfer("A", "B", times(7, 7, 0))).unwrap();
    model.insert_transfer(transfer("B", "A", times(8, 8, 0))).unwrap();
    assert_eq!(generate_transfers(&mut model, &params(150_000, 1000, 60), Some(&rules)), Ok(0));
    assert_eq!(get(&model, "A", "B"), Some(times(7, 7, 0)));
    assert_eq!(get(&model, "B", "A"), Some(times(8, 8, 0)));
}

#[test]
fn rules_apply_to_same_point_transfers() {
    let mut rules = TransferRules::new();
    rules.push(rule("A", "A", RuleAction::Exclude));
    rules.push(rule("B", "B", RuleAction::Override(times(1, 0, 1))));
    let mut model = model_of(vec![stop("A", 0, 0), stop("B", 10_000_000, 0), stop("C", 0, 10_000_000)]);
    let p = GenerationParameters {
        max_distance: 1_000,
        walking_speed: 785,
        waiting_time: 45,
        same_point_transfers: true,
    };
    assert_eq!(generate_transfers(&mut model, &p, Some(&rules)), Ok(2));
    assert_eq!(get(&model, "A", "A"), None);
    assert_eq!(get(&model, "B", "B"), Some(times(1, 0, 1)));
    assert_eq!(get(&model, "C", "C"), Some(times(45, 0, 45)));
}

#[test]
fn rule_about_an_unknown_stop_point_changes_nothing() {
    let mut rules = TransferRules::new();
    rules.push(rule("A", "Z", RuleAction::Override(times(1, 1, 1))));
    rules.push(rule("Z", "B", RuleAction::Exclude));
    let mut model = model_of(vec![stop("A", 0, 0), stop("B", 111_000, 0)]);
    assert_eq!(generate_transfers(&mut model, &params(150_000, 1000, 60), Some(&rules)), Ok(2));
    assert_eq!(get(&model, "A", "B"), Some(times(171, 111, 60)));
    assert_eq!(get(&model, "B", "A"), Some(times(171, 111, 60)));
}

#[test]
fn empty_rules_are_no_rules() {
    let rules = TransferRules::new();
    let mut with = model_of(vec![stop("A", 0, 0), stop("B", 111_000, 0)]);
    let mut without = model_of(vec![stop("A", 0, 0), stop("B", 111_000, 0)]);
    assert_eq!(generate_transfers(&mut with, &params(150_000, 1000, 60), Some(&rules)), Ok(2));
    assert_eq!(generate_transfers(&mut without, &params(150_000, 1000, 60), None), Ok(2));
    assert_eq!(snapshot(&with), snapshot(&without));
}

#[test]
fn transfers_are_added_pair_by_pair() {
    let mut model = model_of(vec![stop("A", 0, 0), stop("B", 0, 2_500), stop("C", 900_000, 0)]);
    let p = GenerationParameters {
        max_distance: 3_000,
        walking_speed: 1_000,
        waiting_time: 20,
        same_point_transfers: true,
    };
    assert_eq!(generate_transfers(&mut model, &p, None), Ok(5));
    let mut added = model.transfers().clone();
    added.sort_by(|t, u| (&t.from_stop_id, &t.to_stop_id).cmp(&(&u.from_stop_id, &u.to_stop_id)));
    assert_eq!(
        added,
        vec![
            transfer("A", "A", times(20, 0, 20)),
            transfer("A", "B", times(23, 3, 20)),
            transfer("B", "A", times(23, 3, 20)),
            transfer("B", "B", times(20, 0, 20)),
            transfer("C", "C", times(20, 0, 20)),
        ]
    );
}

#[test]
fn generation_on_top_of_many_transfers() {
    let mut model = Model::new();
    for i in 0..60i64 {
        assert!(model.insert_stop_point(stop(&format!("S{}", i), i * 1_000, 0)));
    }
    let p = GenerationParameters {
        max_distance: 2_000,
        walking_speed: 1_000,
        waiting_time: 1,
        same_point_transfers: true,
    };
    // Each stop point reaches itself and up to two neighbours on each side.
    assert_eq!(generate_transfers(&mut model, &p, None), Ok(60 + 2 * 59 + 2 * 58));
    assert_eq!(get(&model, "S10", "S12"), Some(times(3, 2, 1)));
    assert_eq!(get(&model, "S10", "S13"), None);
    let wider = GenerationParameters { max_distance: 3_000, waiting_time: 5, ..p };
    assert_eq!(generate_transfers(&mut model, &wider, None), Ok(2 * 57));
    assert_eq!(get(&model, "S10", "S12"), Some(times(3, 2, 1)));
    assert_eq!(get(&model, "S10", "S13"), Some(times(8, 3, 5)));
    assert_eq!(get(&model, "S13", "S10"), Some(times(8, 3, 5)));
}

#[test]
fn far_apart_coordinates_do_not_overflow() {
    let mut model = model_of(vec![
        stop("A", i64::MIN, i64::MIN),
        stop("B", i64::MAX, i64::MAX),
        stop("C", i64::MAX, i64::MAX - 1),
    ]);
    assert_eq!(generate_transfers(&mut model, &params(i64::MAX, 1, u32::MAX), None), Ok(2));
    assert_eq!(get(&model, "B", "C"), Some(times(1 + u32::MAX as u64, 1, u32::MAX)));
    assert_eq!(get(&model, "A", "B"), None);
}

#[test]
fn long_line_of_stop_points() {
    let count: usize = 20_000;
    let mut model = Model::new();
    // Put in from both ends towards the middle, so that the places are in no
    // order of the coordinates.
    for i in 0..count / 2 {
        let low = i as i64;
        let high = (count - 1 - i) as i64;
        assert!(model.insert_stop_point(stop(&format!("S{}", low), low * 1_000, 7)));
        assert!(model.insert_stop_point(stop(&format!("S{}", high), high * 1_000, 7)));
    }
    let p = GenerationParameters {
        max_distance: 2_000,
        walking_speed: 500,
        waiting_time: 10,
        same_point_transfers: true,
    };
    let expected = count + 2 * (count - 1) + 2 * (count - 2);
    assert_eq!(generate_transfers(&mut model, &p, None), Ok(expected));
    assert_eq!(model.transfers().len(), expected);
    assert_eq!(get(&model, "S0", "S0"), Some(times(10, 0, 10)));
    assert_eq!(get(&model, "S0", "S1"), Some(times(12, 2, 10)));
    assert_eq!(get(&model, "S9999", "S10001"), Some(times(14, 4, 10)));
    assert_eq!(get(&model, "S10001", "S9999"), Some(times(14, 4, 10)));
    assert_eq!(get(&model, "S9999", "S10002"), None);
    assert_eq!(get(&model, "S19999", "S19998"), Some(times(12, 2, 10)));
    assert_eq!(generate_transfers(&mut model, &p, None), Ok(0));
    assert_eq!(model.transfers().len(), expected);
}

/// A small generator of numbers that look random and are the same each time.
fn scrambled(seed: &mut u64) -> u64 {
    *seed = seed.wrapping_mul(6_364_136_223_846_793_005).wrapping_add(1_442_695_040_888_963_407);
    *seed >> 33
}

#[test]
fn generation_against_a_plain_walk_over_all_pairs() {
    let mut seed: u64 = 2_024;
    for round in 0..20 {
        let count = 5 + (round % 6) * 5;
        let mut stops = Vec::new();
        for i in 0..count {
            let x = (scrambled(&mut seed) % 4_001) as i64 - 2_000;
            let y = (scrambled(&mut seed) % 4_001) as i64 - 2_000;
            let z = (scrambled(&mut seed) % 401) as i64 - 200;
            stops.push(StopPoint {
                id: format!("S{}", i),
                position: Position { x, y, z },
                stop_area: None,
            });
        }
        let name = |seed: &mut u64| format!("S{}", scrambled(seed) % (count as u64 + 1));
        let mut rules = TransferRules::new();
        let mut reached: Vec<Rule> = Vec::new();
        for _ in 0..count {
            let action = match scrambled(&mut seed) % 3 {
                0 => RuleAction::Include,
                1 => RuleAction::Exclude,
                _ => RuleAction::Override(times(scrambled(&mut seed) % 100, 1, 2)),
            };
            let entry = Rule { from_stop_id: name(&mut seed), to_stop_id: name(&mut seed), action };
            reached.push(entry.clone());
            rules.push(entry);
        }
        let mut model = model_of(stops.clone());
        let mut expected: Vec<Transfer> = Vec::new();
        for _ in 0..count {
            let held = transfer(&name(&mut seed), &name(&mut seed), times(7, 7, 7));
            match model.insert_transfer(held.clone()) {
                Ok(true) => expected.push(held),
                Ok(false) => {}
                Err(e) => assert_eq!(e, TransferError::DanglingReference),
            }
        }
        let p = GenerationParameters {
            max_distance: 1_200,
            walking_speed: 1 + (scrambled(&mut seed) % 900) as i64,
            waiting_time: (scrambled(&mut seed) % 120) as u32,
            same_point_transfers: round % 2 == 0,
        };

        // What is expected, by the rules as they read.
        let held = expected.len();
        for a in &stops {
            for b in &stops {
                if expected.iter().any(|t| t.from_stop_id == a.id && t.to_stop_id == b.id) {
                    continue;
                }
                let computed = if a.id == b.id {
                    if !p.same_point_transfers {
                        continue;
                    }
                    times(p.waiting_time as u64, 0, p.waiting_time)
                } else {
                    let apart = match distance_within(a.position, b.position, 1_200) {
                        Some(apart) => apart,
                        None => continue,
                    };
                    let speed = p.walking_speed as u64;
                    let walking = (apart + speed - 1) / speed;
                    times(walking + p.waiting_time as u64, walking, p.waiting_time)
                };
                let about: Vec<&Rule> = reached
                    .iter()
                    .filter(|r| r.from_stop_id == a.id && r.to_stop_id == b.id)
                    .collect();
                let timed = about.iter().rev().find(|r| matches!(r.action, RuleAction::Override(_)));
                let standing = match timed {
                    Some(rule) => Some(rule.action),
                    None => about.last().map(|rule| rule.action),
                };
                let made = match standing {
                    Some(RuleAction::Exclude) => continue,
                    Some(RuleAction::Override(given)) => given,
                    _ => computed,
                };
                expected.push(transfer(&a.id, &b.id, made));
            }
        }

        let added = generate_transfers(&mut model, &p, Some(&rules)).unwrap();
        assert_eq!(added, expected.len() - held);
        assert_eq!(&model.transfers()[..held], &expected[..held]);
        let by_key = |t: &Transfer, u: &Transfer| {
            (&t.from_stop_id, &t.to_stop_id).cmp(&(&u.from_stop_id, &u.to_stop_id))
        };
        let mut got = model.transfers().clone();
        got.sort_by(by_key);
        expected.sort_by(by_key);
        assert_eq!(got, expected);
    }
}
