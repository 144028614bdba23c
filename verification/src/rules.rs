//! Rules that take precedence over what generation computes.
//!
//! A rule speaks of one ordered pair of stop points. It confirms the computed
//! transfer, forbids a transfer, or gives the timing of the transfer itself.
//! Where several rules speak of the same pair, a rule that gives a timing
//! prevails over one that does not, whatever their order; between two rules
//! that both give a timing, or that both give none, the one read last
//! prevails.

use vstd::prelude::*;
use crate::error::TransferError;
use crate::model::{TransferKey, TransferTimes};

verus! {

/// What a rule says of a pair of stop points.
#[derive(Clone, Copy, Debug, PartialEq, Eq, Structural)]
pub enum RuleAction {
    /// The computed transfer stands.
    Include,
    /// No transfer is generated.
    Exclude,
    /// The transfer has this timing, whatever would be computed.
    Override(TransferTimes),
}

/// A rule about the transfers from one stop point to another.
#[derive(Clone, Debug, PartialEq, Eq)]
pub struct Rule {
    /// The identifier of the stop point where the transfers start.
    pub from_stop_id: String,
    /// The identifier of the stop point where the transfers end.
    pub to_stop_id: String,
    /// What the rule says of them.
    pub action: RuleAction,
}

impl Rule {
    /// The pair of identifiers that the rule speaks of.
    pub open spec fn key(&self) -> TransferKey {
        (self.from_stop_id@, self.to_stop_id@)
    }
}

/// The action that stands for a pair once `later` has been read, when
/// `earlier` stood before.
pub open spec fn prevailing(earlier: Option<RuleAction>, later: RuleAction) -> RuleAction {
    match earlier {
        Some(RuleAction::Override(times)) => if later is Override {
            later
        } else {
            RuleAction::Override(times)
        },
        _ => later,
    }
}

/// The action that stands for `key` when the rules have been read in order,
/// if any rule speaks of it.
pub open spec fn effective_action(rules: Seq<Rule>, key: TransferKey) -> Option<RuleAction>
    decreases rules.len(),
{
    if rules.len() == 0 {
        None
    } else {
        let earlier = effective_action(rules.drop_last(), key);
        if rules.last().key() == key {
            Some(prevailing(earlier, rules.last().action))
        } else {
            earlier
        }
    }
}

/// `rule` disagrees with a rule of `rules` about the same pair.
pub open spec fn conflicting(rules: Seq<Rule>, rule: Rule) -> bool {
    exists|i: int|
        0 <= i < rules.len() && (#[trigger] rules[i]).key() == rule.key() && rules[i].action
            != rule.action
}

/// Some rule of `rules` speaks of `key`.
pub open spec fn mentions(rules: Seq<Rule>, key: TransferKey) -> bool {
    exists|i: int| 0 <= i < rules.len() && #[trigger] rules[i].key() == key
}

/// Some pair of `pairs` has the identifiers of `key`.
pub open spec fn lists(pairs: Seq<(String, String)>, key: TransferKey) -> bool {
    exists|i: int| 0 <= i < pairs.len() && #[trigger] pair_key(pairs[i]) == key
}

/// The key that a pair of identifiers stands for.
pub open spec fn pair_key(pair: (String, String)) -> TransferKey {
    (pair.0@, pair.1@)
}

/// An action stands for exactly the pairs that some rule speaks of.
pub proof fn lemma_effective_mentions(rules: Seq<Rule>, key: TransferKey)
    ensures
        effective_action(rules, key) is Some <==> mentions(rules, key),
    decreases rules.len(),
{
    if rules.len() > 0 {
        let front = rules.drop_last();
        lemma_effective_mentions(front, key);
        if mentions(front, key) {
            let i: int = choose|i: int| 0 <= i < front.len() && #[trigger] front[i].key() == key;
            assert(rules[i].key() == key);
        }
        if rules.last().key() == key {
            assert(rules[rules.len() - 1].key() == key);
        } else if mentions(rules, key) {
            let i: int = choose|i: int| 0 <= i < rules.len() && #[trigger] rules[i].key() == key;
            assert(front[i].key() == key);
        }
    }
}

/// No rule of `rules` at a position from `from` up to `to` gives a timing to
/// `key`.
pub open spec fn untimed(rules: Seq<Rule>, key: TransferKey, from: int, to: int) -> bool {
    forall|j: int|
        0 <= j < rules.len() && from <= j < to && (#[trigger] rules[j]).key() == key ==> !(
        rules[j].action is Override)
}

/// No rule of `rules` at a position from `from` up to `to` speaks of `key`.
pub open spec fn silent(rules: Seq<Rule>, key: TransferKey, from: int, to: int) -> bool {
    forall|j: int| 0 <= j < rules.len() && from <= j < to ==> (#[trigger] rules[j]).key() != key
}

proof fn lemma_untimed(rules: Seq<Rule>, key: TransferKey)
    requires
        untimed(rules, key, 0, rules.len() as int),
    ensures
        !(effective_action(rules, key) matches Some(RuleAction::Override(_))),
    decreases rules.len(),
{
    if rules.len() > 0 {
        let front = rules.drop_last();
        assert forall|j: int| 0 <= j < front.len() && (#[trigger] front[j]).key() == key implies !(
        front[j].action is Override) by {
            assert(rules[j].key() == key);
        }
        lemma_untimed(front, key);
        assert(rules[rules.len() - 1] == rules.last());
    }
}

/// A rule that gives a pair a timing prevails over those that give it none:
/// the last rule that gives `key` a timing stands, whatever rules without a
/// timing are read before or after it.
pub proof fn lemma_last_timing_stands(rules: Seq<Rule>, key: TransferKey, i: int)
    requires
        0 <= i < rules.len(),
        rules[i].key() == key,
        rules[i].action is Override,
        untimed(rules, key, i + 1, rules.len() as int),
    ensures
        effective_action(rules, key) == Some(rules[i].action),
    decreases rules.len(),
{
    let front = rules.drop_last();
    assert(rules[rules.len() - 1] == rules.last());
    if i < rules.len() - 1 {
        assert(front[i] == rules[i]);
        assert forall|j: int|
            0 <= j < front.len() && i + 1 <= j < front.len() && (#[trigger] front[j]).key()
                == key implies !(front[j].action is Override) by {
            assert(rules[j].key() == key);
        }
        lemma_last_timing_stands(front, key, i);
    }
}

/// Between rules that give a pair no timing, the one read last prevails:
/// where no rule gives `key` a timing, the last rule that speaks of `key`
/// stands.
pub proof fn lemma_last_rule_stands(rules: Seq<Rule>, key: TransferKey, i: int)
    requires
        0 <= i < rules.len(),
        rules[i].key() == key,
        untimed(rules, key, 0, rules.len() as int),
        silent(rules, key, i + 1, rules.len() as int),
    ensures
        effective_action(rules, key) == Some(rules[i].action),
    decreases rules.len(),
{
    let front = rules.drop_last();
    assert(rules[rules.len() - 1] == rules.last());
    assert forall|j: int| 0 <= j < front.len() && (#[trigger] front[j]).key() == key implies !(
    front[j].action is Override) by {
        assert(rules[j].key() == key);
    }
    if i == rules.len() - 1 {
        lemma_untimed(front, key);
    } else {
        assert(front[i] == rules[i]);
        assert forall|j: int| 0 <= j < front.len() && i + 1 <= j < front.len() implies (
        #[trigger] front[j]).key() != key by {
            assert(rules[j].key() != key);
        }
        lemma_last_rule_stands(front, key, i);
    }
}

/// The action that stands once `later` has been read.
pub fn prevail(earlier: Option<RuleAction>, later: RuleAction) -> (action: RuleAction)
    ensures
        action == prevailing(earlier, later),
{
    match earlier {
        Some(RuleAction::Override(times)) => match later {
            RuleAction::Override(_) => later,
            _ => RuleAction::Override(times),
        },
        _ => later,
    }
}

/// Rules in the order in which they were read.
#[derive(Clone, Debug, PartialEq, Eq)]
pub struct TransferRules {
    entries: Vec<Rule>,
}

impl TransferRules {
    /// The rules, in the order in which they were read.
    pub closed spec fn rules(&self) -> Seq<Rule> {
        self.entries@
    }

    /// No rules.
    pub fn new() -> (rules: TransferRules)
        ensures
            rules.rules() == Seq::<Rule>::empty(),
    {
        TransferRules { entries: Vec::new() }
    }

    /// The rules that were read, in order.
    pub fn entries(&self) -> (entries: &Vec<Rule>)
        ensures
            entries@ == self.rules(),
    {
        &self.entries
    }

    /// Reads one more rule. The rule is kept in any case; where it disagrees
    /// with a rule read before about the same pair, the conflict is reported.
    pub fn push(&mut self, rule: Rule) -> (warning: Option<TransferError>)
        ensures
            final(self).rules() == old(self).rules().push(rule),
            warning == (if conflicting(old(self).rules(), rule) {
                Some(TransferError::OverrideConflict)
            } else {
                None::<TransferError>
            }),
    {
        let mut conflict: bool = false;
        let mut i: usize = 0;
        while i < self.entries.len()
            invariant
                i <= self.entries.len(),
                *self == *old(self),
                conflict <==> conflicting(self.entries@.take(i as int), rule),
            decreases self.entries.len() - i,
        {
            let earlier = &self.entries[i];
            proof {
                let now = self.entries@.take(i as int);
                let next = self.entries@.take(i + 1);
                assert(next[i as int] == self.entries@[i as int]);
                if conflicting(now, rule) {
                    let j: int = choose|j: int|
                        0 <= j < now.len() && (#[trigger] now[j]).key() == rule.key()
                            && now[j].action != rule.action;
                    assert(next[j].key() == rule.key());
                }
                if conflicting(next, rule) {
                    let j: int = choose|j: int|
                        0 <= j < next.len() && (#[trigger] next[j]).key() == rule.key()
                            && next[j].action != rule.action;
                    if j < i {
                        assert(now[j].key() == rule.key());
                    }
                }
            }
            if earlier.from_stop_id.eq(&rule.from_stop_id) && earlier.to_stop_id.eq(
                &rule.to_stop_id,
            ) && earlier.action != rule.action {
                conflict = true;
            }
            i += 1;
        }
        proof {
            assert(self.entries@.take(self.entries.len() as int) =~= self.entries@);
        }
        self.entries.push(rule);
        if conflict {
            Some(TransferError::OverrideConflict)
        } else {
            None
        }
    }

    /// The action that stands for the transfers from `from` to `to`, if any
    /// rule speaks of them.
    pub fn effective(&self, from: &String, to: &String) -> (action: Option<RuleAction>)
        ensures
            action == effective_action(self.rules(), (from@, to@)),
    {
        let mut found: Option<RuleAction> = None;
        let mut i: usize = 0;
        while i < self.entries.len()
            invariant
                i <= self.entries.len(),
                found == effective_action(self.entries@.take(i as int), (from@, to@)),
            decreases self.entries.len() - i,
        {
            let rule = &self.entries[i];
            proof {
                assert(self.entries@.take(i + 1).drop_last() =~= self.entries@.take(i as int));
                assert(self.entries@.take(i + 1).last() == self.entries@[i as int]);
            }
            if rule.from_stop_id.eq(from) && rule.to_stop_id.eq(to) {
                found = Some(prevail(found, rule.action));
            }
            i += 1;
        }
        proof {
            assert(self.entries@.take(self.entries.len() as int) =~= self.entries@);
        }
        found
    }

    /// The timing that the rules give to the transfers from `from` to `to`,
    /// if the rule that stands for them gives one.
    pub fn lookup_override(&self, from: &String, to: &String) -> (times: Option<TransferTimes>)
        ensures
            times == (match effective_action(self.rules(), (from@, to@)) {
                Some(RuleAction::Override(given)) => Some(given),
                _ => None::<TransferTimes>,
            }),
    {
        match self.effective(from, to) {
            Some(RuleAction::Override(given)) => Some(given),
            _ => None,
        }
    }

    /// The pairs for which the rules forbid a transfer, each once.
    pub fn exclusions(&self) -> (pairs: Vec<(String, String)>)
        ensures
            forall|i: int|
                0 <= i < pairs.len() ==> effective_action(
                    self.rules(),
                    #[trigger] pair_key(pairs[i]),
                ) == Some(RuleAction::Exclude),
            forall|key: TransferKey|
                #[trigger] effective_action(self.rules(), key) == Some(RuleAction::Exclude)
                    ==> lists(pairs@, key),
            forall|i: int, j: int|
                0 <= i < j < pairs.len() ==> #[trigger] pair_key(pairs[i]) != #[trigger] pair_key(
                    pairs[j],
                ),
    {
        let mut pairs: Vec<(String, String)> = Vec::new();
        let mut i: usize = 0;
        while i < self.entries.len()
            invariant
                i <= self.entries.len(),
                forall|k: int|
                    0 <= k < pairs.len() ==> effective_action(
                        self.entries@,
                        #[trigger] pair_key(pairs[k]),
                    ) == Some(RuleAction::Exclude),
                forall|k: int|
                    0 <= k < i && effective_action(self.entries@, (#[trigger] self.entries@[k]).key())
                        == Some(RuleAction::Exclude) ==> lists(pairs@, self.entries@[k].key()),
                forall|k: int, l: int|
                    0 <= k < l < pairs.len() ==> #[trigger] pair_key(pairs[k])
                        != #[trigger] pair_key(pairs[l]),
            decreases self.entries.len() - i,
        {
            let rule = &self.entries[i];
            let action = self.effective(&rule.from_stop_id, &rule.to_stop_id);
            let ghost before = pairs@;
            if action == Some(RuleAction::Exclude) && !listed(
                &pairs,
                &rule.from_stop_id,
                &rule.to_stop_id,
            ) {
                pairs.push((rule.from_stop_id.clone(), rule.to_stop_id.clone()));
                proof {
                    assert(pair_key(pairs@[pairs.len() - 1]) == rule.key());
                }
            }
            proof {
                assert forall|k: int|
                    0 <= k < i + 1 && effective_action(
                        self.entries@,
                        (#[trigger] self.entries@[k]).key(),
                    ) == Some(RuleAction::Exclude) implies lists(pairs@, self.entries@[k].key()) by {
                    let key = self.entries@[k].key();
                    if lists(before, key) {
                        let l: int = choose|l: int|
                            0 <= l < before.len() && #[trigger] pair_key(before[l]) == key;
                        assert(pair_key(pairs@[l]) == key);
                    }
                }
            }
            i += 1;
        }
        proof {
            assert forall|key: TransferKey|
                #[trigger] effective_action(self.entries@, key) == Some(
                    RuleAction::Exclude,
                ) implies lists(pairs@, key) by {
                lemma_effective_mentions(self.entries@, key);
                let k: int = choose|k: int|
                    0 <= k < self.entries@.len() && #[trigger] self.entries@[k].key() == key;
                assert(lists(pairs@, self.entries@[k].key()));
            }
        }
        pairs
    }
}

/// Whether `pairs` holds the pair of `from` and `to`.
fn listed(pairs: &Vec<(String, String)>, from: &String, to: &String) -> (found: bool)
    ensures
        found == lists(pairs@, (from@, to@)),
{
    let mut i: usize = 0;
    while i < pairs.len()
        invariant
            i <= pairs.len(),
            forall|j: int| 0 <= j < i ==> #[trigger] pair_key(pairs[j]) != (from@, to@),
        decreases pairs.len() - i,
    {
        if pairs[i].0.eq(from) && pairs[i].1.eq(to) {
            assert(pair_key(pairs[i as int]) == (from@, to@));
            return true;
        }
        i += 1;
    }
    false
}

/// The rules of an optional source of rules: none where there is no source.
pub open spec fn rules_of(source: Option<&TransferRules>) -> Seq<Rule> {
    match source {
        Some(rules) => rules.rules(),
        None => Seq::empty(),
    }
}

/// The action that stands for the transfers from `from` to `to` under an
/// optional source of rules.
pub fn effective_rule(source: Option<&TransferRules>, from: &String, to: &String) -> (action:
    Option<RuleAction>)
    ensures
        action == effective_action(rules_of(source), (from@, to@)),
{
    match source {
        Some(rules) => rules.effective(from, to),
        None => None,
    }
}

} // verus!
