//! The difference between the rule set applied last and the one computed now.

use crate::network::Cidr;
use crate::ruleset::RuleSet;
use vstd::prelude::*;

verus! {

/// What has to change in the packet filter to get from one rule set to
/// another: the members to remove and the members to add.
#[derive(Debug)]
pub struct RuleDiff {
    pub to_remove: RuleSet,
    pub to_add: RuleSet,
}

impl RuleDiff {
    /// Whether there is nothing to remove and nothing to add.
    pub open spec fn is_empty(&self) -> bool {
        self.to_remove@ == Set::<Cidr>::empty() && self.to_add@ == Set::<Cidr>::empty()
    }

    /// Whether the two rule sets compared had the same members, so that the
    /// family needs no work in this cycle.
    pub fn unchanged(&self) -> (r: bool)
        ensures
            r == self.is_empty(),
    {
        self.to_remove.is_empty() && self.to_add.is_empty()
    }
}

/// Two sets are equal exactly when neither has a member that the other
/// lacks.
pub proof fn lemma_no_difference(previous: Set<Cidr>, current: Set<Cidr>)
    ensures
        (previous == current) <==> (previous.difference(current) == Set::<Cidr>::empty()
            && current.difference(previous) == Set::<Cidr>::empty()),
{
    if previous == current {
        assert(previous.difference(current) =~= Set::<Cidr>::empty());
        assert(current.difference(previous) =~= Set::<Cidr>::empty());
    }
    if previous.difference(current) == Set::<Cidr>::empty() && current.difference(previous)
        == Set::<Cidr>::empty() {
        assert forall|c: Cidr| previous.contains(c) == current.contains(c) by {
            if previous.contains(c) && !current.contains(c) {
                assert(previous.difference(current).contains(c));
            }
            if current.contains(c) && !previous.contains(c) {
                assert(current.difference(previous).contains(c));
            }
        }
        assert(previous =~= current);
    }
}

/// A rule set differs from itself by nothing.
pub proof fn lemma_diff_of_equal(rules: Set<Cidr>)
    ensures
        rules.difference(rules) == Set::<Cidr>::empty(),
{
    assert(rules.difference(rules) =~= Set::<Cidr>::empty());
}

/// What is removed and what is added never overlap, and removing the one
/// from the previous set and adding the other gives the current set.
pub proof fn lemma_diff_applies(previous: Set<Cidr>, current: Set<Cidr>)
    ensures
        previous.difference(current).disjoint(current.difference(previous)),
        previous.difference(previous.difference(current)).union(current.difference(previous))
            == current,
{
    assert(previous.difference(previous.difference(current)).union(current.difference(previous))
        =~= current);
}

/// Compares the rule set applied last with the one computed now: what is in
/// the previous set only is to be removed, what is in the current set only is
/// to be added. The diff is empty exactly when the two have the same members.
pub fn diff(previous: &RuleSet, current: &RuleSet) -> (r: RuleDiff)
    ensures
        r.to_remove@ == previous@.difference(current@),
        r.to_add@ == current@.difference(previous@),
        r.to_remove.family_of() == previous.family_of(),
        r.to_add.family_of() == current.family_of(),
        r.is_empty() <==> previous@ == current@,
{
    proof {
        lemma_no_difference(previous@, current@);
    }
    RuleDiff { to_remove: previous.difference(current), to_add: current.difference(previous) }
}

} // verus!
