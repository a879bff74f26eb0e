//! The memory of what was applied last, and the plan of one cycle.
//!
//! The baseline of a family is the rule set that the packet filter is taken
//! to hold. It is the only state that lives from one cycle to the next. A
//! cycle flattens the fetched policy, compares each family with its baseline
//! and, once the family's batch is through, makes the new rule set the
//! baseline, whether or not every operation succeeded.

use crate::apply::{apply_plan, failure_views, Applier, ApplyFailure, Op};
use crate::diff::{diff, RuleDiff};
use crate::network::{Cidr, Family};
use crate::policy::{
    accepted, block_entries, flatten, rejected, rejection_views, BlockRules, Rejection,
};
use crate::ruleset::RuleSet;
use vstd::prelude::*;

verus! {

/// What one family has to do in a cycle: the rule set computed from the
/// policy, and how it differs from the baseline.
#[derive(Debug)]
pub struct FamilyPlan {
    pub current: RuleSet,
    pub diff: RuleDiff,
}

/// One family's batch under way: the operations of its plan, and the rule
/// set that becomes the baseline once they are through.
#[derive(Debug)]
pub struct FamilyRun {
    pub current: RuleSet,
    pub applier: Applier,
}

impl FamilyPlan {
    /// Sets the family's batch going. A plan with an empty diff gives a batch
    /// that is through before it has issued anything.
    pub fn start(self) -> (run: FamilyRun)
        ensures
            run.current == self.current,
            run.applier.plan() == apply_plan(
                self.diff.to_remove.members(),
                self.diff.to_add.members(),
            ),
            run.applier.issued() == 0,
            run.applier.failures() == Seq::<(Op, Seq<char>)>::empty(),
            self.diff.is_empty() ==> run.applier.plan().len() == 0,
    {
        let applier = Applier::new(&self.diff);
        proof {
            use_type_invariant(&self.diff.to_remove);
            use_type_invariant(&self.diff.to_add);
            self.diff.to_remove.lemma_members();
            self.diff.to_add.lemma_members();
        }
        FamilyRun { current: self.current, applier }
    }
}

/// What a cycle has to do: the entries that were skipped, and the plan of
/// each family.
#[derive(Debug)]
pub struct CyclePlan {
    pub rejected: Vec<Rejection>,
    pub v4: FamilyPlan,
    pub v6: FamilyPlan,
}

impl CyclePlan {
    /// Whether neither family has anything to apply.
    pub open spec fn is_noop(&self) -> bool {
        self.v4.diff.is_empty() && self.v6.diff.is_empty()
    }

    /// Whether the policy is the one already applied, so that the cycle
    /// touches the packet filter for neither family.
    pub fn nothing_to_do(&self) -> (r: bool)
        ensures
            r == self.is_noop(),
    {
        self.v4.diff.unchanged() && self.v6.diff.unchanged()
    }
}

/// The rule sets applied last, one per family. Both start empty.
#[derive(Debug)]
pub struct ReconciliationState {
    v4: RuleSet,
    v6: RuleSet,
}

impl ReconciliationState {
    /// The baseline of a family: the networks that were applied last.
    pub closed spec fn baseline(&self, family: Family) -> Set<Cidr> {
        match family {
            Family::V4 => self.v4@,
            Family::V6 => self.v6@,
        }
    }

    #[verifier::type_invariant]
    pub closed spec fn wf(self) -> bool {
        self.v4.family_of() == Family::V4 && self.v6.family_of() == Family::V6
    }

    /// The state at start: nothing is applied for either family.
    pub fn new() -> (r: Self)
        ensures
            r.baseline(Family::V4) == Set::<Cidr>::empty(),
            r.baseline(Family::V6) == Set::<Cidr>::empty(),
            r.wf(),
    {
        ReconciliationState { v4: RuleSet::new(Family::V4), v6: RuleSet::new(Family::V6) }
    }

    /// The rule set applied last for a family.
    pub fn applied(&self, family: Family) -> (r: &RuleSet)
        ensures
            r@ == self.baseline(family),
            r.family_of() == family,
    {
        proof {
            use_type_invariant(self);
        }
        match family {
            Family::V4 => &self.v4,
            Family::V6 => &self.v6,
        }
    }

    /// Plans a cycle for a fetched policy. Each family's rule set is computed
    /// afresh from the block section and compared with that family's
    /// baseline alone. The state itself is left as it is.
    pub fn plan_cycle(&self, block: &BlockRules) -> (plan: CyclePlan)
        ensures
            rejection_views(plan.rejected@) == rejected(block_entries(*block)),
            plan.v4.current.family_of() == Family::V4,
            plan.v6.current.family_of() == Family::V6,
            plan.v4.current@ == accepted(block_entries(*block), Family::V4),
            plan.v6.current@ == accepted(block_entries(*block), Family::V6),
            plan.v4.diff.to_remove@ == self.baseline(Family::V4).difference(plan.v4.current@),
            plan.v4.diff.to_add@ == plan.v4.current@.difference(self.baseline(Family::V4)),
            plan.v6.diff.to_remove@ == self.baseline(Family::V6).difference(plan.v6.current@),
            plan.v6.diff.to_add@ == plan.v6.current@.difference(self.baseline(Family::V6)),
            plan.v4.diff.is_empty() <==> plan.v4.current@ == self.baseline(Family::V4),
            plan.v6.diff.is_empty() <==> plan.v6.current@ == self.baseline(Family::V6),
    {
        let flat = flatten(block);
        let d4 = diff(&self.v4, &flat.v4);
        let d6 = diff(&self.v6, &flat.v6);
        CyclePlan {
            rejected: flat.rejected,
            v4: FamilyPlan { current: flat.v4, diff: d4 },
            v6: FamilyPlan { current: flat.v6, diff: d6 },
        }
    }

    /// Ends a family's batch. Once every operation of the batch has been
    /// issued and answered, the batch's rule set becomes the baseline of its
    /// family, whether or not every operation succeeded, and the failures
    /// are handed back. A batch that is not through is handed back as it is,
    /// and the state is left alone.
    pub fn commit(&mut self, run: FamilyRun) -> (r: Result<Vec<ApplyFailure>, FamilyRun>)
        ensures
            r is Ok <==> run.applier.issued() == run.applier.plan().len(),
            r matches Ok(failed) ==> failure_views(failed@) == run.applier.failures()
                && final(self).baseline(run.current.family_of()) == run.current@,
            r matches Err(back) ==> back == run && final(self).baseline(run.current.family_of())
                == old(self).baseline(run.current.family_of()),
            forall|f: Family|
                f != run.current.family_of() ==> final(self).baseline(f) == old(self).baseline(f),
            final(self).wf(),
    {
        proof {
            use_type_invariant(&*self);
        }
        if !run.applier.is_done() {
            return Err(run);
        }
        let FamilyRun { current, applier } = run;
        let failed = applier.into_failed();
        self.advance(current);
        Ok(failed)
    }

    /// Makes `current` the baseline of its family, replacing the old one
    /// wholesale. The other family's baseline is left as it is.
    fn advance(&mut self, current: RuleSet)
        ensures
            final(self).baseline(current.family_of()) == current@,
            forall|f: Family|
                f != current.family_of() ==> final(self).baseline(f) == old(self).baseline(f),
            final(self).wf(),
    {
        proof {
            use_type_invariant(&*self);
        }
        match current.family() {
            Family::V4 => {
                self.v4 = current;
            },
            Family::V6 => {
                self.v6 = current;
            },
        }
    }
}

} // verus!
