use moat::apply::{Applier, FirewallOp, OpKind};
use moat::diff::diff;
use moat::network::{normalize, CanonicalNetwork, Family};
use moat::policy::BlockRules;
use moat::ruleset::RuleSet;
use moat::state::{FamilyPlan, ReconciliationState};

fn net4(entry: &str) -> CanonicalNetwork {
    normalize(Family::V4, entry).unwrap()
}

fn set4(entries: &[&str]) -> RuleSet {
    let mut s = RuleSet::new(Family::V4);
    for e in entries {
        s.insert(net4(e));
    }
    s
}

fn block(ips: &[&str]) -> BlockRules {
    BlockRules { ips: ips.iter().map(|s| s.to_string()).collect(), country: vec![], asn: vec![] }
}

fn call(op: &FirewallOp) -> String {
    let verb = match op.kind {
        OpKind::Unban => "unban",
        OpKind::Ban => "ban",
    };
    let table = match op.network.family() {
        Family::V4 => "ipv4",
        Family::V6 => "ipv6",
    };
    format!("{}_{}({})", verb, table, op.network.to_text())
}

/// A packet filter that notes every call and refuses the networks it is
/// told to refuse.
struct Recorder {
    calls: Vec<String>,
    refuse: Vec<CanonicalNetwork>,
}

impl Recorder {
    fn new(refuse: Vec<CanonicalNetwork>) -> Self {
        Recorder { calls: Vec::new(), refuse }
    }

    fn perform(&mut self, op: &FirewallOp) -> Result<(), String> {
        self.calls.push(call(op));
        if self.refuse.contains(&op.network) {
            Err(format!("table refused {}", op.network.to_text()))
        } else {
            Ok(())
        }
    }

    fn run(&mut self, applier: &mut Applier) {
        while let Some(op) = applier.next_op() {
            let outcome = self.perform(&op);
            applier.record(outcome);
        }
    }
}

fn apply(state: &mut ReconciliationState, fw: &mut Recorder, plan: FamilyPlan) -> usize {
    let mut run = plan.start();
    fw.run(&mut run.applier);
    state.commit(run).unwrap().len()
}

#[test]
fn unban_comes_strictly_before_ban() {
    let d = diff(&set4(&["10.0.0.0/16"]), &set4(&["10.0.1.0/24"]));
    let mut applier = Applier::new(&d);
    let mut fw = Recorder::new(vec![]);
    fw.run(&mut applier);
    assert_eq!(fw.calls, vec!["unban_ipv4(10.0.0.0/16)", "ban_ipv4(10.0.1.0/24)"]);
    assert!(applier.is_done());
    assert!(applier.failed().is_empty());
}

#[test]
fn all_removals_precede_all_additions() {
    let previous = set4(&["9.0.0.0/8", "1.0.0.0/8", "5.0.0.0/8", "7.0.0.0/8"]);
    let current = set4(&["8.0.0.0/8", "5.0.0.0/8", "0.0.0.0/8", "2.0.0.0/8"]);
    let mut applier = Applier::new(&diff(&previous, &current));
    let mut fw = Recorder::new(vec![]);
    fw.run(&mut applier);
    assert_eq!(
        fw.calls,
        vec![
            "unban_ipv4(1.0.0.0/8)",
            "unban_ipv4(7.0.0.0/8)",
            "unban_ipv4(9.0.0.0/8)",
            "ban_ipv4(0.0.0.0/8)",
            "ban_ipv4(2.0.0.0/8)",
            "ban_ipv4(8.0.0.0/8)",
        ]
    );
}

#[test]
fn empty_diff_issues_no_call() {
    let same = diff(&set4(&["1.1.1.1", "2.2.2.2"]), &set4(&["2.2.2.2", "1.1.1.1"]));
    assert!(same.unchanged());
    let mut applier = Applier::new(&same);
    assert!(applier.is_done());
    assert_eq!(applier.next_op(), None);
    let mut fw = Recorder::new(vec![]);
    fw.run(&mut applier);
    assert!(fw.calls.is_empty());
}

#[test]
fn one_failed_ban_does_not_stop_the_batch() {
    let d = diff(&RuleSet::new(Family::V4), &set4(&["1.1.1.1", "2.2.2.2", "3.3.3.3"]));
    let mut applier = Applier::new(&d);
    let mut fw = Recorder::new(vec![net4("2.2.2.2")]);
    fw.run(&mut applier);
    assert_eq!(
        fw.calls,
        vec!["ban_ipv4(1.1.1.1/32)", "ban_ipv4(2.2.2.2/32)", "ban_ipv4(3.3.3.3/32)"]
    );
    assert!(applier.is_done());
    let failed = applier.failed();
    assert_eq!(failed.len(), 1);
    assert_eq!(failed[0].op.kind, OpKind::Ban);
    assert_eq!(failed[0].op.network, net4("2.2.2.2"));
    assert_eq!(failed[0].cause, "table refused 2.2.2.2/32");
}

#[test]
fn a_failed_unban_still_lets_the_bans_run() {
    let d = diff(&set4(&["1.1.1.1", "2.2.2.2"]), &set4(&["3.3.3.3"]));
    let mut applier = Applier::new(&d);
    let mut fw = Recorder::new(vec![net4("1.1.1.1"), net4("3.3.3.3")]);
    fw.run(&mut applier);
    assert_eq!(
        fw.calls,
        vec!["unban_ipv4(1.1.1.1/32)", "unban_ipv4(2.2.2.2/32)", "ban_ipv4(3.3.3.3/32)"]
    );
    let kinds: Vec<OpKind> = applier.failed().iter().map(|f| f.op.kind).collect();
    assert_eq!(kinds, vec![OpKind::Unban, OpKind::Ban]);
}

#[test]
fn an_answer_after_the_end_changes_nothing() {
    let d = diff(&RuleSet::new(Family::V4), &set4(&["1.1.1.1"]));
    let mut applier = Applier::new(&d);
    applier.record(Ok(()));
    assert!(applier.is_done());
    applier.record(Err("late".to_string()));
    assert!(applier.is_done());
    assert!(applier.failed().is_empty());
    assert_eq!(applier.next_op(), None);
}

#[test]
fn the_next_operation_stays_until_it_is_answered() {
    let d = diff(&RuleSet::new(Family::V4), &set4(&["1.1.1.1", "2.2.2.2"]));
    let mut applier = Applier::new(&d);
    let first = applier.next_op();
    assert_eq!(first, applier.next_op());
    assert_eq!(first.map(|op| op.network), Some(net4("1.1.1.1")));
    applier.record(Err("no".to_string()));
    assert_eq!(applier.next_op().map(|op| op.network), Some(net4("2.2.2.2")));
    assert!(!applier.is_done());
}

#[test]
fn two_cycles_narrow_a_ban() {
    let mut state = ReconciliationState::new();
    let mut fw = Recorder::new(vec![]);

    let plan = state.plan_cycle(&block(&["1.2.3.0/24"]));
    assert!(!plan.nothing_to_do());
    assert!(plan.v6.diff.unchanged());
    assert_eq!(apply(&mut state, &mut fw, plan.v4), 0);
    assert_eq!(apply(&mut state, &mut fw, plan.v6), 0);
    assert_eq!(fw.calls, vec!["ban_ipv4(1.2.3.0/24)"]);
    assert!(state.applied(Family::V4).same_members(&set4(&["1.2.3.0/24"])));
    assert!(state.applied(Family::V6).is_empty());

    fw.calls.clear();
    let plan = state.plan_cycle(&block(&["1.2.3.0/25"]));
    assert_eq!(apply(&mut state, &mut fw, plan.v4), 0);
    assert_eq!(apply(&mut state, &mut fw, plan.v6), 0);
    assert_eq!(fw.calls, vec!["unban_ipv4(1.2.3.0/24)", "ban_ipv4(1.2.3.0/25)"]);
    assert!(state.applied(Family::V4).same_members(&set4(&["1.2.3.0/25"])));
}

#[test]
fn an_unchanged_policy_plans_nothing() {
    let mut state = ReconciliationState::new();
    let mut fw = Recorder::new(vec![]);
    let first = state.plan_cycle(&block(&["1.2.3.0/24", "2001:db8::/32"]));
    apply(&mut state, &mut fw, first.v4);
    apply(&mut state, &mut fw, first.v6);
    fw.calls.clear();
    let again = state.plan_cycle(&block(&["2001:db8::1/32", " 1.2.3.9/24"]));
    assert!(again.nothing_to_do());
    let run4 = again.v4.start();
    let run6 = again.v6.start();
    assert!(run4.applier.is_done());
    assert!(run6.applier.is_done());
    assert_eq!(run4.applier.next_op(), None);
    assert!(state.commit(run4).is_ok());
    assert!(state.commit(run6).is_ok());
    assert!(fw.calls.is_empty());
    assert_eq!(state.applied(Family::V4).len(), 1);
    assert_eq!(state.applied(Family::V6).len(), 1);
}

#[test]
fn families_are_planned_independently() {
    let mut state = ReconciliationState::new();
    let mut fw = Recorder::new(vec![]);
    let first = state.plan_cycle(&block(&["1.2.3.0/24", "2001:db8::/32"]));
    apply(&mut state, &mut fw, first.v4);
    apply(&mut state, &mut fw, first.v6);
    fw.calls.clear();
    let next = state.plan_cycle(&block(&["1.2.3.0/24", "2001:db8::/33"]));
    assert!(!next.nothing_to_do());
    assert!(next.v4.diff.unchanged());
    assert!(!next.v6.diff.unchanged());
    apply(&mut state, &mut fw, next.v4);
    assert!(fw.calls.is_empty());
    apply(&mut state, &mut fw, next.v6);
    assert_eq!(fw.calls, vec!["unban_ipv6(2001:db8::/32)", "ban_ipv6(2001:db8::/33)"]);
    assert!(state.applied(Family::V4).same_members(&set4(&["1.2.3.0/24"])));
    assert_eq!(state.applied(Family::V6).len(), 1);
}

#[test]
fn the_baseline_advances_even_if_an_operation_failed() {
    let mut state = ReconciliationState::new();
    let plan = state.plan_cycle(&block(&["1.1.1.1", "2.2.2.2", "3.3.3.3"]));
    let mut fw = Recorder::new(vec![net4("2.2.2.2")]);
    let mut run = plan.v4.start();
    fw.run(&mut run.applier);
    let failed = state.commit(run).unwrap();
    assert_eq!(failed.len(), 1);
    assert_eq!(failed[0].op.network, net4("2.2.2.2"));
    assert_eq!(fw.calls.len(), 3);
    assert!(state.applied(Family::V4).contains(&net4("2.2.2.2")));
    let again = state.plan_cycle(&block(&["1.1.1.1", "2.2.2.2", "3.3.3.3"]));
    assert!(again.nothing_to_do());
}

#[test]
fn a_batch_that_is_not_through_cannot_be_committed() {
    let mut state = ReconciliationState::new();
    let plan = state.plan_cycle(&block(&["1.1.1.1", "2.2.2.2"]));
    let mut run = plan.v4.start();
    run.applier.record(Ok(()));
    let back = state.commit(run).unwrap_err();
    assert!(state.applied(Family::V4).is_empty());
    assert_eq!(back.applier.next_op().map(|op| op.network), Some(net4("2.2.2.2")));
    let mut run = back;
    run.applier.record(Err("refused".to_string()));
    assert_eq!(state.commit(run).unwrap().len(), 1);
    assert_eq!(state.applied(Family::V4).len(), 2);
}

#[test]
fn planning_leaves_the_state_alone() {
    let state = ReconciliationState::new();
    let plan = state.plan_cycle(&block(&["1.1.1.1", "bogus"]));
    assert_eq!(plan.rejected.len(), 1);
    assert_eq!(plan.rejected[0].raw, "bogus");
    assert_eq!(plan.v4.current.len(), 1);
    assert!(state.applied(Family::V4).is_empty());
    assert!(state.applied(Family::V6).is_empty());
}
