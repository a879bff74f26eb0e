//! Applying a diff to the packet filter: stale entries are unbanned first,
//! new entries are banned after.
//!
//! The packet filter itself is outside this library. An `Applier` hands out
//! one operation at a time and takes back how it went; the caller performs
//! the operation in between. A failed operation is noted and the batch goes
//! on with the next one.

use crate::diff::RuleDiff;
use crate::network::{CanonicalNetwork, Cidr};
use vstd::prelude::*;

verus! {

/// What an operation does to the packet filter.
#[derive(Clone, Copy, Debug, PartialEq, Eq, Hash, Structural)]
pub enum OpKind {
    /// Remove the entry for a network.
    Unban,
    /// Insert an entry for a network.
    Ban,
}

/// One operation on the packet filter, keyed by network and prefix in the
/// table of the network's family.
#[derive(Clone, Copy, Debug, PartialEq, Eq, Hash, Structural)]
pub struct FirewallOp {
    pub kind: OpKind,
    pub network: CanonicalNetwork,
}

/// The mathematical model of an operation.
pub struct Op {
    pub kind: OpKind,
    pub network: Cidr,
}

impl View for FirewallOp {
    type V = Op;

    open spec fn view(&self) -> Op {
        Op { kind: self.kind, network: self.network@ }
    }
}

/// An operation that the packet filter refused, with the reason it gave.
#[derive(Debug)]
pub struct ApplyFailure {
    pub op: FirewallOp,
    pub cause: String,
}

/// What a list of failures says: operation and cause of each.
pub open spec fn failure_views(v: Seq<ApplyFailure>) -> Seq<(Op, Seq<char>)> {
    v.map_values(|f: ApplyFailure| (f.op@, f.cause@))
}

/// The operations that apply a diff, in order: one unban for each network to
/// remove, then one ban for each network to add.
pub open spec fn apply_plan(to_remove: Seq<Cidr>, to_add: Seq<Cidr>) -> Seq<Op> {
    to_remove.map_values(|c: Cidr| Op { kind: OpKind::Unban, network: c }) + to_add.map_values(
        |c: Cidr| Op { kind: OpKind::Ban, network: c },
    )
}

/// Apply ordering: in a plan every unban comes before every ban, each network
/// to remove is unbanned exactly once and each network to add is banned
/// exactly once.
pub proof fn lemma_plan_order(to_remove: Seq<Cidr>, to_add: Seq<Cidr>)
    ensures
        apply_plan(to_remove, to_add).len() == to_remove.len() + to_add.len(),
        forall|i: int|
            0 <= i < to_remove.len() ==> #[trigger] apply_plan(to_remove, to_add)[i] == (Op {
                kind: OpKind::Unban,
                network: to_remove[i],
            }),
        forall|j: int|
            0 <= j < to_add.len() ==> #[trigger] apply_plan(to_remove, to_add)[to_remove.len() + j]
                == (Op { kind: OpKind::Ban, network: to_add[j] }),
        forall|i: int, j: int|
            0 <= i < apply_plan(to_remove, to_add).len() && 0 <= j < apply_plan(
                to_remove,
                to_add,
            ).len() && (#[trigger] apply_plan(to_remove, to_add)[i]).kind == OpKind::Unban && (
            #[trigger] apply_plan(to_remove, to_add)[j]).kind == OpKind::Ban ==> i < j,
{
}

/// What an operation that succeeds does to the set of banned networks.
pub open spec fn effect(table: Set<Cidr>, op: Op) -> Set<Cidr> {
    match op.kind {
        OpKind::Unban => table.remove(op.network),
        OpKind::Ban => table.insert(op.network),
    }
}

/// What a sequence of operations that all succeed does to the set of banned
/// networks.
pub open spec fn effect_of_all(table: Set<Cidr>, ops: Seq<Op>) -> Set<Cidr>
    decreases ops.len(),
{
    if ops.len() == 0 {
        table
    } else {
        effect(effect_of_all(table, ops.drop_last()), ops.last())
    }
}

/// Unbanning a list of networks takes exactly those networks away.
proof fn lemma_unbans(table: Set<Cidr>, nets: Seq<Cidr>)
    ensures
        effect_of_all(table, apply_plan(nets, Seq::empty())) == table.difference(nets.to_set()),
    decreases nets.len(),
{
    let ops = apply_plan(nets, Seq::empty());
    if nets.len() == 0 {
        assert(table.difference(nets.to_set()) =~= table);
    } else {
        let init = nets.drop_last();
        lemma_unbans(table, init);
        assert(ops.drop_last() =~= apply_plan(init, Seq::empty()));
        assert(ops.last() == (Op { kind: OpKind::Unban, network: nets.last() }));
        assert forall|c: Cidr| nets.to_set().contains(c) == (init.to_set().contains(c) || c
            == nets.last()) by {
            if nets.to_set().contains(c) {
                let i = choose|i: int| 0 <= i < nets.len() && nets[i] == c;
                if i < init.len() {
                    assert(init[i] == c);
                }
            }
            if init.to_set().contains(c) {
                let i = choose|i: int| 0 <= i < init.len() && init[i] == c;
                assert(nets[i] == c);
            }
            if c == nets.last() {
                assert(nets[nets.len() - 1] == c);
            }
        }
        assert(table.difference(init.to_set()).remove(nets.last()) =~= table.difference(
            nets.to_set(),
        ));
    }
}

/// Banning a list of networks, after some operations, adds exactly those
/// networks to what the operations before have left.
proof fn lemma_bans(table: Set<Cidr>, first: Seq<Cidr>, nets: Seq<Cidr>)
    ensures
        effect_of_all(table, apply_plan(first, nets)) == effect_of_all(
            table,
            apply_plan(first, Seq::empty()),
        ).union(nets.to_set()),
    decreases nets.len(),
{
    let ops = apply_plan(first, nets);
    let base = effect_of_all(table, apply_plan(first, Seq::empty()));
    if nets.len() == 0 {
        assert(nets =~= Seq::empty());
        assert(base.union(nets.to_set()) =~= base);
    } else {
        let init = nets.drop_last();
        lemma_bans(table, first, init);
        assert(ops.drop_last() =~= apply_plan(first, init));
        assert(ops.last() == (Op { kind: OpKind::Ban, network: nets.last() }));
        assert forall|c: Cidr| nets.to_set().contains(c) == (init.to_set().contains(c) || c
            == nets.last()) by {
            if nets.to_set().contains(c) {
                let i = choose|i: int| 0 <= i < nets.len() && nets[i] == c;
                if i < init.len() {
                    assert(init[i] == c);
                }
            }
            if init.to_set().contains(c) {
                let i = choose|i: int| 0 <= i < init.len() && init[i] == c;
                assert(nets[i] == c);
            }
            if c == nets.last() {
                assert(nets[nets.len() - 1] == c);
            }
        }
        assert(base.union(init.to_set()).insert(nets.last()) =~= base.union(nets.to_set()));
    }
}

/// A plan whose operations all succeed takes the packet filter from the
/// previous rule set to the current one.
pub proof fn lemma_plan_reaches_current(
    previous: Set<Cidr>,
    current: Set<Cidr>,
    to_remove: Seq<Cidr>,
    to_add: Seq<Cidr>,
)
    requires
        to_remove.to_set() == previous.difference(current),
        to_add.to_set() == current.difference(previous),
    ensures
        effect_of_all(previous, apply_plan(to_remove, to_add)) == current,
{
    lemma_unbans(previous, to_remove);
    lemma_bans(previous, to_remove, to_add);
    assert(previous.difference(previous.difference(current)).union(current.difference(previous))
        =~= current);
}

/// The progress of one family's batch of operations.
#[derive(Debug)]
pub struct Applier {
    ops: Vec<FirewallOp>,
    done: usize,
    failed: Vec<ApplyFailure>,
}

impl Applier {
    /// The operations of the batch, in the order in which they are issued.
    pub closed spec fn plan(&self) -> Seq<Op> {
        self.ops@.map_values(|op: FirewallOp| op@)
    }

    /// How many operations of the plan have been issued and answered.
    pub closed spec fn issued(&self) -> int {
        self.done as int
    }

    /// The operations that failed so far, in order, each with its cause.
    pub closed spec fn failures(&self) -> Seq<(Op, Seq<char>)> {
        failure_views(self.failed@)
    }

    #[verifier::type_invariant]
    pub closed spec fn wf(self) -> bool {
        self.done <= self.ops@.len()
    }

    /// The batch for a diff: unbans of what is to be removed, then bans of
    /// what is to be added, each in the order of its rule set.
    pub fn new(diff: &RuleDiff) -> (r: Self)
        ensures
            r.plan() == apply_plan(diff.to_remove.members(), diff.to_add.members()),
            r.issued() == 0,
            r.failures() == Seq::<(Op, Seq<char>)>::empty(),
            r.wf(),
    {
        let mut ops: Vec<FirewallOp> = Vec::new();
        let removals = diff.to_remove.to_vec();
        let additions = diff.to_add.to_vec();
        let ghost rem = diff.to_remove.members();
        let ghost add = diff.to_add.members();
        let mut i: usize = 0;
        while i < removals.len()
            invariant
                i <= removals.len(),
                removals@.len() == rem.len(),
                forall|k: int| 0 <= k < removals@.len() ==> (#[trigger] removals@[k])@ == rem[k],
                ops@.len() == i,
                forall|k: int|
                    0 <= k < i ==> (#[trigger] ops@[k])@ == (Op {
                        kind: OpKind::Unban,
                        network: rem[k],
                    }),
            decreases removals.len() - i,
        {
            ops.push(FirewallOp { kind: OpKind::Unban, network: removals[i] });
            i += 1;
        }
        let mut j: usize = 0;
        while j < additions.len()
            invariant
                j <= additions.len(),
                additions@.len() == add.len(),
                forall|k: int| 0 <= k < additions@.len() ==> (#[trigger] additions@[k])@ == add[k],
                ops@.len() == rem.len() + j,
                forall|k: int|
                    0 <= k < rem.len() ==> (#[trigger] ops@[k])@ == (Op {
                        kind: OpKind::Unban,
                        network: rem[k],
                    }),
                forall|k: int|
                    0 <= k < j ==> (#[trigger] ops@[rem.len() + k])@ == (Op {
                        kind: OpKind::Ban,
                        network: add[k],
                    }),
            decreases additions.len() - j,
        {
            ops.push(FirewallOp { kind: OpKind::Ban, network: additions[j] });
            j += 1;
        }
        let r = Applier { ops, done: 0, failed: Vec::new() };
        proof {
            lemma_plan_order(rem, add);
            assert forall|k: int| 0 <= k < r.plan().len() implies r.plan()[k] == apply_plan(
                rem,
                add,
            )[k] by {
                if k >= rem.len() {
                    assert(r.ops@[rem.len() + (k - rem.len())]@ == apply_plan(rem, add)[rem.len()
                        + (k - rem.len())]);
                }
            }
            assert(r.plan() =~= apply_plan(rem, add));
            assert(r.failures() =~= Seq::<(Op, Seq<char>)>::empty());
        }
        r
    }

    /// The operation to perform next, or `None` once every operation of the
    /// plan has been issued and answered.
    pub fn next_op(&self) -> (r: Option<FirewallOp>)
        ensures
            0 <= self.issued() <= self.plan().len(),
            r matches Some(op) ==> self.issued() < self.plan().len() && op@
                == self.plan()[self.issued()],
            r is None <==> self.issued() == self.plan().len(),
    {
        proof {
            use_type_invariant(self);
        }
        if self.done < self.ops.len() {
            Some(self.ops[self.done])
        } else {
            None
        }
    }

    /// Whether every operation of the plan has been issued and answered.
    pub fn is_done(&self) -> (r: bool)
        ensures
            r == (self.issued() == self.plan().len()),
    {
        proof {
            use_type_invariant(self);
        }
        self.done >= self.ops.len()
    }

    /// Takes the answer to the operation that `next_op` handed out and moves
    /// on to the next one. A failure is noted with its cause and holds up
    /// nothing. Once the plan is through, an answer changes nothing.
    pub fn record(&mut self, outcome: Result<(), String>)
        ensures
            final(self).plan() == old(self).plan(),
            final(self).wf(),
            old(self).issued() < old(self).plan().len() ==> final(self).issued() == old(
                self,
            ).issued() + 1,
            old(self).issued() >= old(self).plan().len() ==> final(self).issued() == old(
                self,
            ).issued(),
            final(self).failures() == (match outcome {
                Err(cause) if old(self).issued() < old(self).plan().len() => old(
                    self,
                ).failures().push((old(self).plan()[old(self).issued()], cause@)),
                _ => old(self).failures(),
            }),
    {
        proof {
            use_type_invariant(&*self);
        }
        if self.done >= self.ops.len() {
            return ;
        }
        let op = self.ops[self.done];
        let ghost before = failure_views(self.failed@);
        let mut failed: Vec<ApplyFailure> = Vec::new();
        std::mem::swap(&mut failed, &mut self.failed);
        match outcome {
            Ok(_) => {},
            Err(cause) => {
                failed.push(ApplyFailure { op, cause });
                assert(failure_views(failed@) =~= before.push((op@, cause@)));
            },
        }
        self.failed = failed;
        self.done = self.done + 1;
    }

    /// Ends the batch and hands over the operations that failed, in order.
    pub fn into_failed(self) -> (r: Vec<ApplyFailure>)
        ensures
            failure_views(r@) == self.failures(),
    {
        self.failed
    }

    /// The operations that failed so far, in order.
    pub fn failed(&self) -> (r: &Vec<ApplyFailure>)
        ensures
            failure_views(r@) == self.failures(),
    {
        &self.failed
    }
}

} // verus!
