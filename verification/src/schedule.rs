//! Schedules under construction by a search planner, and their exact
//! score.
//!
//! A search node is a partial schedule (a prefix of IR ops). Expansion
//! appends a legal op; evaluation scores the completed program's static
//! cost (the search signal). The trait below lets a planner plug any
//! proposal policy while this library stays the sole scorer - single
//! source of truth for cost.

use crate::ir::{
    cells_price, lemma_cells_price_bound, lemma_ops_price_bound, ops_price, ops_top, Op, Program,
};
use vstd::prelude::*;

verus! {

/// A partial schedule under construction.
#[derive(Clone, Debug)]
pub struct PartialSchedule {
    pub ops: Vec<Op>,
    /// inputs already declared (address list)
    pub inputs: Vec<u16>,
    /// remaining budget (op cap)
    pub budget: usize,
}

impl Default for PartialSchedule {
    /// A schedule without instructions or inputs, and without budget.
    fn default() -> (s: PartialSchedule)
        ensures
            s.ops@ == Seq::<Op>::empty(),
            s.inputs@ == Seq::<u16>::empty(),
            s.budget == 0,
    {
        PartialSchedule { ops: Vec::new(), inputs: Vec::new(), budget: 0 }
    }
}

/// Every instruction of a schedule is legal: the cells it reads have
/// 1-based addresses.
pub open spec fn all_legal(ops: Seq<Op>) -> bool {
    forall|i: int| 0 <= i < ops.len() ==> (#[trigger] ops[i]).priceable()
}

/// Every listed address is 1-based.
pub open spec fn all_one_based(addrs: Seq<u16>) -> bool {
    forall|i: int| 0 <= i < addrs.len() ==> (#[trigger] addrs[i]) >= 1
}

/// The first instructions of a schedule cost no more than all of them.
proof fn lemma_ops_price_prefix(ops: Seq<Op>, k: int)
    requires
        0 <= k <= ops.len(),
    ensures
        ops_price(ops.take(k)) <= ops_price(ops),
    decreases ops.len() - k,
{
    if k < ops.len() {
        assert(ops.take(k + 1).drop_last() =~= ops.take(k));
        lemma_ops_price_prefix(ops, k + 1);
    } else {
        assert(ops.take(k) =~= ops);
    }
}

impl PartialSchedule {
    /// An empty schedule that may grow to `op_cap` instructions.
    pub fn new(inputs: Vec<u16>, op_cap: usize) -> (s: Self)
        ensures
            s.ops@ == Seq::<Op>::empty(),
            s.inputs == inputs,
            s.budget == op_cap,
    {
        PartialSchedule { ops: Vec::new(), inputs, budget: op_cap }
    }

    /// Append an op if budget allows; returns false when the schedule
    /// is complete (budget exhausted).
    pub fn push(&mut self, op: Op) -> (pushed: bool)
        ensures
            pushed == (old(self).budget > 0),
            final(self).inputs == old(self).inputs,
            pushed ==> final(self).ops@ == old(self).ops@.push(op) && final(self).budget
                == old(self).budget - 1,
            !pushed ==> *final(self) == *old(self),
    {
        if self.budget == 0 {
            return false;
        }
        self.ops.push(op);
        self.budget = self.budget - 1;
        true
    }

    /// Expand by what a policy proposed; returns false when the schedule
    /// is complete: the policy had nothing to propose, or the budget is
    /// exhausted.
    pub fn expand(&mut self, proposal: Option<Op>) -> (expanded: bool)
        ensures
            expanded == (proposal is Some && old(self).budget > 0),
            final(self).inputs == old(self).inputs,
            expanded ==> final(self).ops@ == old(self).ops@.push(proposal->0)
                && final(self).budget == old(self).budget - 1,
            !expanded ==> *final(self) == *old(self),
    {
        match proposal {
            Some(op) => self.push(op),
            None => false,
        }
    }

    /// Compile to a runnable Program with the given outputs.
    pub fn finish(self, outputs: Vec<u16>) -> (p: Program)
        requires
            all_legal(self.ops@),
            all_one_based(outputs@),
            ops_price(self.ops@) + cells_price(outputs@) <= u64::MAX,
        ensures
            p.finalized(),
            p.ops() == self.ops@,
            p.inputs == self.inputs,
            p.outputs == outputs,
    {
        let mut p = Program::default();
        let n: usize = self.ops.len();
        for i in 0..n
            invariant
                n == self.ops@.len(),
                all_legal(self.ops@),
                ops_price(self.ops@) <= u64::MAX,
                p.wf(),
                p.ops() == self.ops@.take(i as int),
                p.static_cost == ops_price(self.ops@.take(i as int)),
                p.max_addr == ops_top(self.ops@.take(i as int)),
        {
            let op: Op = self.ops[i];
            proof {
                lemma_ops_price_prefix(self.ops@, i + 1);
                assert(self.ops@.take(i + 1).drop_last() =~= self.ops@.take(i as int));
                assert(self.ops@.take(i + 1) =~= self.ops@.take(i as int).push(op));
            }
            p.push(op);
        }
        assert(self.ops@.take(n as int) =~= self.ops@);
        p.inputs = self.inputs;
        p.outputs = outputs;
        assert(p.ops() =~= self.ops@);
        p.finalize();
        p
    }
}

/// The search's proposal policy: given a partial schedule, propose the
/// next op. Implemented by the planner; this library provides the
/// interface and the exact scorer.
pub trait ProposalPolicy: Sized {
    /// This policy, asked about a schedule with these ops, inputs and
    /// budget, may answer `r` and turn into `next`. A policy that does
    /// not say may answer anything.
    open spec fn answers(
        self,
        ops: Seq<Op>,
        inputs: Seq<u16>,
        budget: nat,
        r: Option<Op>,
        next: Self,
    ) -> bool {
        true
    }

    /// The next op, which must be legal, or nothing to stop.
    fn propose(&mut self, partial: &PartialSchedule) -> (r: Option<Op>)
        ensures
            r matches Some(op) ==> op.priceable(),
            (*old(self)).answers(
                partial.ops@,
                partial.inputs@,
                partial.budget as nat,
                r,
                *final(self),
            ),
    ;

    fn name(&self) -> &'static str;
}

/// `ops` are the answers that a policy gave one after the other, each to
/// the schedule of the answers before it, as it went through the states
/// `trail`.
pub open spec fn proposed<P: ProposalPolicy>(
    trail: Seq<P>,
    ops: Seq<Op>,
    inputs: Seq<u16>,
    op_cap: nat,
) -> bool {
    &&& trail.len() == ops.len() + 1
    &&& ops.len() <= op_cap
    &&& forall|i: int|
        0 <= i < ops.len() ==> (#[trigger] trail[i]).answers(
            ops.take(i),
            inputs,
            (op_cap - i) as nat,
            Some(ops[i]),
            trail[i + 1],
        )
}

/// A policy that started as `first` and ended as `last` rolled out the
/// schedule `ops`: it proposed them one after the other, and asked once
/// more it stopped, or was stopped by the cap.
pub open spec fn rolled_out<P: ProposalPolicy>(
    first: P,
    last: P,
    ops: Seq<Op>,
    inputs: Seq<u16>,
    op_cap: nat,
) -> bool {
    exists|trail: Seq<P>, answer: Option<Op>|
        {
            &&& #[trigger] proposed(trail, ops, inputs, op_cap)
            &&& trail[0] == first
            &&& #[trigger] trail.last().answers(
                ops,
                inputs,
                (op_cap - ops.len()) as nat,
                answer,
                last,
            )
            &&& answer is None || ops.len() == op_cap
        }
}

/// Under a cap that is not huge, whatever a policy rolls out has a cost
/// that fits 64 bits.
pub proof fn lemma_capped_rollout_fits<P: ProposalPolicy>(
    first: P,
    inputs: Seq<u16>,
    outputs: Seq<u16>,
    op_cap: nat,
)
    requires
        op_cap * 768 + outputs.len() * 256 <= u64::MAX,
    ensures
        forall|last: P, ops: Seq<Op>| #[trigger]
            rolled_out(first, last, ops, inputs, op_cap) && all_legal(ops) ==> ops_price(ops)
                + cells_price(outputs) <= u64::MAX,
{
    assert forall|last: P, ops: Seq<Op>| #[trigger]
        rolled_out(first, last, ops, inputs, op_cap) && all_legal(ops) implies ops_price(ops)
        + cells_price(outputs) <= u64::MAX by {
        lemma_ops_price_bound(ops);
        lemma_cells_price_bound(outputs);
    }
}

/// A policy whose every answer, and what it turns into, is determined by
/// what it is asked.
pub open spec fn deterministic<P: ProposalPolicy>() -> bool {
    forall|
        p: P,
        ops: Seq<Op>,
        inputs: Seq<u16>,
        budget: nat,
        r: Option<Op>,
        s: Option<Op>,
        x: P,
        y: P,
    |
        #[trigger] p.answers(ops, inputs, budget, r, x) && #[trigger] p.answers(
            ops,
            inputs,
            budget,
            s,
            y,
        ) ==> r == s && x == y
}

/// What a determined policy was in, and what it proposed, after `k`
/// answers does not depend on the rollout.
proof fn lemma_same_trail<P: ProposalPolicy>(
    t1: Seq<P>,
    ops1: Seq<Op>,
    t2: Seq<P>,
    ops2: Seq<Op>,
    inputs: Seq<u16>,
    op_cap: nat,
    k: int,
)
    requires
        deterministic::<P>(),
        proposed(t1, ops1, inputs, op_cap),
        proposed(t2, ops2, inputs, op_cap),
        t1[0] == t2[0],
        0 <= k <= ops1.len(),
        k <= ops2.len(),
    ensures
        t1[k] == t2[k],
        ops1.take(k) == ops2.take(k),
    decreases k,
{
    if k > 0 {
        lemma_same_trail(t1, ops1, t2, ops2, inputs, op_cap, k - 1);
        let i = k - 1;
        let budget = (op_cap - i) as nat;
        assert(t1[i].answers(ops1.take(i), inputs, budget, Some(ops1[i]), t1[i + 1]));
        assert(t2[i].answers(ops2.take(i), inputs, budget, Some(ops2[i]), t2[i + 1]));
        assert(ops1.take(k) =~= ops1.take(i).push(ops1[i]));
        assert(ops2.take(k) =~= ops2.take(i).push(ops2[i]));
    } else {
        assert(ops1.take(0) =~= ops2.take(0));
    }
}

/// A rollout does not stop short: of two rollouts of a determined policy,
/// the one with fewer ops would have had to go on.
proof fn lemma_no_shorter<P: ProposalPolicy>(
    first: P,
    last1: P,
    ops1: Seq<Op>,
    last2: P,
    ops2: Seq<Op>,
    inputs: Seq<u16>,
    op_cap: nat,
)
    requires
        deterministic::<P>(),
        rolled_out(first, last1, ops1, inputs, op_cap),
        rolled_out(first, last2, ops2, inputs, op_cap),
        ops1.len() <= ops2.len(),
    ensures
        ops1 == ops2,
        last1 == last2,
{
    let (t1, a1) = choose|trail: Seq<P>, answer: Option<Op>|
        {
            &&& #[trigger] proposed(trail, ops1, inputs, op_cap)
            &&& trail[0] == first
            &&& #[trigger] trail.last().answers(
                ops1,
                inputs,
                (op_cap - ops1.len()) as nat,
                answer,
                last1,
            )
            &&& answer is None || ops1.len() == op_cap
        };
    let (t2, a2) = choose|trail: Seq<P>, answer: Option<Op>|
        {
            &&& #[trigger] proposed(trail, ops2, inputs, op_cap)
            &&& trail[0] == first
            &&& #[trigger] trail.last().answers(
                ops2,
                inputs,
                (op_cap - ops2.len()) as nat,
                answer,
                last2,
            )
            &&& answer is None || ops2.len() == op_cap
        };
    let k = ops1.len() as int;
    lemma_same_trail(t1, ops1, t2, ops2, inputs, op_cap, k);
    assert(ops1.take(k) =~= ops1);
    if ops2.len() > k {
        assert(t2[k].answers(
            ops2.take(k),
            inputs,
            (op_cap - k) as nat,
            Some(ops2[k]),
            t2[k + 1],
        ));
    } else {
        assert(ops2.take(k) =~= ops2);
    }
}

/// The rollout of a determined policy is determined: its ops are the
/// policy's proposals, in order, up to the first time it has none or up
/// to the cap, whichever comes first, and no others.
pub proof fn law_rollout_is_determined<P: ProposalPolicy>(
    first: P,
    last1: P,
    ops1: Seq<Op>,
    last2: P,
    ops2: Seq<Op>,
    inputs: Seq<u16>,
    op_cap: nat,
)
    requires
        deterministic::<P>(),
        rolled_out(first, last1, ops1, inputs, op_cap),
        rolled_out(first, last2, ops2, inputs, op_cap),
    ensures
        ops1 == ops2,
        last1 == last2,
{
    if ops1.len() <= ops2.len() {
        lemma_no_shorter(first, last1, ops1, last2, ops2, inputs, op_cap);
    } else {
        lemma_no_shorter(first, last2, ops2, last1, ops1, inputs, op_cap);
    }
}

/// A rollout is a dialogue with the policy: at each turn the policy, as it
/// was left by the turn before, is asked about the ops that it proposed so
/// far and the budget that these leave, and answers with the next op. It
/// ends at the first turn without an answer, or at the first without
/// budget, and at no other.
pub proof fn law_rollout_is_a_dialogue<P: ProposalPolicy>(
    first: P,
    last: P,
    ops: Seq<Op>,
    inputs: Seq<u16>,
    op_cap: nat,
) -> (r: (Seq<P>, Option<Op>))
    requires
        rolled_out(first, last, ops, inputs, op_cap),
    ensures
        ops.len() <= op_cap,
        r.0.len() == ops.len() + 1,
        r.0[0] == first,
        forall|i: int|
            0 <= i < ops.len() ==> (#[trigger] r.0[i]).answers(
                ops.take(i),
                inputs,
                (op_cap - i) as nat,
                Some(ops[i]),
                r.0[i + 1],
            ),
        r.0[ops.len() as int].answers(ops, inputs, (op_cap - ops.len()) as nat, r.1, last),
        r.1 is None || ops.len() == op_cap,
{
    choose|trail: Seq<P>, answer: Option<Op>|
        {
            &&& #[trigger] proposed(trail, ops, inputs, op_cap)
            &&& trail[0] == first
            &&& #[trigger] trail.last().answers(
                ops,
                inputs,
                (op_cap - ops.len()) as nat,
                answer,
                last,
            )
            &&& answer is None || ops.len() == op_cap
        }
}

/// Exact score of a completed schedule: its static read cost.
pub fn score(program: &Program) -> (cost: u64)
    ensures
        cost == program.static_cost,
        program.finalized() ==> cost == ops_price(program.ops()) + cells_price(program.outputs@),
{
    program.static_cost
}

/// One search driver: expand via the policy, score when complete.
pub struct SearchStep<P: ProposalPolicy> {
    pub policy: P,
}

impl<P: ProposalPolicy> SearchStep<P> {
    /// Roll out a full schedule and return (program, cost): ask the
    /// policy for one op after the other until it has none or the cap is
    /// reached, then compile and score. Whatever the policy may roll out
    /// must have a cost that fits 64 bits; [`lemma_capped_rollout_fits`]
    /// gives that for any policy under a cap that is not huge.
    pub fn rollout(&mut self, inputs: Vec<u16>, outputs: Vec<u16>, op_cap: usize) -> (r: (
        Program,
        u64,
    ))
        requires
            all_one_based(outputs@),
            forall|last: P, ops: Seq<Op>| #[trigger]
                rolled_out(old(self).policy, last, ops, inputs@, op_cap as nat) && all_legal(ops)
                    ==> ops_price(ops) + cells_price(outputs@) <= u64::MAX,
        ensures
            r.0.finalized(),
            rolled_out(
                old(self).policy,
                final(self).policy,
                r.0.ops(),
                inputs@,
                op_cap as nat,
            ),
            r.0.ops().len() <= op_cap,
            all_legal(r.0.ops()),
            r.0.inputs == inputs,
            r.0.outputs == outputs,
            r.1 == ops_price(r.0.ops()) + cells_price(outputs@),
    {
        let mut partial = PartialSchedule::new(inputs, op_cap);
        let ghost mut trail: Seq<P> = seq![self.policy];
        let ghost mut answer: Option<Op> = None;
        loop
            invariant_except_break
                trail.last() == self.policy,
            invariant
                all_legal(partial.ops@),
                partial.ops@.len() + partial.budget == op_cap,
                partial.inputs == inputs,
                proposed(trail, partial.ops@, inputs@, op_cap as nat),
                trail[0] == old(self).policy,
            ensures
                trail.last().answers(
                    partial.ops@,
                    inputs@,
                    partial.budget as nat,
                    answer,
                    self.policy,
                ),
                answer is None || partial.budget == 0,
            decreases partial.budget,
        {
            let ghost before = partial.ops@;
            let proposal = self.policy.propose(&partial);
            proof {
                answer = proposal;
            }
            if !partial.expand(proposal) {
                break;
            }
            proof {
                let longer = trail.push(self.policy);
                assert forall|i: int| 0 <= i < partial.ops@.len() implies (
                #[trigger] longer[i]).answers(
                    partial.ops@.take(i),
                    inputs@,
                    (op_cap - i) as nat,
                    Some(partial.ops@[i]),
                    longer[i + 1],
                ) by {
                    if i < before.len() {
                        assert(longer[i] == trail[i]);
                        assert(longer[i + 1] == trail[i + 1]);
                        assert(partial.ops@.take(i) =~= before.take(i));
                    } else {
                        assert(partial.ops@.take(i) =~= before);
                    }
                }
                trail = longer;
            }
        }
        proof {
            assert(proposed(trail, partial.ops@, inputs@, op_cap as nat));
            assert(trail.last().answers(
                partial.ops@,
                inputs@,
                (op_cap as nat - partial.ops@.len()) as nat,
                answer,
                self.policy,
            ));
            assert(rolled_out(
                old(self).policy,
                self.policy,
                partial.ops@,
                inputs@,
                op_cap as nat,
            ));
        }
        let program = partial.finish(outputs);
        let cost: u64 = score(&program);
        (program, cost)
    }
}

} // verus!
