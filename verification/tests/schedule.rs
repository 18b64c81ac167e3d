use dally_eval::ir::{Op, OpKind};
use dally_eval::schedule::{score, PartialSchedule, ProposalPolicy, SearchStep};

struct FixedMul;
impl ProposalPolicy for FixedMul {
    fn propose(&mut self, p: &PartialSchedule) -> Option<Op> {
        if p.ops.is_empty() {
            Some(Op { kind: OpKind::Mul, dst: 40, a: 1, b: 17, c: 1, imm: 0 })
        } else {
            None
        }
    }
    fn name(&self) -> &'static str {
        "fixed-mul"
    }
}

/// Never stops by itself, and counts how often it was asked.
struct Endless {
    asked: usize,
}
impl ProposalPolicy for Endless {
    fn propose(&mut self, p: &PartialSchedule) -> Option<Op> {
        assert_eq!(p.ops.len(), self.asked);
        self.asked += 1;
        Some(Op { kind: OpKind::Copy, dst: self.asked as u16, a: 4, b: 1, c: 1, imm: 0 })
    }
    fn name(&self) -> &'static str {
        "endless"
    }
}

#[test]
fn rollout_scores_one_mul() {
    let inputs: Vec<u16> = (1..=32).collect();
    let mut step = SearchStep { policy: FixedMul };
    let (prog, cost) = step.rollout(inputs, vec![40], 10);
    assert_eq!(prog.len(), 1);
    // mul reads addr 1 (cost 1) + addr 17 (cost 5) + output 40 (7)
    assert_eq!(cost, 1 + 5 + 7);
}

#[test]
fn rollout_stops_at_the_cap() {
    let mut step = SearchStep { policy: Endless { asked: 0 } };
    let (prog, cost) = step.rollout(vec![4, 300], vec![1], 6);
    assert_eq!(prog.len(), 6);
    assert_eq!(step.policy.asked, 7);
    assert_eq!(step.policy.name(), "endless");
    for i in 0..6 {
        assert_eq!(prog.op(i).dst as usize, i + 1);
    }
    assert_eq!(cost, 6 * 2 + 1);
    assert_eq!(score(&prog), cost);
    assert_eq!(prog.inputs, vec![4, 300]);
    assert_eq!(prog.outputs, vec![1]);
    assert_eq!(prog.max_addr, 300);
}

#[test]
fn pushing_uses_up_the_budget() {
    let op = Op { kind: OpKind::Not, dst: 2, a: 1, b: 1, c: 1, imm: 0 };
    let mut s = PartialSchedule::new(vec![1], 2);
    assert!(s.push(op));
    assert!(s.expand(Some(op)));
    assert!(!s.push(op));
    assert!(!s.expand(Some(op)));
    assert_eq!(s.ops.len(), 2);
    assert_eq!(s.budget, 0);
    let mut s = PartialSchedule::new(vec![1], 2);
    assert!(!s.expand(None));
    assert_eq!(s.budget, 2);
    let empty = PartialSchedule::default();
    assert_eq!((empty.ops.len(), empty.inputs.len(), empty.budget), (0, 0, 0));
}

#[test]
fn finishing_compiles_the_ops_in_order() {
    let first = Op { kind: OpKind::SetImm, dst: 9, a: 1, b: 1, c: 1, imm: 4 };
    let second = Op { kind: OpKind::Add, dst: 2, a: 9, b: 1, c: 1, imm: 0 };
    let mut s = PartialSchedule::new(vec![1], 5);
    s.push(first);
    s.push(second);
    let p = s.finish(vec![2]);
    assert_eq!(p.op(0), first);
    assert_eq!(p.op(1), second);
    assert_eq!(p.static_cost, 3 + 1 + 2);
    assert_eq!(p.max_addr, 9);
}

#[test]
fn a_huge_cap_is_fine_for_a_policy_that_stops() {
    let mut step = SearchStep { policy: FixedMul };
    let (prog, cost) = step.rollout(vec![1, 17], vec![40], usize::MAX);
    assert_eq!((prog.len(), cost), (1, 13));
}

#[test]
fn rollouts_of_one_policy_agree() {
    let mut a = SearchStep { policy: Endless { asked: 0 } };
    let mut b = SearchStep { policy: Endless { asked: 0 } };
    let (p, cost_p) = a.rollout(vec![4], vec![1], 5);
    let (q, cost_q) = b.rollout(vec![4], vec![1], 5);
    assert_eq!(cost_p, cost_q);
    for i in 0..5 {
        assert_eq!(p.op(i), q.op(i));
    }
    assert_eq!(a.policy.asked, b.policy.asked);
}
