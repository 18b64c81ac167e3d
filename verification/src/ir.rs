//! 3-address instruction representation.
//!
//! Storage is structure-of-arrays: parallel vectors of opcodes,
//! destinations and operands, which keeps the interpreter's hot loop
//! cache-friendly and gives GPU backends flat buffers to upload
//! unchanged.

use crate::cost::{cost, distance, lemma_distance_exists};
use vstd::prelude::*;

verus! {

#[derive(Clone, Copy, Debug, PartialEq, Eq, Structural)]
pub enum OpKind {
    SetImm,
    Copy,
    Not,
    Abs,
    And,
    Or,
    Xor,
    Add,
    Sub,
    Mul,
    Div,
    CmpEq,
    CmpNe,
    CmpLt,
    CmpLe,
    CmpGt,
    CmpGe,
    Select,
}

impl OpKind {
    /// How many cells an instruction of this kind reads: the first
    /// `arity` of the operands `a`, `b`, `c`.
    pub open spec fn arity(self) -> nat {
        match self {
            OpKind::SetImm => 0,
            OpKind::Copy | OpKind::Not | OpKind::Abs => 1,
            OpKind::Select => 3,
            _ => 2,
        }
    }
}

/// One instruction. `a`/`b` are cell operands; `select` additionally
/// uses `c` (`select dst, a, b, c` = `a != 0 ? b : c`); `set` uses
/// `imm`. Unused fields are inert (never priced, never read).
#[derive(Clone, Copy, Debug, PartialEq, Eq, Structural)]
pub struct Op {
    pub kind: OpKind,
    pub dst: u16,
    pub a: u16,
    pub b: u16,
    pub c: u16,
    pub imm: u8,
}

/// Price of reading the cell at `addr`.
pub open spec fn price(addr: u16) -> nat {
    distance(addr as nat)
}

/// The larger of two addresses.
pub open spec fn larger(x: u16, y: u16) -> u16 {
    if x >= y {
        x
    } else {
        y
    }
}

impl Op {
    /// Sum of the prices of the cells this instruction reads.
    pub open spec fn reads_price(self) -> nat {
        (if self.kind.arity() >= 1 {
            price(self.a)
        } else {
            0
        }) + (if self.kind.arity() >= 2 {
            price(self.b)
        } else {
            0
        }) + (if self.kind.arity() >= 3 {
            price(self.c)
        } else {
            0
        })
    }

    /// Every cell this instruction reads has a 1-based address, so it
    /// can be priced.
    pub open spec fn priceable(self) -> bool {
        &&& self.kind.arity() >= 1 ==> self.a >= 1
        &&& self.kind.arity() >= 2 ==> self.b >= 1
        &&& self.kind.arity() >= 3 ==> self.c >= 1
    }

    /// Every cell this instruction reads or writes lies below `limit`.
    pub open spec fn within(self, limit: nat) -> bool {
        &&& self.dst < limit
        &&& self.kind.arity() >= 1 ==> self.a < limit
        &&& self.kind.arity() >= 2 ==> self.b < limit
        &&& self.kind.arity() >= 3 ==> self.c < limit
    }

    /// Highest address this instruction touches: its destination and the
    /// cells it reads.
    pub open spec fn top_addr(self) -> u16 {
        let with_a = if self.kind.arity() >= 1 {
            larger(self.dst, self.a)
        } else {
            self.dst
        };
        let with_b = if self.kind.arity() >= 2 {
            larger(with_a, self.b)
        } else {
            with_a
        };
        if self.kind.arity() >= 3 {
            larger(with_b, self.c)
        } else {
            with_b
        }
    }

    /// How many cells this instruction reads: the first of its operands
    /// `a`, `b`, `c`.
    fn read_count(&self) -> (n: usize)
        ensures
            n == self.kind.arity(),
    {
        match self.kind {
            OpKind::SetImm => 0,
            OpKind::Copy | OpKind::Not | OpKind::Abs => 1,
            OpKind::Select => 3,
            _ => 2,
        }
    }

    /// Read cost of this instruction's operand fetches: every cell
    /// operand is charged its distance; the `set` immediate is free.
    pub fn read_cost(&self) -> (r: u64)
        requires
            self.priceable(),
        ensures
            r == self.reads_price(),
            r <= 768,
    {
        match self.kind {
            OpKind::SetImm => 0,
            OpKind::Copy | OpKind::Not | OpKind::Abs => cost(self.a as u32),
            OpKind::And
            | OpKind::Or
            | OpKind::Xor
            | OpKind::Add
            | OpKind::Sub
            | OpKind::Mul
            | OpKind::Div => cost(self.a as u32) + cost(self.b as u32),
            OpKind::CmpEq
            | OpKind::CmpNe
            | OpKind::CmpLt
            | OpKind::CmpLe
            | OpKind::CmpGt
            | OpKind::CmpGe => cost(self.a as u32) + cost(self.b as u32),
            OpKind::Select => cost(self.a as u32) + cost(self.b as u32) + cost(self.c as u32),
        }
    }
}

impl Op {
    /// Whether every cell this instruction reads or writes lies below
    /// `limit`.
    pub fn is_within(&self, limit: usize) -> (b: bool)
        ensures
            b == self.within(limit as nat),
    {
        let reads: usize = self.read_count();
        (self.dst as usize) < limit && (reads < 1 || (self.a as usize) < limit) && (reads < 2 || (
        self.b as usize) < limit) && (reads < 3 || (self.c as usize) < limit)
    }
}

/// Whether every listed address lies below `limit`.
fn all_below(addrs: &Vec<u16>, limit: usize) -> (b: bool)
    ensures
        b == (forall|i: int| 0 <= i < addrs@.len() ==> (#[trigger] addrs@[i]) < limit),
{
    let n: usize = addrs.len();
    for i in 0..n
        invariant
            n == addrs@.len(),
            forall|j: int| 0 <= j < i ==> (#[trigger] addrs@[j]) < limit,
    {
        if addrs[i] as usize >= limit {
            return false;
        }
    }
    true
}

/// Sum of the read prices of a sequence of instructions.
pub open spec fn ops_price(ops: Seq<Op>) -> nat
    decreases ops.len(),
{
    if ops.len() == 0 {
        0
    } else {
        ops_price(ops.drop_last()) + ops.last().reads_price()
    }
}

/// Sum of the prices of one read of each listed cell.
pub open spec fn cells_price(addrs: Seq<u16>) -> nat
    decreases addrs.len(),
{
    if addrs.len() == 0 {
        0
    } else {
        cells_price(addrs.drop_last()) + price(addrs.last())
    }
}

/// Highest address that a sequence of instructions accounts for.
pub open spec fn ops_top(ops: Seq<Op>) -> u16
    decreases ops.len(),
{
    if ops.len() == 0 {
        0
    } else {
        larger(ops_top(ops.drop_last()), ops.last().top_addr())
    }
}

/// Highest listed address, 0 for an empty list.
pub open spec fn cells_top(addrs: Seq<u16>) -> u16
    decreases addrs.len(),
{
    if addrs.len() == 0 {
        0
    } else {
        larger(cells_top(addrs.drop_last()), addrs.last())
    }
}

/// A straight-line program: SoA instruction storage plus the
/// input/output address declarations.
#[derive(Clone, Debug)]
pub struct Program {
    pub kinds: Vec<OpKind>,
    pub dst: Vec<u16>,
    pub a: Vec<u16>,
    pub b: Vec<u16>,
    pub c: Vec<u16>,
    pub imm: Vec<u8>,
    pub inputs: Vec<u16>,
    pub outputs: Vec<u16>,
    /// Highest cell address touched (1-based; 0 means empty program).
    pub max_addr: u16,
    /// Static read cost: sum of operand reads + one read per output.
    pub static_cost: u64,
}

impl Default for Program {
    /// The program without instructions, inputs or outputs.
    fn default() -> (p: Program)
        ensures
            p.wf(),
            p.ops() == Seq::<Op>::empty(),
            p.inputs@ == Seq::<u16>::empty(),
            p.outputs@ == Seq::<u16>::empty(),
            p.max_addr == 0,
            p.static_cost == 0,
    {
        let p = Program {
            kinds: Vec::new(),
            dst: Vec::new(),
            a: Vec::new(),
            b: Vec::new(),
            c: Vec::new(),
            imm: Vec::new(),
            inputs: Vec::new(),
            outputs: Vec::new(),
            max_addr: 0,
            static_cost: 0,
        };
        assert(p.ops() =~= Seq::<Op>::empty());
        p
    }
}

impl Program {
    /// The instruction columns are parallel: they have one length.
    pub open spec fn wf(&self) -> bool {
        &&& self.dst@.len() == self.kinds@.len()
        &&& self.a@.len() == self.kinds@.len()
        &&& self.b@.len() == self.kinds@.len()
        &&& self.c@.len() == self.kinds@.len()
        &&& self.imm@.len() == self.kinds@.len()
    }

    /// The instruction at position `i`.
    pub open spec fn op_at(&self, i: int) -> Op {
        Op {
            kind: self.kinds@[i],
            dst: self.dst@[i],
            a: self.a@[i],
            b: self.b@[i],
            c: self.c@[i],
            imm: self.imm@[i],
        }
    }

    /// The instructions in program order.
    pub open spec fn ops(&self) -> Seq<Op> {
        Seq::new(self.kinds@.len(), |i: int| self.op_at(i))
    }

    /// The scoring facts of a completed program: its static cost is the
    /// price of all operand reads plus one read per output, and its
    /// highest address covers instructions, inputs and outputs.
    pub open spec fn finalized(&self) -> bool {
        &&& self.wf()
        &&& self.static_cost == ops_price(self.ops()) + cells_price(self.outputs@)
        &&& self.max_addr == larger(
            ops_top(self.ops()),
            larger(cells_top(self.inputs@), cells_top(self.outputs@)),
        )
    }

    /// Every cell the program touches lies below `limit`.
    pub open spec fn within(&self, limit: nat) -> bool {
        &&& forall|i: int| 0 <= i < self.kinds@.len() ==> (#[trigger] self.op_at(i)).within(limit)
        &&& forall|i: int| 0 <= i < self.inputs@.len() ==> (#[trigger] self.inputs@[i]) < limit
        &&& forall|i: int| 0 <= i < self.outputs@.len() ==> (#[trigger] self.outputs@[i]) < limit
    }

    /// Whether the instruction columns are parallel.
    pub fn is_wf(&self) -> (b: bool)
        ensures
            b == self.wf(),
    {
        let n: usize = self.kinds.len();
        self.dst.len() == n && self.a.len() == n && self.b.len() == n && self.c.len() == n
            && self.imm.len() == n
    }

    /// Whether every cell the program touches lies below `limit`.
    pub fn is_within(&self, limit: usize) -> (b: bool)
        requires
            self.wf(),
        ensures
            b == self.within(limit as nat),
    {
        let n: usize = self.len();
        for i in 0..n
            invariant
                self.wf(),
                n == self.kinds@.len(),
                forall|j: int| 0 <= j < i ==> (#[trigger] self.op_at(j)).within(limit as nat),
        {
            if !self.op(i).is_within(limit) {
                assert(!self.op_at(i as int).within(limit as nat));
                return false;
            }
            assert(self.op_at(i as int).within(limit as nat));
        }
        all_below(&self.inputs, limit) && all_below(&self.outputs, limit)
    }

    /// Number of instructions.
    pub fn len(&self) -> (n: usize)
        ensures
            n == self.ops().len(),
    {
        self.kinds.len()
    }

    /// Whether there is no instruction.
    pub fn is_empty(&self) -> (b: bool)
        ensures
            b == (self.ops().len() == 0),
    {
        self.kinds.len() == 0
    }

    /// The instruction at position `i`.
    pub fn op(&self, i: usize) -> (op: Op)
        requires
            self.wf(),
            i < self.ops().len(),
        ensures
            op == self.ops()[i as int],
    {
        Op {
            kind: self.kinds[i],
            dst: self.dst[i],
            a: self.a[i],
            b: self.b[i],
            c: self.c[i],
            imm: self.imm[i],
        }
    }

    /// Append an instruction, charging its operand reads to
    /// `static_cost` and folding its addresses into `max_addr`.
    pub fn push(&mut self, op: Op)
        requires
            old(self).wf(),
            op.priceable(),
            old(self).static_cost + op.reads_price() <= u64::MAX,
        ensures
            pushed(*old(self), op, *final(self)),
    {
        let reads: usize = op.read_count();
        let mut touched: u16 = op.dst;
        if reads >= 1 && op.a > touched {
            touched = op.a;
        }
        if reads >= 2 && op.b > touched {
            touched = op.b;
        }
        if reads >= 3 && op.c > touched {
            touched = op.c;
        }
        if touched > self.max_addr {
            self.max_addr = touched;
        }
        self.static_cost = self.static_cost + op.read_cost();
        self.kinds.push(op.kind);
        self.dst.push(op.dst);
        self.a.push(op.a);
        self.b.push(op.b);
        self.c.push(op.c);
        self.imm.push(op.imm);
        assert(self.ops() =~= old(self).ops().push(op));
    }

    /// Add the output-read charges and fold the declared input/output
    /// addresses into `max_addr` (operand tracking alone misses them).
    /// Programmatic builders that used `push` must call this once.
    pub fn finalize(&mut self)
        requires
            forall|i: int|
                0 <= i < old(self).outputs@.len() ==> (#[trigger] old(self).outputs@[i]) >= 1,
            old(self).static_cost + cells_price(old(self).outputs@) <= u64::MAX,
        ensures
            final(self).kinds == old(self).kinds,
            final(self).dst == old(self).dst,
            final(self).a == old(self).a,
            final(self).b == old(self).b,
            final(self).c == old(self).c,
            final(self).imm == old(self).imm,
            final(self).inputs == old(self).inputs,
            final(self).outputs == old(self).outputs,
            final(self).ops() == old(self).ops(),
            final(self).static_cost == old(self).static_cost + cells_price(old(self).outputs@),
            final(self).max_addr == larger(
                old(self).max_addr,
                larger(cells_top(old(self).inputs@), cells_top(old(self).outputs@)),
            ),
    {
        let mut total: u64 = self.static_cost;
        let mut top: u16 = self.max_addr;
        let n_in: usize = self.inputs.len();
        for i in 0..n_in
            invariant
                n_in == self.inputs@.len(),
                *self == *old(self),
                top == larger(self.max_addr, cells_top(self.inputs@.take(i as int))),
        {
            assert(self.inputs@.take(i + 1).drop_last() =~= self.inputs@.take(i as int));
            if self.inputs[i] > top {
                top = self.inputs[i];
            }
        }
        assert(self.inputs@.take(n_in as int) =~= self.inputs@);
        let n_out: usize = self.outputs.len();
        for i in 0..n_out
            invariant
                n_out == self.outputs@.len(),
                *self == *old(self),
                forall|j: int| 0 <= j < n_out ==> (#[trigger] self.outputs@[j]) >= 1,
                self.static_cost + cells_price(self.outputs@) <= u64::MAX,
                total == self.static_cost + cells_price(self.outputs@.take(i as int)),
                top == larger(
                    larger(self.max_addr, cells_top(self.inputs@)),
                    cells_top(self.outputs@.take(i as int)),
                ),
        {
            assert(self.outputs@.take(i + 1).drop_last() =~= self.outputs@.take(i as int));
            proof {
                lemma_cells_price_prefix(self.outputs@, (i + 1) as int);
            }
            total = total + cost(self.outputs[i] as u32);
            if self.outputs[i] > top {
                top = self.outputs[i];
            }
        }
        assert(self.outputs@.take(n_out as int) =~= self.outputs@);
        self.static_cost = total;
        self.max_addr = top;
        assert(self.ops() =~= old(self).ops());
    }
}

/// Reading a cell of the address space costs at most 256.
pub proof fn lemma_price_bound(addr: u16)
    ensures
        price(addr) <= 256,
{
    lemma_distance_exists(addr as nat);
    let d = distance(addr as nat);
    assert(d <= 256) by (nonlinear_arith)
        requires
            d > 0 ==> (d - 1) * (d - 1) < addr,
            addr <= 65535,
            d >= 0,
    ;
}

/// Each instruction adds at most 768 to the price of a program.
pub proof fn lemma_ops_price_bound(ops: Seq<Op>)
    ensures
        ops_price(ops) <= 768 * ops.len(),
    decreases ops.len(),
{
    if ops.len() > 0 {
        lemma_ops_price_bound(ops.drop_last());
        lemma_price_bound(ops.last().a);
        lemma_price_bound(ops.last().b);
        lemma_price_bound(ops.last().c);
    }
}

/// Each output adds at most 256 to the price of a program.
pub proof fn lemma_cells_price_bound(addrs: Seq<u16>)
    ensures
        cells_price(addrs) <= 256 * addrs.len(),
    decreases addrs.len(),
{
    if addrs.len() > 0 {
        lemma_cells_price_bound(addrs.drop_last());
        lemma_price_bound(addrs.last());
    }
}

/// A prefix of a list of cells costs no more than the list.
pub proof fn lemma_cells_price_prefix(addrs: Seq<u16>, k: int)
    requires
        0 <= k <= addrs.len(),
    ensures
        cells_price(addrs.take(k)) <= cells_price(addrs),
    decreases addrs.len() - k,
{
    if k < addrs.len() {
        assert(addrs.take(k + 1).drop_last() =~= addrs.take(k));
        lemma_cells_price_prefix(addrs, k + 1);
    } else {
        assert(addrs.take(k) =~= addrs);
    }
}

/// `ops_top` bounds the addresses of every instruction.
pub proof fn lemma_ops_top_bounds(ops: Seq<Op>, i: int)
    requires
        0 <= i < ops.len(),
    ensures
        ops[i].top_addr() <= ops_top(ops),
        ops[i].within((ops_top(ops) + 1) as nat),
    decreases ops.len(),
{
    if i < ops.len() - 1 {
        lemma_ops_top_bounds(ops.drop_last(), i);
    }
}

/// `cells_top` bounds every listed address.
pub proof fn lemma_cells_top_bounds(addrs: Seq<u16>, i: int)
    requires
        0 <= i < addrs.len(),
    ensures
        addrs[i] <= cells_top(addrs),
    decreases addrs.len(),
{
    if i < addrs.len() - 1 {
        lemma_cells_top_bounds(addrs.drop_last(), i);
    }
}

/// A completed program touches no cell above its `max_addr`, so an
/// arena of `max_addr + 1` cells holds it.
pub proof fn law_max_addr_covers_program(p: Program)
    requires
        p.finalized(),
    ensures
        p.within((p.max_addr + 1) as nat),
{
    assert forall|i: int| 0 <= i < p.kinds@.len() implies (#[trigger] p.op_at(i)).within(
        (p.max_addr + 1) as nat,
    ) by {
        lemma_ops_top_bounds(p.ops(), i);
        assert(p.ops()[i] == p.op_at(i));
    }
    assert forall|i: int| 0 <= i < p.inputs@.len() implies (#[trigger] p.inputs@[i]) < p.max_addr
        + 1 by {
        lemma_cells_top_bounds(p.inputs@, i);
    }
    assert forall|i: int| 0 <= i < p.outputs@.len() implies (#[trigger] p.outputs@[i])
        < p.max_addr + 1 by {
        lemma_cells_top_bounds(p.outputs@, i);
    }
}

/// Instructions that lie below `limit` have their highest address there.
proof fn lemma_ops_top_below(ops: Seq<Op>, limit: nat)
    requires
        ops.len() > 0,
        forall|i: int| 0 <= i < ops.len() ==> (#[trigger] ops[i]).within(limit),
    ensures
        ops_top(ops) < limit,
    decreases ops.len(),
{
    let front = ops.drop_last();
    assert(ops.last() == ops[ops.len() - 1]);
    if front.len() > 0 {
        assert forall|i: int| 0 <= i < front.len() implies (#[trigger] front[i]).within(limit) by {
            assert(front[i] == ops[i]);
        }
        lemma_ops_top_below(front, limit);
    } else {
        assert(ops_top(front) == 0);
    }
}

/// Addresses that lie below `limit` have their highest there.
proof fn lemma_cells_top_below(addrs: Seq<u16>, limit: nat)
    requires
        addrs.len() > 0,
        forall|i: int| 0 <= i < addrs.len() ==> (#[trigger] addrs[i]) < limit,
    ensures
        cells_top(addrs) < limit,
    decreases addrs.len(),
{
    let front = addrs.drop_last();
    assert(addrs.last() == addrs[addrs.len() - 1]);
    if front.len() > 0 {
        assert forall|i: int| 0 <= i < front.len() implies (#[trigger] front[i]) < limit by {
            assert(front[i] == addrs[i]);
        }
        lemma_cells_top_below(front, limit);
    }
}

/// The `max_addr` of a completed program is the highest cell address
/// touched and no higher: below any limit that the program keeps to. It
/// is 0 for a program that touches nothing.
pub proof fn law_max_addr_is_touched(p: Program, limit: nat)
    requires
        p.finalized(),
        p.within(limit),
    ensures
        p.ops().len() > 0 || p.inputs@.len() > 0 || p.outputs@.len() > 0 ==> p.max_addr < limit,
        p.ops().len() == 0 && p.inputs@.len() == 0 && p.outputs@.len() == 0 ==> p.max_addr == 0,
{
    if p.ops().len() > 0 {
        assert forall|i: int| 0 <= i < p.ops().len() implies (#[trigger] p.ops()[i]).within(
            limit,
        ) by {
            assert(p.ops()[i] == p.op_at(i));
        }
        lemma_ops_top_below(p.ops(), limit);
    }
    if p.inputs@.len() > 0 {
        lemma_cells_top_below(p.inputs@, limit);
    }
    if p.outputs@.len() > 0 {
        lemma_cells_top_below(p.outputs@, limit);
    }
}

/// `after` is `before` with one more instruction, as
/// [`push`](Program::push) leaves it.
pub open spec fn pushed(before: Program, op: Op, after: Program) -> bool {
    &&& after.wf()
    &&& after.ops() == before.ops().push(op)
    &&& after.inputs == before.inputs
    &&& after.outputs == before.outputs
    &&& after.max_addr == larger(before.max_addr, op.top_addr())
    &&& after.static_cost == before.static_cost + op.reads_price()
}

/// What was pushed is read back: a program that starts out empty and has
/// instructions pushed one after the other holds exactly these, in order,
/// with their summed price and their highest address.
pub proof fn law_pushed_ops_read_back(states: Seq<Program>, ops: Seq<Op>)
    requires
        states.len() == ops.len() + 1,
        states[0].wf(),
        states[0].ops() == Seq::<Op>::empty(),
        states[0].max_addr == 0,
        states[0].static_cost == 0,
        forall|i: int|
            0 <= i < ops.len() ==> pushed(states[i], #[trigger] ops[i], states[i + 1]),
    ensures
        states.last().wf(),
        states.last().ops() == ops,
        states.last().static_cost == ops_price(ops),
        states.last().max_addr == ops_top(ops),
    decreases ops.len(),
{
    if ops.len() > 0 {
        let front = ops.drop_last();
        let before = states.drop_last();
        assert forall|i: int| 0 <= i < front.len() implies pushed(
            before[i],
            #[trigger] front[i],
            before[i + 1],
        ) by {
            assert(pushed(states[i], ops[i], states[i + 1]));
        }
        law_pushed_ops_read_back(before, front);
        let k = ops.len() - 1;
        assert(pushed(states[k], ops[k], states[k + 1]));
        assert(front.push(ops[k]) =~= ops);
    } else {
        assert(ops =~= Seq::<Op>::empty());
    }
}

/// A completed program is determined by its instructions, inputs and
/// outputs: every other field follows.
pub proof fn law_listing_determines_program(p: Program, q: Program)
    requires
        p.finalized(),
        q.finalized(),
        p.ops() == q.ops(),
        p.inputs@ == q.inputs@,
        p.outputs@ == q.outputs@,
    ensures
        p.kinds@ == q.kinds@,
        p.dst@ == q.dst@,
        p.a@ == q.a@,
        p.b@ == q.b@,
        p.c@ == q.c@,
        p.imm@ == q.imm@,
        p.max_addr == q.max_addr,
        p.static_cost == q.static_cost,
{
    assert(p.ops().len() == q.ops().len());
    assert forall|i: int| 0 <= i < p.kinds@.len() implies #[trigger] p.op_at(i) == q.op_at(i) by {
        assert(p.ops()[i] == p.op_at(i));
        assert(q.ops()[i] == q.op_at(i));
    }
    assert forall|i: int| 0 <= i < p.kinds@.len() implies #[trigger] p.kinds@[i] == q.kinds@[i] by {
        assert(p.op_at(i) == q.op_at(i));
    }
    assert(p.kinds@ =~= q.kinds@);
    assert forall|i: int| 0 <= i < p.dst@.len() implies #[trigger] p.dst@[i] == q.dst@[i] by {
        assert(p.op_at(i) == q.op_at(i));
    }
    assert(p.dst@ =~= q.dst@);
    assert forall|i: int| 0 <= i < p.a@.len() implies #[trigger] p.a@[i] == q.a@[i] by {
        assert(p.op_at(i) == q.op_at(i));
    }
    assert(p.a@ =~= q.a@);
    assert forall|i: int| 0 <= i < p.b@.len() implies #[trigger] p.b@[i] == q.b@[i] by {
        assert(p.op_at(i) == q.op_at(i));
    }
    assert(p.b@ =~= q.b@);
    assert forall|i: int| 0 <= i < p.c@.len() implies #[trigger] p.c@[i] == q.c@[i] by {
        assert(p.op_at(i) == q.op_at(i));
    }
    assert(p.c@ =~= q.c@);
    assert forall|i: int| 0 <= i < p.imm@.len() implies #[trigger] p.imm@[i] == q.imm@[i] by {
        assert(p.op_at(i) == q.op_at(i));
    }
    assert(p.imm@ =~= q.imm@);
}

} // verus!
