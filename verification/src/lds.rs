//! Batches whose cells live in workgroup shared memory (LDS): tiling from
//! the adapter's limits, and chunked dispatch.
//!
//! `lanes = prev_pow2(max_shared_memory_bytes / instance_cell_bytes)`,
//! clamped to `[1, max_units_per_cube]`. Power-of-two alignment keeps the
//! workgroup a clean subdivision of the device wavefront. Each lane owns
//! a private `cell_words`-wide slice of the workgroup's shared
//! allocation, so no barriers are needed.
//!
//! Programs whose cell array alone exceeds the LDS budget are rejected;
//! callers fall back to the global-memory kernel.

use crate::eval::RunError;
use crate::gpu::cell_words_of;
use crate::ir::Program;
use crate::pack::{
    addr_words, native_bytes, op_stream, pack_addrs, pack_ops, word_count, words_for,
    words_to_bytes, zero_bytes,
};
use crate::text::{append_decimal, decimal};
use vstd::arithmetic::power2::{lemma_pow2_unfold, pow2};
use vstd::prelude::*;
use vstd::string::StringExecFns;

verus! {

/// Per-binding storage ceiling guard (storage bindings are commonly
/// limited to 128 MiB; stay well under).
pub const MAX_CELLS_BUFFER: usize = 96 * 1024 * 1024;

/// Cap on the work of one dispatch: very long programs hang the device
/// when too many lanes run at once. Coarse guard:
/// `chunk_lanes * n_ops <= WORK_CAP`.
pub const WORK_CAP: u64 = 8_000_000_000;

/// `n`, or 1 for 0.
pub open spec fn at_least_one(n: nat) -> nat {
    if n == 0 {
        1
    } else {
        n
    }
}

/// The smaller of two numbers.
pub open spec fn lesser(x: nat, y: nat) -> nat {
    if x <= y {
        x
    } else {
        y
    }
}

/// Bytes of a binding left for cells after `reserved` bytes.
pub open spec fn cells_budget(reserved: nat) -> nat {
    if reserved <= MAX_CELLS_BUFFER {
        (MAX_CELLS_BUFFER - reserved) as nat
    } else {
        0
    }
}

/// Largest batch whose flat cells buffer stays under the binding cap, at
/// least 1.
pub open spec fn capacity_by_bytes(cell_bytes: nat, reserved: nat) -> nat {
    at_least_one(cells_budget(reserved) / at_least_one(cell_bytes))
}

/// Largest batch whose work stays under the work cap, at least 1.
pub open spec fn capacity_by_work(n_ops: nat) -> nat {
    at_least_one(WORK_CAP as nat / at_least_one(n_ops))
}

/// Instances per dispatch.
pub open spec fn chunk_of(n_ops: nat, cell_bytes: nat, reserved: nat) -> nat {
    lesser(capacity_by_bytes(cell_bytes, reserved), capacity_by_work(n_ops))
}

/// Largest batch whose flat cells buffer stays under the binding cap, at
/// least 1.
pub fn chunk_capacity(cell_bytes_per_instance: usize, reserved: usize) -> (c: usize)
    ensures
        c == capacity_by_bytes(cell_bytes_per_instance as nat, reserved as nat),
        1 <= c <= MAX_CELLS_BUFFER,
{
    let budget: usize = if reserved <= MAX_CELLS_BUFFER {
        MAX_CELLS_BUFFER - reserved
    } else {
        0
    };
    let per_instance: usize = if cell_bytes_per_instance == 0 {
        1
    } else {
        cell_bytes_per_instance
    };
    proof {
        vstd::arithmetic::div_mod::lemma_div_is_ordered_by_denominator(
            budget as int,
            1,
            per_instance as int,
        );
    }
    let c: usize = budget / per_instance;
    if c == 0 {
        1
    } else {
        c
    }
}

/// Instances per dispatch: as many as both the binding cap and the work
/// cap allow, at least 1.
pub fn chunk_for(n_ops: usize, cell_bytes_per_instance: usize, reserved: usize) -> (c: usize)
    ensures
        c == chunk_of(n_ops as nat, cell_bytes_per_instance as nat, reserved as nat),
        1 <= c <= MAX_CELLS_BUFFER,
{
    let by_bytes: usize = chunk_capacity(cell_bytes_per_instance, reserved);
    let ops: u64 = if n_ops == 0 {
        1
    } else {
        n_ops as u64
    };
    let quotient: u64 = WORK_CAP / ops;
    let by_work: u64 = if quotient == 0 {
        1
    } else {
        quotient
    };
    if by_bytes as u64 <= by_work {
        by_bytes
    } else {
        by_work as usize
    }
}

/// A dispatch of more than one instance stays under the binding cap and
/// under the work cap, and one instance more would break one of them.
pub proof fn law_chunk_respects_caps(n_ops: nat, cell_bytes: nat, reserved: nat)
    ensures
        ({
            let chunk = chunk_of(n_ops, cell_bytes, reserved);
            &&& chunk >= 1
            &&& chunk == 1 || reserved + chunk * cell_bytes <= MAX_CELLS_BUFFER
            &&& chunk == 1 || chunk * n_ops <= WORK_CAP
            &&& cell_bytes >= 1 && n_ops >= 1 ==> {
                ||| reserved + (chunk + 1) * cell_bytes > MAX_CELLS_BUFFER
                ||| (chunk + 1) * n_ops > WORK_CAP
            }
        }),
{
    let chunk = chunk_of(n_ops, cell_bytes, reserved);
    lemma_quotient_bounds(cells_budget(reserved), at_least_one(cell_bytes), chunk);
    lemma_quotient_bounds(WORK_CAP as nat, at_least_one(n_ops), chunk);
    if cell_bytes == 0 {
        assert(chunk * cell_bytes == 0) by (nonlinear_arith)
            requires
                cell_bytes == 0,
        ;
    }
    if n_ops == 0 {
        assert(chunk * n_ops == 0) by (nonlinear_arith)
            requires
                n_ops == 0,
        ;
    }
    if chunk > 1 {
        assert(cells_budget(reserved) / at_least_one(cell_bytes) > 1);
        if reserved >= MAX_CELLS_BUFFER {
            assert(cells_budget(reserved) == 0);
            assert(0nat / at_least_one(cell_bytes) == 0) by {
                vstd::arithmetic::div_mod::lemma_div_basics(at_least_one(cell_bytes) as int);
            }
        }
    }
}

/// What a quotient says about products.
pub proof fn lemma_quotient_bounds(total: nat, part: nat, k: nat)
    requires
        part >= 1,
    ensures
        k <= total / part ==> k * part <= total,
        k >= total / part ==> (k + 1) * part > total,
{
    vstd::arithmetic::div_mod::lemma_fundamental_div_mod(total as int, part as int);
    let q = total / part;
    let r = total % part;
    assert(k <= q ==> k * part <= total) by (nonlinear_arith)
        requires
            total == part * q + r,
            r >= 0,
            part >= 1,
    ;
    assert(k >= q ==> (k + 1) * part > total) by (nonlinear_arith)
        requires
            total == part * q + r,
            0 <= r < part,
            part >= 1,
    ;
}

/// The largest power of two that is at most `n`; 1 for 0.
pub open spec fn pow2_below(n: nat) -> nat
    decreases n,
{
    if n < 2 {
        1
    } else {
        2 * pow2_below(n / 2)
    }
}

/// `pow2_below` is a power of two, at most `n`, and its double is not.
pub proof fn law_pow2_below(n: nat)
    ensures
        exists|k: nat| pow2_below(n) == #[trigger] pow2(k),
        n >= 1 ==> pow2_below(n) <= n < 2 * pow2_below(n),
        n == 0 ==> pow2_below(n) == 1,
    decreases n,
{
    if n < 2 {
        vstd::arithmetic::power2::lemma2_to64();
        assert(pow2_below(n) == pow2(0));
    } else {
        law_pow2_below(n / 2);
        let k = choose|k: nat| pow2_below(n / 2) == #[trigger] pow2(k);
        lemma_pow2_unfold(k + 1);
        assert(pow2_below(n) == pow2(k + 1));
    }
}

/// The largest power of two that is at most `n`; 1 for 0.
pub fn prev_pow2(n: usize) -> (p: usize)
    ensures
        p == pow2_below(n as nat),
        p >= 1,
{
    let mut p: usize = 1;
    let mut rest: usize = n;
    while rest >= 2
        invariant
            p >= 1,
            n >= 1 ==> p * rest <= n,
            n == 0 ==> rest == 0,
            pow2_below(n as nat) == p * pow2_below(rest as nat),
        decreases rest,
    {
        assert(2 * p <= n && (2 * p) * (rest / 2) <= n && p * (2 * pow2_below((rest / 2) as nat))
            == (2 * p) * pow2_below((rest / 2) as nat)) by (nonlinear_arith)
            requires
                p >= 1,
                rest >= 2,
                p * rest <= n,
        ;
        p = p * 2;
        rest = rest / 2;
    }
    assert(p * pow2_below(rest as nat) == p) by {
        vstd::arithmetic::mul::lemma_mul_basics(p as int);
    }
    p
}

/// Workgroup tiling derived from adapter limits: shared-memory budget
/// divided by per-instance cell bytes, power-of-two aligned (a clean
/// wavefront subdivision), clamped to the device's workgroup size.
#[derive(Clone, Copy, Debug, PartialEq, Eq, Structural)]
pub struct Tiling {
    pub lanes: usize,
    pub cell_words: usize,
    pub lds_bytes: usize,
    pub max_lds_bytes: usize,
    pub max_workgroup: usize,
}

/// Lanes per workgroup for a shared-memory budget of `max_lds_bytes`, a
/// workgroup limit, and `cell_words` words of cells per lane.
pub open spec fn lanes_for(max_lds_bytes: nat, max_workgroup: nat, cell_words: nat) -> nat {
    lesser(
        pow2_below((max_lds_bytes / 4) / at_least_one(cell_words)),
        at_least_one(max_workgroup),
    )
}

impl Tiling {
    /// This is the tiling for the given limits and cells per instance.
    pub open spec fn is_for(
        self,
        max_lds_bytes: nat,
        max_workgroup: nat,
        cell_bytes: nat,
    ) -> bool {
        &&& self.cell_words == words_for(cell_bytes)
        &&& self.lanes == lanes_for(max_lds_bytes, max_workgroup, words_for(cell_bytes))
        &&& self.lds_bytes == self.lanes * self.cell_words * 4
        &&& self.max_lds_bytes == max_lds_bytes
        &&& self.max_workgroup == max_workgroup
    }

    /// This is the tiling `whole` under a budget cap of `cap_bytes`.
    pub open spec fn is_capped(self, whole: Tiling, cap_bytes: nat, cell_bytes: nat) -> bool {
        self.is_for(
            lesser(whole.max_lds_bytes as nat, cap_bytes),
            whole.max_workgroup as nat,
            cell_bytes,
        )
    }

    /// The tiling for the given limits and cells per instance.
    pub fn from_limits(max_lds_bytes: usize, max_workgroup: usize, cell_bytes: usize) -> (t: Self)
        requires
            cell_bytes + 3 <= usize::MAX,
        ensures
            t.is_for(max_lds_bytes as nat, max_workgroup as nat, cell_bytes as nat),
            1 <= t.lanes,
    {
        let cell_words: usize = word_count(cell_bytes);
        let divisor: usize = if cell_words == 0 {
            1
        } else {
            cell_words
        };
        let by_budget: usize = (max_lds_bytes / 4) / divisor;
        let limit: usize = if max_workgroup == 0 {
            1
        } else {
            max_workgroup
        };
        let aligned: usize = prev_pow2(by_budget);
        let lanes: usize = if aligned <= limit {
            aligned
        } else {
            limit
        };
        proof {
            law_tiling_fits_budget(max_lds_bytes as nat, max_workgroup as nat, cell_words as nat);
            assert(0 <= lanes * cell_words <= lanes * cell_words * 4) by (nonlinear_arith)
                requires
                    lanes >= 0,
                    cell_words >= 0,
            ;
            if lanes == 1 {
                assert(lanes * cell_words == cell_words) by (nonlinear_arith)
                    requires
                        lanes == 1,
                ;
            }
        }
        let lds_bytes: usize = lanes * cell_words * 4;
        Tiling { lanes, cell_words, lds_bytes, max_lds_bytes, max_workgroup }
    }

    /// The tiling under an artificial budget cap (minimum of the device
    /// budget and `cap_bytes`): a smaller tiling fits more workgroups
    /// per compute unit.
    pub fn capped(&self, cap_bytes: usize, cell_bytes: usize) -> (t: Self)
        requires
            cell_bytes + 3 <= usize::MAX,
        ensures
            t.is_capped(*self, cap_bytes as nat, cell_bytes as nat),
            t.is_for(
                lesser(self.max_lds_bytes as nat, cap_bytes as nat),
                self.max_workgroup as nat,
                cell_bytes as nat,
            ),
            1 <= t.lanes,
    {
        let budget: usize = if self.max_lds_bytes <= cap_bytes {
            self.max_lds_bytes
        } else {
            cap_bytes
        };
        Tiling::from_limits(budget, self.max_workgroup, cell_bytes)
    }
}

/// The lanes of a workgroup number at least one and at most the device's
/// limit, and together they fit the shared-memory budget whenever more
/// than one runs or a single one fits. They are a power of two unless
/// the device's limit is what bounds them, and then twice as many would
/// not fit the budget.
pub proof fn law_tiling_fits_budget(max_lds_bytes: nat, max_workgroup: nat, cell_words: nat)
    ensures
        ({
            let lanes = lanes_for(max_lds_bytes, max_workgroup, cell_words);
            &&& 1 <= lanes <= at_least_one(max_workgroup)
            &&& lanes > 1 || cell_words * 4 <= max_lds_bytes ==> lanes * cell_words * 4
                <= max_lds_bytes
            &&& lanes == at_least_one(max_workgroup) || {
                &&& exists|k: nat| lanes == #[trigger] pow2(k)
                &&& cell_words >= 1 ==> 2 * lanes * cell_words * 4 > max_lds_bytes
            }
        }),
{
    let budget = max_lds_bytes / 4;
    let part = at_least_one(cell_words);
    let by_budget = budget / part;
    let lanes = lanes_for(max_lds_bytes, max_workgroup, cell_words);
    law_pow2_below(by_budget);
    lemma_quotient_bounds(budget, part, lanes);
    lemma_quotient_bounds(budget, part, 1);
    let doubled = (2 * lanes - 1) as nat;
    lemma_quotient_bounds(budget, part, doubled);
    if cell_words == 0 {
        assert(lanes * cell_words == 0) by (nonlinear_arith)
            requires
                cell_words == 0,
        ;
    } else if by_budget == 0 {
        assert(lanes == 1);
        assert(2 * lanes * cell_words == 2 * cell_words) by (nonlinear_arith)
            requires
                lanes == 1,
        ;
        assert(lanes * cell_words == cell_words) by (nonlinear_arith)
            requires
                lanes == 1,
        ;
    } else {
        assert((doubled + 1) * part == 2 * lanes * cell_words) by (nonlinear_arith)
            requires
                doubled + 1 == 2 * lanes,
                part == cell_words,
        ;
    }
}

/// The cells of one lane of the program fit `max_lds` bytes of shared
/// memory.
pub open spec fn fits_lds(prog: Program, max_lds: nat) -> bool {
    cell_words_of(prog) * 4 <= max_lds
}

/// What an LDS runner keeps for a program: the tiling, the uploaded op
/// stream and address tables, and trap and flag words for the
/// instances of one dispatch.
pub struct LdsPlan {
    pub tiling: Tiling,
    pub ops: Vec<u8>,
    pub in_addrs: Vec<u8>,
    pub out_addrs: Vec<u8>,
    pub n_ops: usize,
    pub n_in: usize,
    pub n_out: usize,
    /// Instances that the trap and flag words hold: as many as one
    /// dispatch may have and as were requested, and at least one, so that
    /// a batch of any size makes progress.
    pub capacity: usize,
    /// Initial contents of the trap words, and of the flag words.
    pub traps: Vec<u8>,
    pub flags: Vec<u8>,
}

impl LdsPlan {
    /// The plan holds the buffers of `prog`, for a requested capacity.
    pub open spec fn is_of(&self, prog: Program, capacity: nat) -> bool {
        &&& self.ops@ == native_bytes(op_stream(prog.ops()))
        &&& self.in_addrs@ == native_bytes(addr_words(prog.inputs@))
        &&& self.out_addrs@ == native_bytes(addr_words(prog.outputs@))
        &&& self.n_ops == prog.ops().len()
        &&& self.n_in == prog.inputs@.len()
        &&& self.n_out == prog.outputs@.len()
        &&& self.capacity == lesser(
            chunk_of(prog.ops().len(), cell_words_of(prog) * 4, 0),
            at_least_one(capacity),
        )
        &&& self.traps@ == zero_bytes((4 * self.capacity) as nat)
        &&& self.flags@ == zero_bytes((4 * self.capacity) as nat)
    }

    /// The plan for a program on an adapter with `max_lds` bytes of
    /// shared memory and `max_units` lanes per workgroup. Fails when the
    /// program's cell array exceeds the entire LDS budget (a single lane
    /// does not fit).
    pub fn new(prog: &Program, capacity: usize, max_lds: usize, max_units: usize) -> (r: Result<
        Self,
        RunError,
    >)
        requires
            prog.wf(),
            4 * prog.ops().len() <= usize::MAX,
        ensures
            r is Ok <==> fits_lds(*prog, max_lds as nat),
            r is Ok <==> cell_words_of(*prog) * 4 <= max_lds,
            r matches Ok(plan) ==> {
                &&& plan.is_of(*prog, capacity as nat)
                &&& plan.tiling.is_for(
                    max_lds as nat,
                    max_units as nat,
                    (prog.max_addr + 1) as nat,
                )
                &&& 1 <= plan.tiling.lanes
            },
            r matches Err(e) ==> e matches RunError::GpuUnavailable(message) && message@
                == "program cells ("@ + decimal(cell_words_of(*prog) * 4)
                + " bytes) exceed LDS budget ("@ + decimal(max_lds as nat)
                + " bytes); use CubeRunner"@,
    {
        let cell_bytes: usize = prog.max_addr as usize + 1;
        let tiling: Tiling = Tiling::from_limits(max_lds, max_units, cell_bytes);
        let lane_bytes: usize = tiling.cell_words * 4;
        if lane_bytes > max_lds {
            let mut message: String = String::from_str("program cells (");
            append_decimal(&mut message, lane_bytes as u64);
            message.append(" bytes) exceed LDS budget (");
            append_decimal(&mut message, max_lds as u64);
            message.append(" bytes); use CubeRunner");
            return Err(RunError::GpuUnavailable(message));
        }
        let ops: Vec<u32> = pack_ops(prog);
        let in_addrs: Vec<u32> = pack_addrs(prog.inputs.as_slice());
        let out_addrs: Vec<u32> = pack_addrs(prog.outputs.as_slice());
        let most: usize = chunk_for(prog.len(), lane_bytes, 0);
        let chunk: usize = if most <= capacity {
            most
        } else if capacity == 0 {
            1
        } else {
            capacity
        };
        let plan = LdsPlan {
            tiling,
            ops: words_to_bytes(ops.as_slice()),
            in_addrs: words_to_bytes(in_addrs.as_slice()),
            out_addrs: words_to_bytes(out_addrs.as_slice()),
            n_ops: prog.len(),
            n_in: prog.inputs.len(),
            n_out: prog.outputs.len(),
            capacity: chunk,
            traps: vec![0u8; chunk * 4],
            flags: vec![0u8; chunk * 4],
        };
        assert(plan.traps@ =~= zero_bytes((4 * chunk) as nat));
        assert(plan.flags@ =~= zero_bytes((4 * chunk) as nat));
        Ok(plan)
    }

    /// The same plan under an artificial LDS budget cap, for occupancy
    /// experiments.
    pub fn with_lds_cap(self, prog: &Program, cap_bytes: usize) -> (plan: Self)
        ensures
            plan.tiling.is_capped(self.tiling, cap_bytes as nat, (prog.max_addr + 1) as nat),
            plan.tiling.is_for(
                lesser(self.tiling.max_lds_bytes as nat, cap_bytes as nat),
                self.tiling.max_workgroup as nat,
                (prog.max_addr + 1) as nat,
            ),
            1 <= plan.tiling.lanes,
            plan == (LdsPlan { tiling: plan.tiling, ..self }),
    {
        let mut plan = self;
        plan.tiling = plan.tiling.capped(cap_bytes, prog.max_addr as usize + 1);
        plan
    }
}

} // verus!
