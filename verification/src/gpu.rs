//! Host side of a GPU batch: the buffers that are uploaded, how large
//! the device-side ones are, and what the buffers read back mean.
//!
//! A device is believed to run, once per instance, what
//! [`dally_kernel`](crate::kernel::dally_kernel) says, up to what the
//! output rows of trapped instances hold; the laws below take that as
//! their premise, for lanes that run one at a time.
//!
//! GPU-specific semantics: division by zero sets a per-instance trap flag
//! instead of unwinding; the host maps trapped instances back to
//! [`RunError::DivideByZero`], without the position of the instruction,
//! which the device does not track.

use crate::eval::RunError;
use crate::ir::Program;
use crate::kernel::{
    lane_ready, lane_result, law_kernel_matches_machine, law_lanes_do_not_interfere,
    lemma_row_frame, narrow, packed_row, row_is_zero, row_written, step_within, stream_within,
};
use crate::pack::{
    addr_words, flat_byte, is_packed, law_bytes_determine_words, law_decode_inverts_encode,
    lemma_zero_matrix, native_bytes, op_stream, op_words, pack_addrs, pack_bytes, pack_ops,
    read_words, stream_words, unpack_bytes, word_count, words_for, words_to_bytes, zero_bytes,
};
use crate::runner::{batch_ready, instance_outcome, is_first_trap, rows_match};
use crate::semantics::gather;
use crate::text::{append_decimal, decimal};
use vstd::prelude::*;
use vstd::slice::slice_subrange;
use vstd::slice::slice_to_vec;
use vstd::string::StringExecFns;

verus! {

/// Lanes per workgroup of the global-memory kernel.
pub const WORKGROUP_LANES: usize = 64;

/// Number of workgroups of `lanes` lanes that cover `n` instances.
pub open spec fn group_count(n: nat, lanes: nat) -> nat {
    (n / lanes + (if n % lanes == 0 {
        0nat
    } else {
        1nat
    })) as nat
}

/// Number of workgroups of `lanes` lanes that cover `n` instances.
pub fn groups_for(n: usize, lanes: usize) -> (g: u32)
    requires
        lanes > 0,
        group_count(n as nat, lanes as nat) <= u32::MAX,
    ensures
        g == group_count(n as nat, lanes as nat),
{
    if n % lanes == 0 {
        (n / lanes) as u32
    } else {
        (n / lanes) as u32 + 1
    }
}

/// Every instance has a lane, and no workgroup is without an instance.
pub proof fn law_groups_cover_batch(n: nat, lanes: nat)
    requires
        lanes > 0,
    ensures
        n <= group_count(n, lanes) * lanes,
        n > 0 ==> (group_count(n, lanes) - 1) * lanes < n,
        n == 0 ==> group_count(n, lanes) == 0,
{
    vstd::arithmetic::div_mod::lemma_fundamental_div_mod(n as int, lanes as int);
    let q = n / lanes;
    let g = group_count(n, lanes);
    assert(q * lanes + lanes == (q + 1) * lanes && lanes * q == q * lanes) by (nonlinear_arith);
    assert((q - 1) * lanes == q * lanes - lanes) by (nonlinear_arith);
    if n == 0 {
        assert(q == 0) by (nonlinear_arith)
            requires
                n == lanes * q + n % lanes,
                n == 0,
                lanes > 0,
                n % lanes >= 0,
                q >= 0,
        ;
    }
}

/// Number of words that hold the cells of one instance.
pub open spec fn cell_words_of(prog: Program) -> nat {
    words_for((prog.max_addr + 1) as nat)
}

/// Number of words that hold the cells of one instance.
pub fn cell_words(prog: &Program) -> (w: usize)
    ensures
        w == cell_words_of(*prog),
        1 <= w <= 16384,
{
    word_count(prog.max_addr as usize + 1)
}

/// Scalar arguments of a launch, in the order of the uniform block.
#[derive(Clone, Copy, Debug, PartialEq, Eq, Structural)]
pub struct GpuParams {
    pub n_instances: u32,
    pub n_ops: u32,
    pub n_in: u32,
    pub n_out: u32,
    pub cell_words: u32,
}

impl GpuParams {
    /// The uniform block: the five arguments in order.
    pub open spec fn words(self) -> Seq<u32> {
        seq![self.n_instances, self.n_ops, self.n_in, self.n_out, self.cell_words]
    }

    /// These are the arguments for a batch of `n` instances of `prog`.
    pub open spec fn is_for(self, prog: Program, n: nat) -> bool {
        &&& self.n_instances == n
        &&& self.n_ops == prog.ops().len()
        &&& self.n_in == prog.inputs@.len()
        &&& self.n_out == prog.outputs@.len()
        &&& self.cell_words == cell_words_of(prog)
    }

    /// The arguments for a batch of `n` instances.
    pub fn new(prog: &Program, n: usize) -> (p: GpuParams)
        requires
            n <= u32::MAX,
            prog.ops().len() <= u32::MAX,
            prog.inputs@.len() <= u32::MAX,
            prog.outputs@.len() <= u32::MAX,
        ensures
            p.is_for(*prog, n as nat),
            p.n_instances == n,
            p.n_ops == prog.ops().len(),
            p.n_in == prog.inputs@.len(),
            p.n_out == prog.outputs@.len(),
            p.cell_words == cell_words_of(*prog),
    {
        GpuParams {
            n_instances: n as u32,
            n_ops: prog.len() as u32,
            n_in: prog.inputs.len() as u32,
            n_out: prog.outputs.len() as u32,
            cell_words: cell_words(prog) as u32,
        }
    }

    /// The uniform block as the machine lays it out.
    pub fn bytes(&self) -> (b: Vec<u8>)
        ensures
            b@ == native_bytes(self.words()),
    {
        let mut words: Vec<u32> = Vec::with_capacity(5);
        words.push(self.n_instances);
        words.push(self.n_ops);
        words.push(self.n_in);
        words.push(self.n_out);
        words.push(self.cell_words);
        assert(words@ =~= self.words());
        words_to_bytes(words.as_slice())
    }
}

/// What stays on the device for a program's lifetime there: the op
/// stream, the address tables, and room for the cells and trap flags of
/// up to `capacity` instances.
pub struct Resident {
    pub ops: Vec<u8>,
    pub in_addrs: Vec<u8>,
    pub out_addrs: Vec<u8>,
    pub n_ops: usize,
    pub n_in: usize,
    pub n_out: usize,
    pub cell_words: usize,
    pub capacity: usize,
    pub cells_bytes: usize,
    pub traps_bytes: usize,
}

impl Resident {
    /// The buffers are those of `prog`.
    pub open spec fn is_of(&self, prog: Program) -> bool {
        &&& self.ops@ == native_bytes(op_stream(prog.ops()))
        &&& self.in_addrs@ == native_bytes(addr_words(prog.inputs@))
        &&& self.out_addrs@ == native_bytes(addr_words(prog.outputs@))
        &&& self.n_ops == prog.ops().len()
        &&& self.n_in == prog.inputs@.len()
        &&& self.n_out == prog.outputs@.len()
        &&& self.cell_words == cell_words_of(prog)
        &&& self.cells_bytes == self.capacity * self.cell_words * 4
        &&& self.traps_bytes == self.capacity * 4
    }

    /// The buffers of a program, for batches of up to `capacity`
    /// instances.
    pub fn new(prog: &Program, capacity: usize) -> (r: Self)
        requires
            prog.wf(),
            4 * prog.ops().len() <= usize::MAX,
            capacity * cell_words_of(*prog) * 4 <= usize::MAX,
        ensures
            r.is_of(*prog),
            r.capacity == capacity,
    {
        let cell_words: usize = cell_words(prog);
        let ops: Vec<u32> = pack_ops(prog);
        let in_addrs: Vec<u32> = pack_addrs(prog.inputs.as_slice());
        let out_addrs: Vec<u32> = pack_addrs(prog.outputs.as_slice());
        assert(0 <= capacity <= capacity * cell_words) by (nonlinear_arith)
            requires
                capacity >= 0,
                cell_words >= 1,
        ;
        Resident {
            ops: words_to_bytes(ops.as_slice()),
            in_addrs: words_to_bytes(in_addrs.as_slice()),
            out_addrs: words_to_bytes(out_addrs.as_slice()),
            n_ops: prog.len(),
            n_in: prog.inputs.len(),
            n_out: prog.outputs.len(),
            cell_words,
            capacity,
            cells_bytes: capacity * cell_words * 4,
            traps_bytes: capacity * 4,
        }
    }

    /// What one batch of `n` instances needs, or the refusal of a batch
    /// that does not fit the resident buffers.
    pub fn plan(&self, prog: &Program, instances: &[u8], n: usize) -> (r: Result<
        BatchPlan,
        (usize, RunError),
    >)
        requires
            n <= self.capacity ==> {
                &&& n * prog.outputs@.len() <= usize::MAX
                &&& 4 * words_for(n as nat * prog.outputs@.len()) <= usize::MAX
                &&& group_count(n as nat, WORKGROUP_LANES as nat) <= u32::MAX
            },
        ensures
            r is Ok <==> n <= self.capacity,
            r matches Ok(plan) ==> plan.is_for(instances@, n as nat, prog.outputs@.len()),
            r matches Err((i, e)) ==> {
                &&& i == 0
                &&& e matches RunError::GpuUnavailable(message) && message@ == "batch "@ + decimal(
                    n as nat,
                ) + " exceeds runner capacity "@ + decimal(self.capacity as nat)
            },
    {
        if n > self.capacity {
            let mut message: String = String::from_str("batch ");
            append_decimal(&mut message, n as u64);
            message.append(" exceeds runner capacity ");
            append_decimal(&mut message, self.capacity as u64);
            return Err((0, RunError::GpuUnavailable(message)));
        }
        let inputs: Vec<u32> = pack_bytes(instances);
        let n_out: usize = prog.outputs.len();
        let out_words: usize = word_count(n * n_out);
        let plan = BatchPlan {
            inputs: words_to_bytes(inputs.as_slice()),
            out_words,
            outputs: vec![0u8; out_words * 4],
            groups: groups_for(n, WORKGROUP_LANES),
        };
        assert(plan.outputs@ =~= zero_bytes(4 * words_for(n as nat * n_out as nat)));
        Ok(plan)
    }
}

/// The buffers and launch size of one batch.
pub struct BatchPlan {
    /// The instance matrix, packed into words.
    pub inputs: Vec<u8>,
    /// Words of the output matrix.
    pub out_words: usize,
    /// Initial contents of the output matrix: zero, as lanes or their
    /// bytes into it.
    pub outputs: Vec<u8>,
    /// Workgroups to launch.
    pub groups: u32,
}

impl BatchPlan {
    /// This is the plan for `n` instances with `n_out` output bytes each.
    pub open spec fn is_for(&self, instances: Seq<u8>, n: nat, n_out: nat) -> bool {
        &&& exists|words: Seq<u32>|
            is_packed(instances, words) && self.inputs@ == #[trigger] native_bytes(words)
        &&& self.out_words == words_for(n * n_out)
        &&& self.outputs@ == zero_bytes(4 * words_for(n * n_out))
        &&& self.groups == group_count(n, WORKGROUP_LANES as nat)
    }
}

/// What the words read back from a batch of `n` instances mean: the
/// first instance with a trap flag is reported as a division by zero at
/// an unknown position; without one, each instance has its row of
/// `n_out` bytes.
pub open spec fn collected(
    words: Seq<u32>,
    traps: Seq<u32>,
    n_out: nat,
    n: nat,
    r: Result<Vec<Vec<u8>>, (usize, RunError)>,
) -> bool {
    match r {
        Ok(rows) => {
            &&& rows@.len() == n
            &&& forall|i: int| 0 <= i < n ==> (#[trigger] traps[i]) == 0
            &&& forall|i: int|
                0 <= i < n ==> (#[trigger] rows@[i])@ == packed_row(words, i, n_out)
        },
        Err((i, e)) => {
            &&& i < n
            &&& traps[i as int] != 0
            &&& forall|j: int| 0 <= j < i ==> (#[trigger] traps[j]) == 0
            &&& e.is_trap_at(usize::MAX as int)
        },
    }
}

/// Rows of a batch from its packed outputs and trap flags.
pub fn collect_words(words: &[u32], traps: &[u32], n_out: usize, n: usize) -> (r: Result<
    Vec<Vec<u8>>,
    (usize, RunError),
>)
    requires
        n * n_out <= 4 * words@.len(),
        n * n_out <= usize::MAX,
        n <= traps@.len(),
    ensures
        collected(words@, traps@, n_out as nat, n as nat, r),
{
    for i in 0..n
        invariant
            n <= traps@.len(),
            forall|j: int| 0 <= j < i ==> (#[trigger] traps@[j]) == 0,
    {
        if traps[i] != 0 {
            return Err((i, RunError::DivideByZero { op_index: usize::MAX }));
        }
    }
    let flat: Vec<u8> = unpack_bytes(words, n * n_out);
    let mut rows: Vec<Vec<u8>> = Vec::with_capacity(n);
    for i in 0..n
        invariant
            flat@.len() == n * n_out,
            n * n_out <= usize::MAX,
            forall|j: int| 0 <= j < n * n_out ==> #[trigger] flat@[j] == flat_byte(words@, j),
            rows@.len() == i,
            forall|j: int|
                0 <= j < i ==> (#[trigger] rows@[j])@ == packed_row(words@, j, n_out as nat),
    {
        assert(0 <= i * n_out && i * n_out + n_out == (i + 1) * n_out && (i + 1) * n_out <= n
            * n_out) by (nonlinear_arith)
            requires
                0 <= i < n,
                n_out >= 0,
        ;
        let row: Vec<u8> = slice_to_vec(
            slice_subrange(flat.as_slice(), i * n_out, (i + 1) * n_out),
        );
        assert(row@ =~= packed_row(words@, i as int, n_out as nat));
        rows.push(row);
    }
    Ok(rows)
}

/// Rows of a batch from the bytes read back: the packed outputs, and the
/// trap flags, of which there may be more than `n`.
pub fn collect_rows(out_bytes: &[u8], trap_bytes: &[u8], n_out: usize, n: usize) -> (r: Result<
    Vec<Vec<u8>>,
    (usize, RunError),
>)
    requires
        out_bytes@.len() % 4 == 0,
        trap_bytes@.len() % 4 == 0,
        n * n_out <= out_bytes@.len(),
        4 * n <= trap_bytes@.len(),
    ensures
        exists|words: Seq<u32>, traps: Seq<u32>|
            #![trigger native_bytes(words), native_bytes(traps)]
            native_bytes(words) == out_bytes@ && native_bytes(traps) == trap_bytes@ && collected(
                words,
                traps,
                n_out as nat,
                n as nat,
                r,
            ),
{
    assert(out_bytes@.len() == out_bytes.len());
    let words: Vec<u32> = read_words(out_bytes);
    let traps: Vec<u32> = read_words(trap_bytes);
    collect_words(words.as_slice(), traps.as_slice(), n_out, n)
}

/// What the lane of instance `i` leaves when a program runs over packed
/// inputs: its cells and its trap flag.
pub open spec fn lane_of(prog: Program, inputs: Seq<u32>, i: int) -> (Seq<u8>, u32) {
    lane_result(
        op_stream(prog.ops()),
        prog.ops().len(),
        addr_words(prog.inputs@),
        inputs,
        i,
        prog.inputs@.len(),
    )
}

/// The output bytes that the lane of instance `i` leaves.
pub open spec fn lane_row(prog: Program, inputs: Seq<u32>, i: int) -> Seq<u8> {
    gather(
        narrow(addr_words(prog.outputs@), prog.outputs@.len()),
        lane_of(prog, inputs, i).0,
    )
}

/// The trap flags of `m` instances are those that their lanes raise, and
/// so are the packed output rows of the instances that did not trap. The
/// row of a trapped instance may hold anything.
pub open spec fn lanes_left(
    prog: Program,
    inputs: Seq<u32>,
    m: nat,
    words: Seq<u32>,
    traps: Seq<u32>,
) -> bool {
    forall|i: int|
        0 <= i < m ==> {
            &&& #[trigger] traps[i] == lane_of(prog, inputs, i).1
            &&& traps[i] == 0 ==> packed_row(words, i, prog.outputs@.len()) == lane_row(
                prog,
                inputs,
                i,
            )
        }
}

/// On the packed form of a batch, the lane of an instance raises its trap
/// flag exactly when the program traps there, and leaves the bytes that
/// the program yields otherwise.
pub proof fn lemma_lane_is_instance(prog: Program, instances: Seq<u8>, inputs: Seq<u32>, i: int)
    requires
        is_packed(instances, inputs),
        0 <= i,
        (i + 1) * prog.inputs@.len() <= instances.len(),
    ensures
        match instance_outcome(prog, instances, i) {
            Ok(bytes) => lane_of(prog, inputs, i).1 == 0 && lane_row(prog, inputs, i) == bytes,
            Err(_) => lane_of(prog, inputs, i).1 == 1,
        },
{
    law_kernel_matches_machine(
        prog,
        op_stream(prog.ops()),
        addr_words(prog.inputs@),
        addr_words(prog.outputs@),
        instances,
        inputs,
        i,
    );
}

/// What the host uploads for a completed program and a batch is what the
/// kernel asks for, with any number of words per lane that holds the
/// program's cells, such as [`cell_words`]: every address of the op
/// stream and of the tables lies within the cells of a lane, and the
/// packed inputs hold the row of every instance.
pub proof fn law_upload_meets_kernel(
    prog: Program,
    instances: Seq<u8>,
    n: nat,
    inputs: Seq<u32>,
    inst: nat,
    cell_words: nat,
)
    requires
        batch_ready(prog, instances, n),
        instances.len() <= usize::MAX,
        is_packed(instances, inputs),
        inst < n,
        4 * cell_words > prog.max_addr,
    ensures
        4 * cell_words_of(prog) > prog.max_addr,
        lane_ready(
            op_stream(prog.ops()),
            prog.ops().len(),
            addr_words(prog.inputs@),
            prog.inputs@.len(),
            addr_words(prog.outputs@),
            prog.outputs@.len(),
            inputs,
            inst,
            cell_words,
        ),
{
    let stream = op_stream(prog.ops());
    assert forall|k: int| 0 <= k < prog.ops().len() implies step_within(
        #[trigger] stream_words(stream, k),
        cell_words,
    ) by {
        assert(stream_words(stream, k) == op_words(prog.ops()[k])) by {
            assert((4 * k) / 4 == k && (4 * k + 1) / 4 == k && (4 * k + 2) / 4 == k);
        }
        law_decode_inverts_encode(prog.ops()[k]);
        assert(prog.ops()[k] == prog.op_at(k));
    }
    assert(stream_within(stream, prog.ops().len(), cell_words));
    let width = prog.inputs@.len();
    assert((inst + 1) * width <= n * width) by (nonlinear_arith)
        requires
            inst + 1 <= n,
            width >= 0,
    ;
}

/// One lane of the kernel is exact: on what the host uploads, the trap
/// word and the output row that the kernel writes for an instance are 0
/// and the bytes that the program yields there, or 1 when it traps; no
/// trap word and no output byte of another instance changes.
pub proof fn law_kernel_lane_is_exact(
    prog: Program,
    instances: Seq<u8>,
    inputs: Seq<u32>,
    inst: nat,
    outputs_before: Seq<u32>,
    outputs: Seq<u32>,
    traps_before: Seq<u32>,
    traps: Seq<u32>,
)
    requires
        is_packed(instances, inputs),
        (inst + 1) * prog.inputs@.len() <= instances.len(),
        (inst + 1) * prog.outputs@.len() <= 4 * outputs_before.len(),
        inst < traps_before.len(),
        row_written(outputs_before, outputs, inst as int, lane_row(prog, inputs, inst as int)),
        traps == traps_before.update(inst as int, lane_of(prog, inputs, inst as int).1),
    ensures
        match instance_outcome(prog, instances, inst as int) {
            Ok(bytes) => traps[inst as int] == 0 && packed_row(
                outputs,
                inst as int,
                prog.outputs@.len(),
            ) == bytes,
            Err(_) => traps[inst as int] == 1,
        },
        traps.len() == traps_before.len(),
        forall|j: int|
            0 <= j < traps.len() && j != inst ==> (#[trigger] traps[j]) == traps_before[j],
        outputs.len() == outputs_before.len(),
        forall|i: int|
            0 <= i < 4 * outputs.len() && !(inst * prog.outputs@.len() <= i < (inst + 1)
                * prog.outputs@.len()) ==> #[trigger] flat_byte(outputs, i) == flat_byte(
                outputs_before,
                i,
            ),
{
    lemma_lane_is_instance(prog, instances, inputs, inst as int);
    let row = lane_row(prog, inputs, inst as int);
    lemma_row_frame(outputs_before, outputs, inst, row, inst);
    assert((inst + 1) * row.len() == inst * row.len() + row.len()) by (nonlinear_arith);
}

/// The lanes of a batch of `n` instances ran one after the other, in the
/// order `order`: lane by lane, the output matrix and the trap words went
/// through the states `outputs` and `traps`, each lane changing them as
/// the kernel does.
pub open spec fn launched(
    prog: Program,
    inputs: Seq<u32>,
    n: nat,
    order: Seq<nat>,
    outputs: Seq<Seq<u32>>,
    traps: Seq<Seq<u32>>,
) -> bool {
    &&& covers_batch(order, n)
    &&& outputs.len() == order.len() + 1
    &&& traps.len() == order.len() + 1
    &&& n * prog.outputs@.len() <= 4 * outputs[0].len()
    &&& n <= traps[0].len()
    &&& forall|k: int|
        0 <= k < order.len() ==> {
            &&& row_written(
                outputs[k],
                outputs[k + 1],
                #[trigger] order[k] as int,
                lane_row(prog, inputs, order[k] as int),
            )
            &&& traps[k + 1] == traps[k].update(
                order[k] as int,
                lane_of(prog, inputs, order[k] as int).1,
            )
        }
}

/// `order` lists the instances `0..n`, each once.
pub open spec fn covers_batch(order: Seq<nat>, n: nat) -> bool {
    &&& order.no_duplicates()
    &&& forall|i: nat| i < n ==> #[trigger] order.contains(i)
    &&& forall|k: int| 0 <= k < order.len() ==> (#[trigger] order[k]) < n
}

/// At its turn a lane finds its row as it was at the start, and at the
/// end its row is the one it wrote.
proof fn lemma_lane_turn(
    prog: Program,
    inputs: Seq<u32>,
    n: nat,
    order: Seq<nat>,
    outputs: Seq<Seq<u32>>,
    traps: Seq<Seq<u32>>,
    k: int,
)
    requires
        launched(prog, inputs, n, order, outputs, traps),
        0 <= k < order.len(),
    ensures
        outputs[k].len() == outputs[0].len(),
        packed_row(outputs[k], order[k] as int, prog.outputs@.len()) == packed_row(
            outputs[0],
            order[k] as int,
            prog.outputs@.len(),
        ),
        packed_row(outputs.last(), order[k] as int, prog.outputs@.len()) == lane_row(
            prog,
            inputs,
            order[k] as int,
        ),
{
    let width = prog.outputs@.len();
    let rows = Seq::new(order.len(), |j: int| lane_row(prog, inputs, order[j] as int));
    assert forall|j: int| 0 <= j < order.len() implies {
        &&& #[trigger] rows[j].len() == width
        &&& (order[j] + 1) * width <= 4 * outputs[0].len()
        &&& row_written(outputs[j], outputs[j + 1], order[j] as int, rows[j])
    } by {
        let inst = order[j];
        assert((inst + 1) * width <= n * width) by (nonlinear_arith)
            requires
                inst + 1 <= n,
                width >= 0,
        ;
    }
    law_lanes_do_not_interfere(outputs, order, rows, width, k);
}

/// Running the lanes of a batch one after the other, in any order, over
/// an output matrix and trap words leaves the output row and the trap
/// flag of every instance.
pub proof fn law_launch_leaves_every_lane(
    prog: Program,
    inputs: Seq<u32>,
    n: nat,
    order: Seq<nat>,
    outputs: Seq<Seq<u32>>,
    traps: Seq<Seq<u32>>,
)
    requires
        launched(prog, inputs, n, order, outputs, traps),
    ensures
        lanes_left(prog, inputs, n, outputs.last(), traps.last()),
        forall|i: int|
            0 <= i < n ==> #[trigger] packed_row(outputs.last(), i, prog.outputs@.len())
                == lane_row(prog, inputs, i),
{
    let width = prog.outputs@.len();
    assert forall|i: int| 0 <= i < n implies #[trigger] packed_row(outputs.last(), i, width)
        == lane_row(prog, inputs, i) by {
        assert(order.contains(i as nat));
        let k = choose|k: int| 0 <= k < order.len() && order[k] == i as nat;
        lemma_lane_turn(prog, inputs, n, order, outputs, traps, k);
    }
    assert forall|i: int| 0 <= i < n implies #[trigger] traps.last()[i] == lane_of(
        prog,
        inputs,
        i,
    ).1 by {
        assert(order.contains(i as nat));
        let k = choose|k: int| 0 <= k < order.len() && order[k] == i as nat;
        lemma_words_so_far(
            order,
            n,
            traps,
            |inst: nat| lane_of(prog, inputs, inst as int).1,
            k,
            order.len() as int,
        );
    }
    assert forall|i: int| 0 <= i < n implies {
        &&& #[trigger] traps.last()[i] == lane_of(prog, inputs, i).1
        &&& traps.last()[i] == 0 ==> packed_row(outputs.last(), i, width) == lane_row(
            prog,
            inputs,
            i,
        )
    } by {
        assert(packed_row(outputs.last(), i, width) == lane_row(prog, inputs, i));
    }
}

/// The word of the lane that ran as number `k`, after `t` lanes each
/// stored the word `value` gives them.
pub proof fn lemma_words_so_far(
    order: Seq<nat>,
    n: nat,
    states: Seq<Seq<u32>>,
    value: spec_fn(nat) -> u32,
    k: int,
    t: int,
)
    requires
        order.no_duplicates(),
        forall|j: int| 0 <= j < order.len() ==> (#[trigger] order[j]) < n,
        states.len() == order.len() + 1,
        n <= states[0].len(),
        forall|j: int|
            0 <= j < order.len() ==> states[j + 1] == states[j].update(
                #[trigger] order[j] as int,
                value(order[j]),
            ),
        0 <= k < order.len(),
        0 <= t <= order.len(),
    ensures
        states[t].len() == states[0].len(),
        k < t ==> states[t][order[k] as int] == value(order[k]),
    decreases t,
{
    if t > 0 {
        lemma_words_so_far(order, n, states, value, k, t - 1);
        let last = order[t - 1];
        assert(states[t - 1 + 1] == states[t - 1].update(last as int, value(last)));
    }
}

/// A batch whose trap flags and output rows are those that the lanes
/// leave, up to what trapped rows hold, meets the contract of every batch runner: the rows are the
/// bytes that the program yields on each instance, and a reported
/// division by zero is the first trap of the batch.
pub proof fn law_gpu_batch_is_exact(
    prog: Program,
    instances: Seq<u8>,
    n: nat,
    inputs: Seq<u32>,
    words: Seq<u32>,
    traps: Seq<u32>,
    r: Result<Vec<Vec<u8>>, (usize, RunError)>,
)
    requires
        batch_ready(prog, instances, n),
        is_packed(instances, inputs),
        lanes_left(prog, inputs, n, words, traps),
        collected(words, traps, prog.outputs@.len(), n, r),
    ensures
        r is Ok <==> (forall|i: int|
            0 <= i < n ==> #[trigger] instance_outcome(prog, instances, i) is Ok),
        r matches Ok(rows) ==> rows_match(prog, instances, n, rows@),
        r matches Err((i, e)) ==> {
            &&& i < n
            &&& is_first_trap(prog, instances, i as int)
            &&& e.is_trap_at(usize::MAX as int)
        },
{
    let width = prog.inputs@.len();
    assert forall|i: int| 0 <= i < n implies (match instance_outcome(prog, instances, i) {
        Ok(bytes) => #[trigger] traps[i] == 0 && packed_row(words, i, prog.outputs@.len())
            == bytes,
        Err(_) => traps[i] == 1,
    }) by {
        assert((i + 1) * width <= n * width) by (nonlinear_arith)
            requires
                i + 1 <= n,
                width >= 0,
        ;
        lemma_lane_is_instance(prog, instances, inputs, i);
        assert(traps[i] == lane_of(prog, inputs, i).1);
    }
    match r {
        Ok(rows) => {
            assert forall|i: int| 0 <= i < n implies #[trigger] instance_outcome(
                prog,
                instances,
                i,
            ) is Ok by {
                assert(traps[i] == 0);
            }
            assert forall|i: int| 0 <= i < n implies instance_outcome(prog, instances, i) == Ok::<
                Seq<u8>,
                nat,
            >((#[trigger] rows@[i])@) by {
                assert(traps[i] == 0);
            }
        },
        Err((i, e)) => {
            assert(traps[i as int] != 0);
            assert(!(instance_outcome(prog, instances, i as int) is Ok));
            assert forall|j: int| 0 <= j < i implies #[trigger] instance_outcome(
                prog,
                instances,
                j,
            ) is Ok by {
                assert(traps[j] == 0);
            }
        },
    }
}

/// A whole batch on a global-memory device is exact: planned by
/// [`Resident::plan`], run lane by lane on what the plan uploads, and read
/// back, it gives the rows that the program yields, or the first trap.
/// Every lane finds its output row zero, as the kernel asks.
pub proof fn law_global_batch_is_exact(
    prog: Program,
    instances: Seq<u8>,
    n: nat,
    plan: BatchPlan,
    inputs: Seq<u32>,
    order: Seq<nat>,
    outputs: Seq<Seq<u32>>,
    traps: Seq<Seq<u32>>,
    r: Result<Vec<Vec<u8>>, (usize, RunError)>,
)
    requires
        batch_ready(prog, instances, n),
        n * prog.outputs@.len() <= usize::MAX,
        plan.is_for(instances, n, prog.outputs@.len()),
        native_bytes(inputs) == plan.inputs@,
        launched(prog, inputs, n, order, outputs, traps),
        native_bytes(outputs[0]) == plan.outputs@,
        collected(outputs.last(), traps.last(), prog.outputs@.len(), n, r),
    ensures
        forall|k: int|
            0 <= k < order.len() ==> row_is_zero(
                outputs[k],
                #[trigger] order[k],
                prog.outputs@.len(),
            ),
        r is Ok <==> (forall|i: int|
            0 <= i < n ==> #[trigger] instance_outcome(prog, instances, i) is Ok),
        r matches Ok(rows) ==> rows_match(prog, instances, n, rows@),
        r matches Err((i, e)) ==> {
            &&& i < n
            &&& is_first_trap(prog, instances, i as int)
            &&& e.is_trap_at(usize::MAX as int)
        },
{
    let packed = choose|words: Seq<u32>|
        is_packed(instances, words) && plan.inputs@ == #[trigger] native_bytes(words);
    law_bytes_determine_words(inputs, packed);
    law_launch_leaves_every_lane(prog, inputs, n, order, outputs, traps);
    law_gpu_batch_is_exact(prog, instances, n, inputs, outputs.last(), traps.last(), r);
    let width = prog.outputs@.len();
    lemma_zero_matrix(outputs[0], words_for(n * width));
    assert forall|k: int| 0 <= k < order.len() implies row_is_zero(
        outputs[k],
        #[trigger] order[k],
        width,
    ) by {
        let inst = order[k];
        assert((inst + 1) * width == inst * width + width && inst * width >= 0 && (inst + 1)
            * width <= n * width) by (nonlinear_arith)
            requires
                inst + 1 <= n,
                inst >= 0,
                width >= 0,
        ;
        let row = packed_row(outputs[0], inst as int, width);
        assert forall|j: int| 0 <= j < width implies #[trigger] row[j] == 0 by {
            assert(flat_byte(outputs[0], inst * width + j) == 0);
        }
        assert(row =~= Seq::new(width, |j: int| 0u8));
        lemma_lane_turn(prog, inputs, n, order, outputs, traps, k);
    }
}

} // verus!
