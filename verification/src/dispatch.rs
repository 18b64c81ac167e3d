//! Chunked dispatch of a batch to an LDS runner: each sub-batch stays
//! under the storage and work caps, so batches of any size run
//! transparently. The runner dispatches what these types hand out and
//! hands back what it read; they decide what comes next.

use crate::eval::RunError;
use crate::gpu::{
    collect_words, covers_batch, group_count, groups_for, lane_of, lane_row, lanes_left,
    lemma_lane_is_instance, lemma_words_so_far,
};
use crate::ir::Program;
use crate::kernel::packed_row;
use crate::lds::{chunk_for, chunk_of, lesser, LdsPlan, MAX_CELLS_BUFFER};
use crate::pack::{
    flat_byte, is_packed, native_bytes, pack_bytes, read_words, word_count, words_for,
    words_to_bytes, zero_bytes,
};
use crate::runner::{instance_outcome, is_first_trap, row_of, rows_match};
use vstd::prelude::*;
use vstd::slice::slice_subrange;

verus! {

/// Where a chunked batch stands: instances `0..start` of `n` are done,
/// and the next dispatch takes up to `chunk` more.
#[derive(Clone, Copy, Debug, PartialEq, Eq, Structural)]
pub struct Cursor {
    pub n: usize,
    pub chunk: usize,
    pub start: usize,
}

impl Cursor {
    /// The cursor is within the batch, and a dispatch makes progress.
    pub open spec fn wf(self) -> bool {
        &&& self.start <= self.n
        &&& self.chunk <= MAX_CELLS_BUFFER
        &&& self.n > 0 ==> self.chunk >= 1
    }

    /// End of the next dispatch.
    pub open spec fn stop(self) -> int {
        if self.start + self.chunk <= self.n {
            self.start + self.chunk
        } else {
            self.n as int
        }
    }

    /// Number of instances of the next dispatch.
    pub open spec fn span(self) -> nat {
        (self.stop() - self.start) as nat
    }

    /// The cursor after the next dispatch.
    pub open spec fn advanced(self) -> Cursor {
        Cursor { start: self.stop() as usize, ..self }
    }

    /// This is where a batch of `n` instances under `plan` starts.
    pub open spec fn starts(self, plan: LdsPlan, n: nat) -> bool {
        &&& self.n == n
        &&& self.start == 0
        &&& self.chunk == lesser(
            lesser(
                chunk_of(plan.n_ops as nat, (plan.tiling.cell_words * 4) as nat, 0),
                plan.capacity as nat,
            ),
            n,
        )
    }

    /// A batch of `n` instances under a plan: no dispatch exceeds the
    /// caps or the trap and flag words that the plan holds.
    pub fn new(plan: &LdsPlan, n: usize) -> (c: Self)
        requires
            plan.tiling.cell_words * 4 <= usize::MAX,
            n > 0 ==> plan.capacity >= 1,
        ensures
            c.wf(),
            c.starts(*plan, n as nat),
            c.n == n,
            c.start == 0,
            c.chunk == lesser(
                lesser(
                    chunk_of(plan.n_ops as nat, (plan.tiling.cell_words * 4) as nat, 0),
                    plan.capacity as nat,
                ),
                n as nat,
            ),
    {
        let mut chunk: usize = chunk_for(plan.n_ops, plan.tiling.cell_words * 4, 0);
        if plan.capacity < chunk {
            chunk = plan.capacity;
        }
        if n < chunk {
            chunk = n;
        }
        Cursor { n, chunk, start: 0 }
    }

    /// Whether every instance is done.
    pub fn done(&self) -> (b: bool)
        requires
            self.wf(),
        ensures
            b == (self.start == self.n),
    {
        self.start == self.n
    }

    /// End of the next dispatch.
    pub fn end(&self) -> (e: usize)
        requires
            self.wf(),
        ensures
            e == self.stop(),
            self.start <= e <= self.n,
            e - self.start <= self.chunk,
            self.start < self.n ==> self.start < e,
    {
        if self.n - self.start <= self.chunk {
            self.n
        } else {
            self.start + self.chunk
        }
    }
}

/// Dispatches partition the batch in order: each one starts where the
/// one before it stopped, takes at least one instance and at most
/// `chunk`, and none goes past the end.
pub proof fn law_dispatches_partition_batch(c: Cursor)
    requires
        c.wf(),
        c.start < c.n,
    ensures
        c.advanced().wf(),
        c.advanced().n == c.n,
        c.advanced().chunk == c.chunk,
        c.advanced().start == c.start + c.span(),
        1 <= c.span() <= c.chunk,
        c.advanced().start <= c.n,
{
}

/// One dispatch: the packed rows it uploads, the size and zeroed
/// contents of its output matrix, and the workgroups to launch.
pub struct Dispatch {
    /// Instances of this dispatch.
    pub m: usize,
    pub inputs: Vec<u8>,
    pub out_words: usize,
    pub outputs: Vec<u8>,
    pub groups: u32,
}

/// One dispatch that is graded on the device: the packed rows and the
/// packed answer key it uploads, and the workgroups to launch.
pub struct GradedDispatch {
    /// Instances of this dispatch.
    pub m: usize,
    pub inputs: Vec<u8>,
    pub expected: Vec<u8>,
    pub groups: u32,
}

/// `bytes` are the packed rows `start..end` of a matrix, as the machine
/// lays the words out.
pub open spec fn is_upload(
    bytes: Seq<u8>,
    matrix: Seq<u8>,
    width: nat,
    start: int,
    end: int,
) -> bool {
    exists|words: Seq<u32>|
        is_packed(matrix.subrange(start * width, end * width), words) && bytes
            == #[trigger] native_bytes(words)
}

impl Dispatch {
    /// This is what to dispatch next of a batch that stands at `cursor`.
    pub open spec fn is_next(
        &self,
        cursor: Cursor,
        prog: Program,
        instances: Seq<u8>,
        lanes: nat,
    ) -> bool {
        &&& self.m == cursor.span()
        &&& is_upload(
            self.inputs@,
            instances,
            prog.inputs@.len(),
            cursor.start as int,
            cursor.stop(),
        )
        &&& self.out_words == self.m * words_for(prog.outputs@.len())
        &&& self.outputs@ == zero_bytes((4 * self.out_words) as nat)
        &&& self.groups == group_count(self.m as nat, lanes)
    }
}

impl GradedDispatch {
    /// This is what to dispatch next of a graded batch that stands at
    /// `cursor`.
    pub open spec fn is_next(
        &self,
        cursor: Cursor,
        prog: Program,
        instances: Seq<u8>,
        answers: Seq<u8>,
        lanes: nat,
    ) -> bool {
        &&& self.m == cursor.span()
        &&& is_upload(
            self.inputs@,
            instances,
            prog.inputs@.len(),
            cursor.start as int,
            cursor.stop(),
        )
        &&& is_upload(
            self.expected@,
            answers,
            prog.outputs@.len(),
            cursor.start as int,
            cursor.stop(),
        )
        &&& self.groups == group_count(self.m as nat, lanes)
    }
}

/// The packed rows `start..end` of a matrix, as the machine lays the
/// words out.
fn upload_rows(matrix: &[u8], width: usize, start: usize, end: usize) -> (bytes: Vec<u8>)
    requires
        start <= end,
        end * width <= matrix@.len(),
    ensures
        is_upload(bytes@, matrix@, width as nat, start as int, end as int),
{
    assert(matrix@.len() == matrix.len());
    assert(0 <= start * width <= end * width) by (nonlinear_arith)
        requires
            0 <= start <= end,
            width >= 0,
    ;
    let words: Vec<u32> = pack_bytes(slice_subrange(matrix, start * width, end * width));
    words_to_bytes(words.as_slice())
}

/// Workgroups for a dispatch of at most [`MAX_CELLS_BUFFER`] instances.
fn dispatch_groups(m: usize, lanes: usize) -> (g: u32)
    requires
        m <= MAX_CELLS_BUFFER,
        lanes >= 1,
    ensures
        g == group_count(m as nat, lanes as nat),
{
    proof {
        vstd::arithmetic::div_mod::lemma_div_is_ordered_by_denominator(m as int, 1, lanes as int);
    }
    groups_for(m, lanes)
}

/// A batch that returns its output rows.
pub struct RawRun {
    pub cursor: Cursor,
    /// Rows of the instances done so far.
    pub rows: Vec<Vec<u8>>,
}

/// What handing back the words of one dispatch does to a raw run: the
/// first trap ends the batch with an error at that instance, counted
/// from the start of the batch; without one, the rows of the dispatch
/// follow those before them, and the cursor moves on.
pub open spec fn raw_advanced(
    before: RawRun,
    after: RawRun,
    words: Seq<u32>,
    traps: Seq<u32>,
    n_out: nat,
    r: Result<(), (usize, RunError)>,
) -> bool {
    let m = before.cursor.span();
    let start = before.cursor.start;
    match r {
        Ok(_) => {
            &&& forall|i: int| 0 <= i < m ==> (#[trigger] traps[i]) == 0
            &&& after.cursor == before.cursor.advanced()
            &&& after.rows@.len() == before.rows@.len() + m
            &&& after.rows@.take(before.rows@.len() as int) == before.rows@
            &&& forall|i: int|
                0 <= i < m ==> (#[trigger] after.rows@[before.rows@.len() + i])@ == packed_row(
                    words,
                    i,
                    n_out,
                )
        },
        Err((k, e)) => {
            &&& start <= k < before.cursor.stop()
            &&& traps[k - start] != 0
            &&& forall|i: int| 0 <= i < k - start ==> (#[trigger] traps[i]) == 0
            &&& e.is_trap_at(usize::MAX as int)
            &&& after == before
        },
    }
}

impl RawRun {
    /// The rows are those of the instances before the cursor.
    pub open spec fn wf(&self) -> bool {
        &&& self.cursor.wf()
        &&& self.rows@.len() == self.cursor.start
    }

    /// A batch of `n` instances under a plan.
    pub fn new(plan: &LdsPlan, n: usize) -> (run: Self)
        requires
            plan.tiling.cell_words * 4 <= usize::MAX,
            n > 0 ==> plan.capacity >= 1,
        ensures
            run.wf(),
            run.cursor.starts(*plan, n as nat),
            run.rows@ == Seq::<Vec<u8>>::empty(),
            run.cursor.n == n,
            run.cursor.start == 0,
            run.cursor.chunk == lesser(
                lesser(
                    chunk_of(plan.n_ops as nat, (plan.tiling.cell_words * 4) as nat, 0),
                    plan.capacity as nat,
                ),
                n as nat,
            ),
    {
        RawRun { cursor: Cursor::new(plan, n), rows: Vec::new() }
    }

    /// What to dispatch next.
    pub fn dispatch(&self, plan: &LdsPlan, prog: &Program, instances: &[u8]) -> (d: Dispatch)
        requires
            self.wf(),
            self.cursor.start < self.cursor.n,
            plan.tiling.lanes >= 1,
            instances@.len() == self.cursor.n * prog.inputs@.len(),
            self.cursor.span() * words_for(prog.outputs@.len()) * 4 <= usize::MAX,
        ensures
            d.is_next(self.cursor, *prog, instances@, plan.tiling.lanes as nat),
            d.m == self.cursor.span(),
            is_upload(
                d.inputs@,
                instances@,
                prog.inputs@.len(),
                self.cursor.start as int,
                self.cursor.stop(),
            ),
            d.out_words == d.m * words_for(prog.outputs@.len()),
            d.outputs@ == zero_bytes((4 * d.out_words) as nat),
            d.groups == group_count(d.m as nat, plan.tiling.lanes as nat),
    {
        let end: usize = self.cursor.end();
        let m: usize = end - self.cursor.start;
        let width: usize = prog.inputs.len();
        let row_words: usize = word_count(prog.outputs.len());
        assert(end * width <= self.cursor.n * width) by (nonlinear_arith)
            requires
                end <= self.cursor.n,
                width >= 0,
        ;
        assert(0 <= m * row_words) by (nonlinear_arith)
            requires
                m >= 0,
                row_words >= 0,
        ;
        let out_words: usize = m * row_words;
        let d = Dispatch {
            m,
            inputs: upload_rows(instances, width, self.cursor.start, end),
            out_words,
            outputs: vec![0u8; out_words * 4],
            groups: dispatch_groups(m, plan.tiling.lanes),
        };
        assert(d.outputs@ =~= zero_bytes((4 * out_words) as nat));
        d
    }

    /// Take in the words of the last dispatch.
    pub fn absorb_words(&mut self, words: &[u32], traps: &[u32], n_out: usize) -> (r: Result<
        (),
        (usize, RunError),
    >)
        requires
            old(self).wf(),
            old(self).cursor.span() * n_out <= 4 * words@.len(),
            old(self).cursor.span() * n_out <= usize::MAX,
            old(self).cursor.span() <= traps@.len(),
        ensures
            final(self).wf(),
            raw_advanced(*old(self), *final(self), words@, traps@, n_out as nat, r),
    {
        let end: usize = self.cursor.end();
        let start: usize = self.cursor.start;
        match collect_words(words, traps, n_out, end - start) {
            Ok(piece) => {
                let ghost before = self.rows@;
                let ghost added = piece@;
                let mut piece = piece;
                self.rows.append(&mut piece);
                self.cursor.start = end;
                assert(self.rows@ =~= before + added);
                assert(self.rows@.take(before.len() as int) =~= before);
                Ok(())
            },
            Err((i, e)) => Err((start + i, e)),
        }
    }

    /// Take in the bytes read back from the last dispatch: the packed
    /// outputs, and the trap flags, of which there may be more than the
    /// dispatch had instances.
    pub fn absorb(&mut self, out_bytes: &[u8], trap_bytes: &[u8], n_out: usize) -> (r: Result<
        (),
        (usize, RunError),
    >)
        requires
            old(self).wf(),
            out_bytes@.len() % 4 == 0,
            trap_bytes@.len() % 4 == 0,
            old(self).cursor.span() * n_out <= out_bytes@.len(),
            4 * old(self).cursor.span() <= trap_bytes@.len(),
        ensures
            final(self).wf(),
            exists|words: Seq<u32>, traps: Seq<u32>|
                #![trigger native_bytes(words), native_bytes(traps)]
                native_bytes(words) == out_bytes@ && native_bytes(traps) == trap_bytes@
                    && raw_advanced(*old(self), *final(self), words, traps, n_out as nat, r),
    {
        assert(out_bytes@.len() == out_bytes.len());
        let words: Vec<u32> = read_words(out_bytes);
        let traps: Vec<u32> = read_words(trap_bytes);
        self.absorb_words(words.as_slice(), traps.as_slice(), n_out)
    }
}

/// How many of the first `k` flags are 1.
pub open spec fn flags_set(flags: Seq<u32>, k: nat) -> nat
    decreases k,
{
    if k == 0 {
        0
    } else {
        flags_set(flags, (k - 1) as nat) + (if flags[k - 1] == 1 {
            1nat
        } else {
            0nat
        })
    }
}

/// A batch that is graded on the device and returns how many instances
/// were correct.
#[derive(Clone, Copy, Debug, PartialEq, Eq, Structural)]
pub struct ScoredRun {
    pub cursor: Cursor,
    /// Correct instances among those done so far.
    pub correct: usize,
}

/// What handing back the words of one dispatch does to a scored run: the
/// first trap ends the batch with an error at that instance, counted
/// from the start of the batch; without one, the flags that are 1 are
/// added up, and the cursor moves on.
pub open spec fn scored_advanced(
    before: ScoredRun,
    after: ScoredRun,
    flags: Seq<u32>,
    traps: Seq<u32>,
    r: Result<(), (usize, RunError)>,
) -> bool {
    let m = before.cursor.span();
    let start = before.cursor.start;
    match r {
        Ok(_) => {
            &&& forall|i: int| 0 <= i < m ==> (#[trigger] traps[i]) == 0
            &&& after.cursor == before.cursor.advanced()
            &&& after.correct == before.correct + flags_set(flags, m)
        },
        Err((k, e)) => {
            &&& start <= k < before.cursor.stop()
            &&& traps[k - start] != 0
            &&& forall|i: int| 0 <= i < k - start ==> (#[trigger] traps[i]) == 0
            &&& e.is_trap_at(usize::MAX as int)
            &&& after == before
        },
    }
}

impl ScoredRun {
    /// No more are correct than are done.
    pub open spec fn wf(&self) -> bool {
        &&& self.cursor.wf()
        &&& self.correct <= self.cursor.start
    }

    /// A batch of `n` instances under a plan.
    pub fn new(plan: &LdsPlan, n: usize) -> (run: Self)
        requires
            plan.tiling.cell_words * 4 <= usize::MAX,
            n > 0 ==> plan.capacity >= 1,
        ensures
            run.wf(),
            run.cursor.starts(*plan, n as nat),
            run.correct == 0,
            run.cursor.n == n,
            run.cursor.start == 0,
            run.cursor.chunk == lesser(
                lesser(
                    chunk_of(plan.n_ops as nat, (plan.tiling.cell_words * 4) as nat, 0),
                    plan.capacity as nat,
                ),
                n as nat,
            ),
    {
        ScoredRun { cursor: Cursor::new(plan, n), correct: 0 }
    }

    /// What to dispatch next.
    pub fn dispatch(
        &self,
        plan: &LdsPlan,
        prog: &Program,
        instances: &[u8],
        expected_flat: &[u8],
    ) -> (d: GradedDispatch)
        requires
            self.wf(),
            self.cursor.start < self.cursor.n,
            plan.tiling.lanes >= 1,
            instances@.len() == self.cursor.n * prog.inputs@.len(),
            expected_flat@.len() == self.cursor.n * prog.outputs@.len(),
        ensures
            d.is_next(
                self.cursor,
                *prog,
                instances@,
                expected_flat@,
                plan.tiling.lanes as nat,
            ),
            d.m == self.cursor.span(),
            is_upload(
                d.inputs@,
                instances@,
                prog.inputs@.len(),
                self.cursor.start as int,
                self.cursor.stop(),
            ),
            is_upload(
                d.expected@,
                expected_flat@,
                prog.outputs@.len(),
                self.cursor.start as int,
                self.cursor.stop(),
            ),
            d.groups == group_count(d.m as nat, plan.tiling.lanes as nat),
    {
        let end: usize = self.cursor.end();
        let m: usize = end - self.cursor.start;
        let width: usize = prog.inputs.len();
        let out_w: usize = prog.outputs.len();
        assert(end * width <= self.cursor.n * width && end * out_w <= self.cursor.n * out_w)
            by (nonlinear_arith)
            requires
                end <= self.cursor.n,
                width >= 0,
                out_w >= 0,
        ;
        GradedDispatch {
            m,
            inputs: upload_rows(instances, width, self.cursor.start, end),
            expected: upload_rows(expected_flat, out_w, self.cursor.start, end),
            groups: dispatch_groups(m, plan.tiling.lanes),
        }
    }

    /// Take in the words of the last dispatch.
    pub fn absorb_words(&mut self, flags: &[u32], traps: &[u32]) -> (r: Result<
        (),
        (usize, RunError),
    >)
        requires
            old(self).wf(),
            old(self).cursor.span() <= flags@.len(),
            old(self).cursor.span() <= traps@.len(),
        ensures
            final(self).wf(),
            scored_advanced(*old(self), *final(self), flags@, traps@, r),
    {
        let end: usize = self.cursor.end();
        let start: usize = self.cursor.start;
        let m: usize = end - start;
        for i in 0..m
            invariant
                m <= traps@.len(),
                start + m <= usize::MAX,
                m == old(self).cursor.span(),
                start == old(self).cursor.start,
                start + m == old(self).cursor.stop(),
                *self == *old(self),
                self.wf(),
                forall|j: int| 0 <= j < i ==> (#[trigger] traps@[j]) == 0,
        {
            if traps[i] != 0 {
                return Err((start + i, RunError::DivideByZero { op_index: usize::MAX }));
            }
        }
        let mut count: usize = 0;
        for i in 0..m
            invariant
                m <= flags@.len(),
                count <= i,
                count == flags_set(flags@, i as nat),
        {
            if flags[i] == 1 {
                count = count + 1;
            }
        }
        self.correct = self.correct + count;
        self.cursor.start = end;
        Ok(())
    }

    /// Take in the bytes read back from the last dispatch: the flags and
    /// the trap flags, of which there may be more than the dispatch had
    /// instances.
    pub fn absorb(&mut self, flag_bytes: &[u8], trap_bytes: &[u8]) -> (r: Result<
        (),
        (usize, RunError),
    >)
        requires
            old(self).wf(),
            flag_bytes@.len() % 4 == 0,
            trap_bytes@.len() % 4 == 0,
            4 * old(self).cursor.span() <= flag_bytes@.len(),
            4 * old(self).cursor.span() <= trap_bytes@.len(),
        ensures
            final(self).wf(),
            exists|flags: Seq<u32>, traps: Seq<u32>|
                #![trigger native_bytes(flags), native_bytes(traps)]
                native_bytes(flags) == flag_bytes@ && native_bytes(traps) == trap_bytes@
                    && scored_advanced(*old(self), *final(self), flags, traps, r),
    {
        let flags: Vec<u32> = read_words(flag_bytes);
        let traps: Vec<u32> = read_words(trap_bytes);
        self.absorb_words(flags.as_slice(), traps.as_slice())
    }
}

/// The rows of a sub-batch are rows of the batch.
proof fn lemma_sub_batch_rows(
    prog: Program,
    instances: Seq<u8>,
    n: int,
    start: int,
    stop: int,
    i: int,
)
    requires
        instances.len() == n * prog.inputs@.len(),
        0 <= start <= stop <= n,
        0 <= i < stop - start,
    ensures
        ({
            let width = prog.inputs@.len();
            let sub = instances.subrange(start * width, stop * width);
            &&& sub.len() == (stop - start) * width
            &&& (i + 1) * width <= sub.len()
            &&& instance_outcome(prog, sub, i) == instance_outcome(prog, instances, start + i)
        }),
{
    let width = prog.inputs@.len();
    assert(0 <= start * width <= stop * width <= n * width) by (nonlinear_arith)
        requires
            0 <= start <= stop <= n,
            width >= 0,
    ;
    assert((stop - start) * width == stop * width - start * width) by (nonlinear_arith);
    assert(0 <= i * width && (i + 1) * width == i * width + width && (i + 1) * width <= (stop
        - start) * width) by (nonlinear_arith)
        requires
            0 <= i < stop - start,
            width >= 0,
    ;
    assert((start + i) * width == start * width + i * width && (start + i + 1) * width == start
        * width + (i + 1) * width) by (nonlinear_arith);
    let sub = instances.subrange(start * width, stop * width);
    assert(row_of(sub, width, i) =~= row_of(instances, width, start + i));
}

/// A raw run whose dispatches leave what their lanes leave builds up the
/// exact result of the batch: the rows so far are the bytes that the
/// program yields on the instances so far, and an error is the first
/// trap of the batch.
pub proof fn law_raw_run_is_exact(
    prog: Program,
    instances: Seq<u8>,
    before: RawRun,
    after: RawRun,
    inputs: Seq<u32>,
    words: Seq<u32>,
    traps: Seq<u32>,
    r: Result<(), (usize, RunError)>,
)
    requires
        before.wf(),
        instances.len() == before.cursor.n * prog.inputs@.len(),
        rows_match(prog, instances, before.cursor.start as nat, before.rows@),
        is_packed(
            instances.subrange(
                before.cursor.start * prog.inputs@.len(),
                before.cursor.stop() * prog.inputs@.len(),
            ),
            inputs,
        ),
        lanes_left(prog, inputs, before.cursor.span(), words, traps),
        raw_advanced(before, after, words, traps, prog.outputs@.len(), r),
    ensures
        r is Ok ==> rows_match(prog, instances, after.cursor.start as nat, after.rows@),
        r matches Err((k, e)) ==> {
            &&& k < before.cursor.n
            &&& is_first_trap(prog, instances, k as int)
            &&& e.is_trap_at(usize::MAX as int)
        },
{
    let start = before.cursor.start as int;
    let stop = before.cursor.stop();
    let n = before.cursor.n as int;
    let sub = instances.subrange(start * prog.inputs@.len(), stop * prog.inputs@.len());
    assert forall|i: int| 0 <= i < stop - start implies (match instance_outcome(
        prog,
        instances,
        start + i,
    ) {
        Ok(bytes) => #[trigger] traps[i] == 0 && packed_row(words, i, prog.outputs@.len())
            == bytes,
        Err(_) => traps[i] == 1,
    }) by {
        lemma_sub_batch_rows(prog, instances, n, start, stop, i);
        lemma_lane_is_instance(prog, sub, inputs, i);
        assert(traps[i] == lane_of(prog, inputs, i).1);
    }
    match r {
        Ok(_) => {
            assert forall|i: int| 0 <= i < stop implies instance_outcome(prog, instances, i)
                == Ok::<Seq<u8>, nat>((#[trigger] after.rows@[i])@) by {
                if i < start {
                    assert(after.rows@[i] == after.rows@.take(before.rows@.len() as int)[i]);
                    assert(after.rows@[i] == before.rows@[i]);
                } else {
                    assert(traps[i - start] == 0);
                    assert(after.rows@[before.rows@.len() + (i - start)]@ == packed_row(
                        words,
                        i - start,
                        prog.outputs@.len(),
                    ));
                }
            }
        },
        Err((k, e)) => {
            assert(traps[k - start] != 0);
            assert forall|j: int| 0 <= j < k implies #[trigger] instance_outcome(
                prog,
                instances,
                j,
            ) is Ok by {
                if j < start {
                    assert(before.rows@[j]@ == before.rows@[j]@);
                } else {
                    assert(traps[j - start] == 0);
                }
            }
        },
    }
}

/// What one dispatch of a raw run uploaded, what the device left, and
/// what came of it.
pub struct RawStep {
    pub inputs: Seq<u32>,
    pub words: Seq<u32>,
    pub traps: Seq<u32>,
    pub r: Result<(), (usize, RunError)>,
}

/// One dispatch took a raw run from `before` to `after`: it uploaded the
/// rows of its instances, and the device left what their lanes leave.
pub open spec fn raw_step(
    prog: Program,
    instances: Seq<u8>,
    before: RawRun,
    step: RawStep,
    after: RawRun,
) -> bool {
    &&& is_packed(
        instances.subrange(
            before.cursor.start * prog.inputs@.len(),
            before.cursor.stop() * prog.inputs@.len(),
        ),
        step.inputs,
    )
    &&& lanes_left(prog, step.inputs, before.cursor.span(), step.words, step.traps)
    &&& raw_advanced(before, after, step.words, step.traps, prog.outputs@.len(), step.r)
}

/// A batch of `n` instances was run dispatch by dispatch, from a fresh run
/// on, until `r` came of it: the rows once every instance was done, or
/// the first error.
pub open spec fn raw_batch(
    prog: Program,
    instances: Seq<u8>,
    n: nat,
    runs: Seq<RawRun>,
    steps: Seq<RawStep>,
    r: Result<Vec<Vec<u8>>, (usize, RunError)>,
) -> bool {
    &&& runs.len() == steps.len() + 1
    &&& runs[0].wf()
    &&& runs[0].cursor.n == n
    &&& runs[0].cursor.start == 0
    &&& forall|k: int|
        0 <= k < steps.len() ==> raw_step(
            prog,
            instances,
            runs[k],
            #[trigger] steps[k],
            runs[k + 1],
        )
    &&& forall|k: int| 0 <= k < steps.len() - 1 ==> (#[trigger] steps[k]).r is Ok
    &&& match r {
        Ok(rows) => {
            &&& forall|k: int| 0 <= k < steps.len() ==> (#[trigger] steps[k]).r is Ok
            &&& runs.last().cursor.start == n
            &&& rows == runs.last().rows
        },
        Err(e) => steps.len() > 0 && steps.last().r == Err::<(), (usize, RunError)>(e),
    }
}

/// After `t` dispatches without an error, the rows are those of the
/// instances done.
proof fn lemma_raw_so_far(
    prog: Program,
    instances: Seq<u8>,
    n: nat,
    runs: Seq<RawRun>,
    steps: Seq<RawStep>,
    r: Result<Vec<Vec<u8>>, (usize, RunError)>,
    t: int,
)
    requires
        instances.len() == n * prog.inputs@.len(),
        raw_batch(prog, instances, n, runs, steps, r),
        0 <= t <= steps.len(),
        forall|k: int| 0 <= k < t ==> (#[trigger] steps[k]).r is Ok,
    ensures
        runs[t].wf(),
        runs[t].cursor.n == n,
        rows_match(prog, instances, runs[t].cursor.start as nat, runs[t].rows@),
    decreases t,
{
    if t > 0 {
        lemma_raw_so_far(prog, instances, n, runs, steps, r, t - 1);
        let step = steps[t - 1];
        assert(raw_step(prog, instances, runs[t - 1], step, runs[t - 1 + 1]));
        law_raw_run_is_exact(
            prog,
            instances,
            runs[t - 1],
            runs[t],
            step.inputs,
            step.words,
            step.traps,
            step.r,
        );
    }
}

/// A whole chunked batch is exact, whatever the chunk: without a trap it
/// returns the bytes that the program yields on every instance, in
/// instance order across chunks; otherwise it fails at the first trap of
/// the whole batch.
pub proof fn law_raw_batch_is_exact(
    prog: Program,
    instances: Seq<u8>,
    n: nat,
    runs: Seq<RawRun>,
    steps: Seq<RawStep>,
    r: Result<Vec<Vec<u8>>, (usize, RunError)>,
)
    requires
        instances.len() == n * prog.inputs@.len(),
        raw_batch(prog, instances, n, runs, steps, r),
    ensures
        r is Ok <==> (forall|i: int|
            0 <= i < n ==> #[trigger] instance_outcome(prog, instances, i) is Ok),
        r matches Ok(rows) ==> rows_match(prog, instances, n, rows@),
        r matches Err((i, e)) ==> {
            &&& i < n
            &&& is_first_trap(prog, instances, i as int)
            &&& e.is_trap_at(usize::MAX as int)
        },
{
    let last = steps.len() as int;
    match r {
        Ok(rows) => {
            lemma_raw_so_far(prog, instances, n, runs, steps, r, last);
            assert forall|i: int| 0 <= i < n implies #[trigger] instance_outcome(
                prog,
                instances,
                i,
            ) is Ok by {
                assert(rows@[i]@ == rows@[i]@);
            }
        },
        Err((i, e)) => {
            lemma_raw_so_far(prog, instances, n, runs, steps, r, last - 1);
            let step = steps[last - 1];
            assert(raw_step(prog, instances, runs[last - 1], step, runs[last - 1 + 1]));
            law_raw_run_is_exact(
                prog,
                instances,
                runs[last - 1],
                runs[last],
                step.inputs,
                step.words,
                step.traps,
                step.r,
            );
            assert(!(instance_outcome(prog, instances, i as int) is Ok));
        },
    }
}

/// How many of the first `k` instances yield their row of the answer
/// key.
pub open spec fn correct_so_far(
    prog: Program,
    instances: Seq<u8>,
    expected: Seq<u8>,
    k: nat,
) -> nat
    decreases k,
{
    if k == 0 {
        0
    } else {
        correct_so_far(prog, instances, expected, (k - 1) as nat) + (if instance_outcome(
            prog,
            instances,
            k - 1,
        ) == Ok::<Seq<u8>, nat>(row_of(expected, prog.outputs@.len(), k - 1)) {
            1nat
        } else {
            0nat
        })
    }
}

/// The grade of the lane of instance `i`: 1 when it did not trap and its
/// output row equals its row of the packed answer key, and 0 otherwise.
pub open spec fn lane_grade(
    prog: Program,
    inputs: Seq<u32>,
    expected: Seq<u32>,
    i: int,
) -> u32 {
    if lane_of(prog, inputs, i).1 == 0 && lane_row(prog, inputs, i) == packed_row(
        expected,
        i,
        prog.outputs@.len(),
    ) {
        1
    } else {
        0
    }
}

/// The trap flags and the grades of `m` instances are those that their
/// lanes leave.
pub open spec fn lanes_graded(
    prog: Program,
    inputs: Seq<u32>,
    expected: Seq<u32>,
    m: nat,
    flags: Seq<u32>,
    traps: Seq<u32>,
) -> bool {
    forall|i: int|
        0 <= i < m ==> {
            &&& #[trigger] traps[i] == lane_of(prog, inputs, i).1
            &&& flags[i] == lane_grade(prog, inputs, expected, i)
        }
}

/// Running the graded lanes of a batch one after the other, in any order,
/// each storing its trap flag and its grade as the kernel does, leaves the
/// flag and the grade of every instance.
pub proof fn law_scored_launch_grades_every_lane(
    prog: Program,
    inputs: Seq<u32>,
    expected: Seq<u32>,
    n: nat,
    order: Seq<nat>,
    flags: Seq<Seq<u32>>,
    traps: Seq<Seq<u32>>,
)
    requires
        covers_batch(order, n),
        flags.len() == order.len() + 1,
        traps.len() == order.len() + 1,
        n <= flags[0].len(),
        n <= traps[0].len(),
        forall|k: int|
            0 <= k < order.len() ==> {
                &&& flags[k + 1] == flags[k].update(
                    #[trigger] order[k] as int,
                    lane_grade(prog, inputs, expected, order[k] as int),
                )
                &&& traps[k + 1] == traps[k].update(
                    order[k] as int,
                    lane_of(prog, inputs, order[k] as int).1,
                )
            },
    ensures
        lanes_graded(prog, inputs, expected, n, flags.last(), traps.last()),
{
    let grade = |inst: nat| lane_grade(prog, inputs, expected, inst as int);
    let trap = |inst: nat| lane_of(prog, inputs, inst as int).1;
    assert forall|i: int| 0 <= i < n implies {
        &&& #[trigger] traps.last()[i] == lane_of(prog, inputs, i).1
        &&& flags.last()[i] == lane_grade(prog, inputs, expected, i)
    } by {
        assert(order.contains(i as nat));
        let k = choose|k: int| 0 <= k < order.len() && order[k] == i as nat;
        lemma_words_so_far(order, n, flags, grade, k, order.len() as int);
        lemma_words_so_far(order, n, traps, trap, k, order.len() as int);
    }
}

/// A scored run whose dispatches leave what their lanes leave counts
/// exactly the instances on which the program yields its row of the
/// answer key, and an error is the first trap of the batch.
pub proof fn law_scored_run_is_exact(
    prog: Program,
    instances: Seq<u8>,
    answers: Seq<u8>,
    before: ScoredRun,
    after: ScoredRun,
    inputs: Seq<u32>,
    expected: Seq<u32>,
    flags: Seq<u32>,
    traps: Seq<u32>,
    r: Result<(), (usize, RunError)>,
)
    requires
        before.wf(),
        instances.len() == before.cursor.n * prog.inputs@.len(),
        answers.len() == before.cursor.n * prog.outputs@.len(),
        before.correct == correct_so_far(
            prog,
            instances,
            answers,
            before.cursor.start as nat,
        ),
        forall|i: int|
            0 <= i < before.cursor.start ==> #[trigger] instance_outcome(prog, instances, i) is Ok,
        is_packed(
            instances.subrange(
                before.cursor.start * prog.inputs@.len(),
                before.cursor.stop() * prog.inputs@.len(),
            ),
            inputs,
        ),
        is_packed(
            answers.subrange(
                before.cursor.start * prog.outputs@.len(),
                before.cursor.stop() * prog.outputs@.len(),
            ),
            expected,
        ),
        lanes_graded(prog, inputs, expected, before.cursor.span(), flags, traps),
        scored_advanced(before, after, flags, traps, r),
    ensures
        r is Ok ==> after.correct == correct_so_far(
            prog,
            instances,
            answers,
            after.cursor.start as nat,
        ),
        r is Ok ==> forall|i: int|
            0 <= i < after.cursor.start ==> #[trigger] instance_outcome(prog, instances, i) is Ok,
        r matches Err((k, e)) ==> {
            &&& k < before.cursor.n
            &&& is_first_trap(prog, instances, k as int)
            &&& e.is_trap_at(usize::MAX as int)
        },
{
    let start = before.cursor.start as int;
    let stop = before.cursor.stop();
    let n = before.cursor.n as int;
    let sub = instances.subrange(start * prog.inputs@.len(), stop * prog.inputs@.len());
    assert forall|i: int| 0 <= i < stop - start implies (match instance_outcome(
        prog,
        instances,
        start + i,
    ) {
        Ok(bytes) => #[trigger] traps[i] == 0 && lane_row(prog, inputs, i) == bytes,
        Err(_) => traps[i] == 1,
    }) by {
        lemma_sub_batch_rows(prog, instances, n, start, stop, i);
        lemma_lane_is_instance(prog, sub, inputs, i);
        assert(traps[i] == lane_of(prog, inputs, i).1);
    }
    match r {
        Ok(_) => {
            assert forall|i: int| 0 <= i < stop implies #[trigger] instance_outcome(
                prog,
                instances,
                i,
            ) is Ok by {
                if i >= start {
                    assert(traps[i - start] == 0);
                }
            }
            assert forall|i: int| 0 <= i < stop - start implies instance_outcome(
                prog,
                instances,
                start + i,
            ) == Ok::<Seq<u8>, nat>(#[trigger] lane_row(prog, inputs, i)) by {
                assert(traps[i] == 0);
            }
            lemma_flags_count(
                prog,
                instances,
                answers,
                before.cursor,
                inputs,
                expected,
                flags,
                traps,
                (stop - start) as nat,
            );
        },
        Err((k, e)) => {
            assert(traps[k - start] != 0);
            assert forall|j: int| 0 <= j < k implies #[trigger] instance_outcome(
                prog,
                instances,
                j,
            ) is Ok by {
                if j >= start {
                    assert(traps[j - start] == 0);
                }
            }
        },
    }
}

/// The first `k` flags of a dispatch without traps count the correct
/// ones among its first `k` instances.
proof fn lemma_flags_count(
    prog: Program,
    instances: Seq<u8>,
    answers: Seq<u8>,
    cursor: Cursor,
    inputs: Seq<u32>,
    expected: Seq<u32>,
    flags: Seq<u32>,
    traps: Seq<u32>,
    k: nat,
)
    requires
        cursor.wf(),
        k <= cursor.span(),
        answers.len() == cursor.n * prog.outputs@.len(),
        is_packed(
            answers.subrange(
                cursor.start * prog.outputs@.len(),
                cursor.stop() * prog.outputs@.len(),
            ),
            expected,
        ),
        lanes_graded(prog, inputs, expected, cursor.span(), flags, traps),
        forall|i: int| 0 <= i < cursor.span() ==> (#[trigger] traps[i]) == 0,
        forall|i: int|
            0 <= i < cursor.span() ==> instance_outcome(prog, instances, cursor.start + i) == Ok::<
                Seq<u8>,
                nat,
            >(#[trigger] lane_row(prog, inputs, i)),
    ensures
        correct_so_far(prog, instances, answers, (cursor.start + k) as nat) == correct_so_far(
            prog,
            instances,
            answers,
            cursor.start as nat,
        ) + flags_set(flags, k),
    decreases k,
{
    if k > 0 {
        lemma_flags_count(
            prog,
            instances,
            answers,
            cursor,
            inputs,
            expected,
            flags,
            traps,
            (k - 1) as nat,
        );
        let i = k - 1;
        let width = prog.outputs@.len();
        let start = cursor.start;
        let stop = cursor.stop();
        assert(0 <= start * width <= stop * width <= cursor.n * width) by (nonlinear_arith)
            requires
                0 <= start <= stop <= cursor.n,
                width >= 0,
        ;
        assert(0 <= i * width && (i + 1) * width == i * width + width && (start + i) * width
            == start * width + i * width && (start + i + 1) * width == (start + i) * width + width
            && (start + i + 1) * width <= stop * width) by (nonlinear_arith)
            requires
                0 <= i,
                start + i < stop,
                width >= 0,
        ;
        let sub = answers.subrange(start * width, stop * width);
        assert(packed_row(expected, i, width) =~= row_of(answers, width, start + i)) by {
            assert forall|j: int| 0 <= j < width implies #[trigger] packed_row(
                expected,
                i,
                width,
            )[j] == row_of(answers, width, start + i)[j] by {
                let at = i * width + j;
                assert(flat_byte(expected, at) == sub[at]);
            }
        }
        assert(traps[i] == 0);
        assert(instance_outcome(prog, instances, start + i) == Ok::<Seq<u8>, nat>(
            lane_row(prog, inputs, i),
        ));
    }
}

/// What one dispatch of a scored run uploaded, what the device left, and
/// what came of it.
pub struct ScoredStep {
    pub inputs: Seq<u32>,
    pub expected: Seq<u32>,
    pub flags: Seq<u32>,
    pub traps: Seq<u32>,
    pub r: Result<(), (usize, RunError)>,
}

/// One dispatch took a scored run from `before` to `after`: it uploaded
/// the rows and the answers of its instances, and the device left what
/// their graded lanes leave.
pub open spec fn scored_step(
    prog: Program,
    instances: Seq<u8>,
    answers: Seq<u8>,
    before: ScoredRun,
    step: ScoredStep,
    after: ScoredRun,
) -> bool {
    &&& is_packed(
        instances.subrange(
            before.cursor.start * prog.inputs@.len(),
            before.cursor.stop() * prog.inputs@.len(),
        ),
        step.inputs,
    )
    &&& is_packed(
        answers.subrange(
            before.cursor.start * prog.outputs@.len(),
            before.cursor.stop() * prog.outputs@.len(),
        ),
        step.expected,
    )
    &&& lanes_graded(
        prog,
        step.inputs,
        step.expected,
        before.cursor.span(),
        step.flags,
        step.traps,
    )
    &&& scored_advanced(before, after, step.flags, step.traps, step.r)
}

/// A batch of `n` instances was graded dispatch by dispatch, from a fresh
/// run on, until `r` came of it: the count once every instance was done,
/// or the first error.
pub open spec fn scored_batch(
    prog: Program,
    instances: Seq<u8>,
    answers: Seq<u8>,
    n: nat,
    runs: Seq<ScoredRun>,
    steps: Seq<ScoredStep>,
    r: Result<usize, (usize, RunError)>,
) -> bool {
    &&& runs.len() == steps.len() + 1
    &&& runs[0].wf()
    &&& runs[0].cursor.n == n
    &&& runs[0].cursor.start == 0
    &&& forall|k: int|
        0 <= k < steps.len() ==> scored_step(
            prog,
            instances,
            answers,
            runs[k],
            #[trigger] steps[k],
            runs[k + 1],
        )
    &&& forall|k: int| 0 <= k < steps.len() - 1 ==> (#[trigger] steps[k]).r is Ok
    &&& match r {
        Ok(correct) => {
            &&& forall|k: int| 0 <= k < steps.len() ==> (#[trigger] steps[k]).r is Ok
            &&& runs.last().cursor.start == n
            &&& correct == runs.last().correct
        },
        Err(e) => steps.len() > 0 && steps.last().r == Err::<(), (usize, RunError)>(e),
    }
}

/// What one dispatch of a scored run keeps.
proof fn lemma_scored_step(
    prog: Program,
    instances: Seq<u8>,
    answers: Seq<u8>,
    before: ScoredRun,
    step: ScoredStep,
    after: ScoredRun,
)
    requires
        before.wf(),
        instances.len() == before.cursor.n * prog.inputs@.len(),
        answers.len() == before.cursor.n * prog.outputs@.len(),
        before.correct == correct_so_far(
            prog,
            instances,
            answers,
            before.cursor.start as nat,
        ),
        forall|i: int|
            0 <= i < before.cursor.start ==> #[trigger] instance_outcome(prog, instances, i) is Ok,
        scored_step(prog, instances, answers, before, step, after),
    ensures
        step.r is Ok ==> {
            &&& after.wf()
            &&& after.cursor.n == before.cursor.n
            &&& after.correct == correct_so_far(
                prog,
                instances,
                answers,
                after.cursor.start as nat,
            )
            &&& forall|i: int|
                0 <= i < after.cursor.start ==> #[trigger] instance_outcome(
                    prog,
                    instances,
                    i,
                ) is Ok
        },
        step.r matches Err((k, e)) ==> {
            &&& k < before.cursor.n
            &&& is_first_trap(prog, instances, k as int)
            &&& e.is_trap_at(usize::MAX as int)
        },
{
    law_scored_run_is_exact(
        prog,
        instances,
        answers,
        before,
        after,
        step.inputs,
        step.expected,
        step.flags,
        step.traps,
        step.r,
    );
    lemma_correct_bound(prog, instances, answers, after.cursor.start as nat);
}

/// No more instances are correct than there are.
proof fn lemma_correct_bound(prog: Program, instances: Seq<u8>, answers: Seq<u8>, k: nat)
    ensures
        correct_so_far(prog, instances, answers, k) <= k,
    decreases k,
{
    if k > 0 {
        lemma_correct_bound(prog, instances, answers, (k - 1) as nat);
    }
}

/// After `t` dispatches without an error, the count is that of the
/// instances done, none of which trapped.
proof fn lemma_scored_so_far(
    prog: Program,
    instances: Seq<u8>,
    answers: Seq<u8>,
    n: nat,
    runs: Seq<ScoredRun>,
    steps: Seq<ScoredStep>,
    r: Result<usize, (usize, RunError)>,
    t: int,
)
    requires
        instances.len() == n * prog.inputs@.len(),
        answers.len() == n * prog.outputs@.len(),
        scored_batch(prog, instances, answers, n, runs, steps, r),
        0 <= t <= steps.len(),
        forall|k: int| 0 <= k < t ==> (#[trigger] steps[k]).r is Ok,
    ensures
        runs[t].wf(),
        runs[t].cursor.n == n,
        runs[t].correct == correct_so_far(
            prog,
            instances,
            answers,
            runs[t].cursor.start as nat,
        ),
        forall|i: int|
            0 <= i < runs[t].cursor.start ==> #[trigger] instance_outcome(
                prog,
                instances,
                i,
            ) is Ok,
    decreases t,
{
    if t > 0 {
        lemma_scored_so_far(prog, instances, answers, n, runs, steps, r, t - 1);
        let step = steps[t - 1];
        assert(scored_step(prog, instances, answers, runs[t - 1], step, runs[t - 1 + 1]));
        lemma_scored_step(prog, instances, answers, runs[t - 1], step, runs[t]);
    }
}

/// A whole graded batch is exact, whatever the chunk: without a trap it
/// returns how many instances yield their row of the answer key;
/// otherwise it fails at the first trap of the whole batch.
pub proof fn law_scored_batch_is_exact(
    prog: Program,
    instances: Seq<u8>,
    answers: Seq<u8>,
    n: nat,
    runs: Seq<ScoredRun>,
    steps: Seq<ScoredStep>,
    r: Result<usize, (usize, RunError)>,
)
    requires
        instances.len() == n * prog.inputs@.len(),
        answers.len() == n * prog.outputs@.len(),
        scored_batch(prog, instances, answers, n, runs, steps, r),
    ensures
        r is Ok <==> (forall|i: int|
            0 <= i < n ==> #[trigger] instance_outcome(prog, instances, i) is Ok),
        r matches Ok(correct) ==> correct == correct_so_far(prog, instances, answers, n),
        r matches Err((i, e)) ==> {
            &&& i < n
            &&& is_first_trap(prog, instances, i as int)
            &&& e.is_trap_at(usize::MAX as int)
        },
{
    let last = steps.len() as int;
    match r {
        Ok(correct) => {
            lemma_scored_so_far(prog, instances, answers, n, runs, steps, r, last);
        },
        Err((i, e)) => {
            lemma_scored_so_far(prog, instances, answers, n, runs, steps, r, last - 1);
            let step = steps[last - 1];
            assert(scored_step(
                prog,
                instances,
                answers,
                runs[last - 1],
                step,
                runs[last - 1 + 1],
            ));
            lemma_scored_step(prog, instances, answers, runs[last - 1], step, runs[last]);
            assert(!(instance_outcome(prog, instances, i as int) is Ok));
        },
    }
}

} // verus!
