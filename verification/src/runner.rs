//! Batch runners: one trait, and the CPU (Rayon) backend. GPU backends
//! consume the same flat buffers.

use crate::eval::{reports, Machine, RunError};
use crate::ir::Program;
use rayon::iter::ParallelIterator;
use rayon::slice::ParallelSlice;
use vstd::prelude::*;

verus! {

/// Row `i` of a row-major matrix whose rows have `width` bytes.
pub open spec fn row_of(matrix: Seq<u8>, width: nat, i: int) -> Seq<u8> {
    matrix.subrange(i * width, (i + 1) * width)
}

/// `instances` is a matrix of `n` rows, one byte per declared input, and
/// the program fits an arena of `max_addr + 1` cells.
pub open spec fn batch_ready(prog: Program, instances: Seq<u8>, n: nat) -> bool {
    &&& prog.wf()
    &&& prog.within((prog.max_addr + 1) as nat)
    &&& prog.inputs@.len() > 0
    &&& instances.len() == n * prog.inputs@.len()
}

/// Whether a batch meets what every runner asks of it.
pub fn is_batch_ready(prog: &Program, instances: &[u8], n: usize) -> (b: bool)
    ensures
        b == batch_ready(*prog, instances@, n as nat),
{
    if !prog.is_wf() || prog.inputs.len() == 0 || !prog.is_within(prog.max_addr as usize + 1) {
        return false;
    }
    match n.checked_mul(prog.inputs.len()) {
        Some(total) => total == instances.len(),
        None => {
            assert(instances@.len() == instances.len());
            false
        },
    }
}

/// What the program yields on instance `i` of a batch.
pub open spec fn instance_outcome(prog: Program, instances: Seq<u8>, i: int) -> Result<
    Seq<u8>,
    nat,
> {
    prog.outcome(row_of(instances, prog.inputs@.len(), i))
}

/// `rows` holds, for each of the `n` instances in order, the output
/// bytes the program yields on it.
pub open spec fn rows_match(
    prog: Program,
    instances: Seq<u8>,
    n: nat,
    rows: Seq<Vec<u8>>,
) -> bool {
    &&& rows.len() == n
    &&& forall|i: int|
        0 <= i < n ==> instance_outcome(prog, instances, i) == Ok::<Seq<u8>, nat>(
            (#[trigger] rows[i])@,
        )
}

/// Instance `i` traps, and none before it does.
pub open spec fn is_first_trap(prog: Program, instances: Seq<u8>, i: int) -> bool {
    &&& instance_outcome(prog, instances, i) is Err
    &&& forall|j: int| 0 <= j < i ==> #[trigger] instance_outcome(prog, instances, j) is Ok
}

/// Evaluate a program over a batch of instances.
///
/// `instances` is a flat row-major matrix of `n * prog.inputs.len()`
/// bytes. Returns one output row per instance, or the per-instance
/// error index for trapping programs.
pub trait BatchRunner {
    fn run_batch(&self, prog: &Program, instances: &[u8], n: usize) -> (r: Result<
        Vec<Vec<u8>>,
        (usize, RunError),
    >)
        requires
            batch_ready(*prog, instances@, n as nat),
        ensures
            match r {
                Ok(rows) => rows_match(*prog, instances@, n as nat, rows@),
                Err((i, RunError::DivideByZero { .. })) => {
                    i < n && is_first_trap(*prog, instances@, i as int)
                },
                Err(_) => true,
            },
    ;
}

/// Rayon's `par_chunks_exact`, `map_init` and `collect`: the chunks of
/// `width` bytes are handed to worker threads, each with a machine of
/// its own that it reuses, and the results are collected in the order of
/// the chunks. A machine's results do not depend on what it ran before,
/// so each result is the outcome of its own chunk.
#[verifier::external_body]
fn par_outcomes(prog: &Program, instances: &[u8], width: usize) -> (rows: Vec<
    Result<Vec<u8>, RunError>,
>)
    requires
        prog.wf(),
        prog.within((prog.max_addr + 1) as nat),
        width == prog.inputs@.len(),
        width > 0,
    ensures
        rows@.len() == instances@.len() / width as nat,
        forall|i: int|
            0 <= i < rows@.len() ==> reports(
                #[trigger] rows@[i],
                instance_outcome(*prog, instances@, i),
            ),
{
    instances
        .par_chunks_exact(width)
        .map_init(|| Machine::new(prog.max_addr), |m, row| m.run(prog, row))
        .collect()
}

/// All rows, or the first error together with its position.
pub fn rows_or_first_error(results: Vec<Result<Vec<u8>, RunError>>) -> (r: Result<
    Vec<Vec<u8>>,
    (usize, RunError),
>)
    ensures
        match r {
            Ok(rows) => {
                &&& rows@.len() == results@.len()
                &&& forall|i: int|
                    0 <= i < rows@.len() ==> results@[i] == Ok::<Vec<u8>, RunError>(
                        #[trigger] rows@[i],
                    )
            },
            Err((i, e)) => {
                &&& i < results@.len()
                &&& results@[i as int] == Err::<Vec<u8>, RunError>(e)
                &&& forall|j: int| 0 <= j < i ==> #[trigger] results@[j] is Ok
            },
        },
{
    let ghost all = results@;
    let mut rows: Vec<Vec<u8>> = Vec::with_capacity(results.len());
    for result in it: results
        invariant
            it.seq() == all,
            rows@.len() == it.index(),
            forall|i: int|
                0 <= i < rows@.len() ==> all[i] == Ok::<Vec<u8>, RunError>(#[trigger] rows@[i]),
    {
        match result {
            Ok(row) => {
                rows.push(row);
            },
            Err(e) => {
                let i: usize = rows.len();
                assert forall|j: int| 0 <= j < i implies #[trigger] all[j] is Ok by {
                    assert(all[j] == Ok::<Vec<u8>, RunError>(rows@[j]));
                }
                return Err((i, e));
            },
        }
    }
    Ok(rows)
}

/// CPU backend: Rayon across instances, one reused [`Machine`] per
/// worker thread (zero allocation in steady state).
pub struct CpuRunner;

impl BatchRunner for CpuRunner {
    fn run_batch(&self, prog: &Program, instances: &[u8], n: usize) -> (r: Result<
        Vec<Vec<u8>>,
        (usize, RunError),
    >)
        ensures
            (forall|i: int| 0 <= i < n ==> #[trigger] instance_outcome(*prog, instances@, i) is Ok)
                <==> r is Ok,
            r matches Ok(rows) ==> rows_match(*prog, instances@, n as nat, rows@),
            r matches Err((i, e)) ==> {
                &&& i < n
                &&& is_first_trap(*prog, instances@, i as int)
                &&& instance_outcome(*prog, instances@, i as int) matches Err(k) && e.is_trap_at(
                    k as int,
                )
            },
    {
        let width: usize = prog.inputs.len();
        let results = par_outcomes(prog, instances, width);
        proof {
            vstd::arithmetic::div_mod::lemma_div_multiples_vanish(n as int, width as int);
            assert(n * width == width * n) by (nonlinear_arith);
        }
        let ghost all = results@;
        let r = rows_or_first_error(results);
        let ghost answer = r;
        proof {
            assert(all.len() == n);
            match answer {
                Ok(rows) => {
                    assert forall|i: int| 0 <= i < n implies instance_outcome(
                        *prog,
                        instances@,
                        i,
                    ) == Ok::<Seq<u8>, nat>((#[trigger] rows@[i])@) by {
                        assert(reports(all[i], instance_outcome(*prog, instances@, i)));
                    }
                    assert forall|i: int| 0 <= i < n implies #[trigger] instance_outcome(
                        *prog,
                        instances@,
                        i,
                    ) is Ok by {
                        assert(rows@[i]@ == rows@[i]@);
                    }
                },
                Err((i, e)) => {
                    assert(reports(all[i as int], instance_outcome(*prog, instances@, i as int)));
                    assert forall|j: int| 0 <= j < i implies #[trigger] instance_outcome(
                        *prog,
                        instances@,
                        j,
                    ) is Ok by {
                        assert(reports(all[j], instance_outcome(*prog, instances@, j)));
                    }
                },
            }
        }
        r
    }
}

/// Two runners that each report a whole batch, or its first trap, agree
/// byte for byte: both return the same rows, or both fail at the same
/// instance.
pub proof fn law_runners_agree(
    prog: Program,
    instances: Seq<u8>,
    n: nat,
    x: Result<Vec<Vec<u8>>, (usize, RunError)>,
    y: Result<Vec<Vec<u8>>, (usize, RunError)>,
)
    requires
        x matches Ok(rows) ==> rows_match(prog, instances, n, rows@),
        x matches Err((i, e)) ==> i < n && is_first_trap(prog, instances, i as int),
        y matches Ok(rows) ==> rows_match(prog, instances, n, rows@),
        y matches Err((i, e)) ==> i < n && is_first_trap(prog, instances, i as int),
    ensures
        x is Ok <==> y is Ok,
        x matches Ok(xs) ==> y matches Ok(ys) ==> {
            &&& xs@.len() == ys@.len()
            &&& forall|i: int| 0 <= i < xs@.len() ==> (#[trigger] xs@[i])@ == ys@[i]@
        },
        x matches Err((i, _)) ==> y matches Err((j, _)) ==> i == j,
{
    match (x, y) {
        (Ok(xs), Ok(ys)) => {
            assert forall|i: int| 0 <= i < xs@.len() implies (#[trigger] xs@[i])@ == ys@[i]@ by {
                assert(instance_outcome(prog, instances, i) == Ok::<Seq<u8>, nat>(ys@[i]@));
            }
        },
        (Ok(xs), Err((j, _))) => {
            assert(xs@[j as int]@ == xs@[j as int]@);
            assert(instance_outcome(prog, instances, j as int) is Err);
        },
        (Err((i, _)), Ok(ys)) => {
            assert(ys@[i as int]@ == ys@[i as int]@);
            assert(instance_outcome(prog, instances, i as int) is Err);
        },
        (Err((i, _)), Err((j, _))) => {
            assert(instance_outcome(prog, instances, i as int) is Err);
            assert(instance_outcome(prog, instances, j as int) is Err);
        },
    }
}

/// `row` is row `i` of the matrix `instances` of rows of `width` bytes.
pub open spec fn is_row(instances: Seq<u8>, width: nat, i: int, row: Seq<u8>) -> bool {
    &&& row.len() == width
    &&& forall|j: int| 0 <= j < width ==> #[trigger] row[j] == instances[i * width + j]
}

/// Rows are cut out of the matrix one after the other: the instance at
/// position `i` is read from the `width` bytes from byte `i * width` on.
pub proof fn law_rows_lie_end_to_end(
    prog: Program,
    instances: Seq<u8>,
    n: nat,
    i: int,
    row: Seq<u8>,
)
    requires
        instances.len() == n * prog.inputs@.len(),
        0 <= i < n,
        is_row(instances, prog.inputs@.len(), i, row),
    ensures
        row_of(instances, prog.inputs@.len(), i) == row,
        instance_outcome(prog, instances, i) == prog.outcome(row),
{
    let width = prog.inputs@.len();
    assert(0 <= i * width && (i + 1) * width <= n * width && (i + 1) * width == i * width + width)
        by (nonlinear_arith)
        requires
            0 <= i < n,
            width >= 0,
    ;
    assert(row_of(instances, width, i) =~= row);
}

/// What a batch reports of one of its rows: a full answer holds the
/// output bytes of every row, in order; the first trap is at a row that
/// traps, with none before it.
pub proof fn law_batches_answer_row_by_row(
    prog: Program,
    instances: Seq<u8>,
    n: nat,
    i: int,
    row: Seq<u8>,
    rows: Seq<Vec<u8>>,
    at: int,
)
    requires
        instances.len() == n * prog.inputs@.len(),
        0 <= i < n,
        is_row(instances, prog.inputs@.len(), i, row),
    ensures
        rows_match(prog, instances, n, rows) ==> rows.len() == n && prog.outcome(row) == Ok::<
            Seq<u8>,
            nat,
        >(rows[i]@),
        is_first_trap(prog, instances, i) ==> prog.outcome(row) is Err,
        is_first_trap(prog, instances, at) && i < at ==> prog.outcome(row) is Ok,
{
    law_rows_lie_end_to_end(prog, instances, n, i, row);
    if rows_match(prog, instances, n, rows) {
        assert(instance_outcome(prog, instances, i) == Ok::<Seq<u8>, nat>(rows[i]@));
    }
}

/// A batch is either answered in full or has a first trap, never both.
pub proof fn law_batches_are_decided(
    prog: Program,
    instances: Seq<u8>,
    n: nat,
    rows: Seq<Vec<u8>>,
    at: int,
)
    requires
        rows.len() == n,
        0 <= at < n,
    ensures
        rows_match(prog, instances, n, rows) ==> !is_first_trap(prog, instances, at),
        (forall|i: int|
            0 <= i < n ==> prog.outcome(
                #[trigger] row_of(instances, prog.inputs@.len(), i),
            ) == Ok::<Seq<u8>, nat>(rows[i]@)) ==> rows_match(prog, instances, n, rows),
        prog.outcome(row_of(instances, prog.inputs@.len(), at)) is Err && (forall|i: int|
            0 <= i < at ==> prog.outcome(
                #[trigger] row_of(instances, prog.inputs@.len(), i),
            ) is Ok) ==> is_first_trap(prog, instances, at),
{
    let width = prog.inputs@.len();
    if rows_match(prog, instances, n, rows) {
        assert(instance_outcome(prog, instances, at) == Ok::<Seq<u8>, nat>(rows[at]@));
    }
    if forall|i: int|
        0 <= i < n ==> prog.outcome(#[trigger] row_of(instances, width, i)) == Ok::<Seq<u8>, nat>(
            rows[i]@,
        ) {
        assert forall|i: int| 0 <= i < n implies instance_outcome(prog, instances, i) == Ok::<
            Seq<u8>,
            nat,
        >((#[trigger] rows[i])@) by {
            assert(row_of(instances, width, i) == row_of(instances, width, i));
        }
    }
    if prog.outcome(row_of(instances, width, at)) is Err && (forall|i: int|
        0 <= i < at ==> prog.outcome(#[trigger] row_of(instances, width, i)) is Ok) {
        assert forall|j: int| 0 <= j < at implies #[trigger] instance_outcome(
            prog,
            instances,
            j,
        ) is Ok by {
            assert(row_of(instances, width, j) == row_of(instances, width, j));
        }
    }
}

/// A batch is fit to run exactly when the program's columns are level,
/// no cell that it reads or writes lies beyond `max_addr`, it declares an
/// input, and there is one byte per input and instance.
pub proof fn law_ready_batches(prog: Program, instances: Seq<u8>, n: nat)
    ensures
        batch_ready(prog, instances, n) <==> prog.wf() && prog.within((prog.max_addr + 1) as nat)
            && prog.inputs@.len() >= 1 && instances.len() == n * prog.inputs@.len(),
{
}

} // verus!
