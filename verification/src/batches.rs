//! Laws of tiled and chunked batches: how many lanes and instances run at
//! once, what each dispatch takes, and what the counts count.

use crate::cli::{law_every_byte_is_graded, matching_rows, row_is_right};
use crate::dispatch::{
    correct_so_far, flags_set, is_upload, lane_grade, lanes_graded, raw_advanced, scored_advanced,
    Cursor, Dispatch, GradedDispatch, RawRun, ScoredRun,
};
use crate::eval::RunError;
use crate::gpu::{
    cell_words_of, lane_of, lane_row, law_groups_cover_batch, law_kernel_lane_is_exact,
    lemma_lane_is_instance,
};
use crate::ir::Program;
use crate::kernel::{lane_ran, lane_was_graded, packed_row};
use crate::layout::{law_packed_rows, law_tables, law_words_for};
use crate::lds::{
    capacity_by_bytes, cells_budget, chunk_of, fits_lds, lanes_for, law_chunk_respects_caps,
    law_pow2_below, law_tiling_fits_budget, lemma_quotient_bounds, pow2_below, LdsPlan, Tiling,
};
use crate::pack::{
    addr_words, flat_byte, is_packed, law_bytes_determine_words, native_bytes, op_stream,
    words_for,
};
use crate::runner::{instance_outcome, row_of, rows_match};
use vstd::arithmetic::power2::{lemma_pow2_strictly_increases, pow2};
use vstd::prelude::*;

verus! {

/// A batch capped by bytes alone takes as many instances as fit 96 MiB
/// beside the reserved bytes, and one where not even one fits; cells of
/// no size count as one byte.
pub proof fn law_byte_cap(cell_bytes: nat, reserved: nat, k: nat)
    ensures
        ({
            let c = capacity_by_bytes(cell_bytes, reserved);
            &&& c >= 1
            &&& c == 1 || reserved + c * cell_bytes <= 100663296
            &&& k >= 1 && cell_bytes >= 1 && reserved + k * cell_bytes <= 100663296 ==> k <= c
            &&& capacity_by_bytes(0, reserved) == capacity_by_bytes(1, reserved)
        }),
{
    let c = capacity_by_bytes(cell_bytes, reserved);
    let part = if cell_bytes == 0 {
        1
    } else {
        cell_bytes
    };
    let budget = cells_budget(reserved);
    lemma_quotient_bounds(budget, part, c);
    if cell_bytes == 0 {
        assert(c * cell_bytes == 0) by (nonlinear_arith)
            requires
                cell_bytes == 0,
        ;
    }
    if reserved >= 100663296 {
        assert(budget == 0);
        vstd::arithmetic::div_mod::lemma_div_basics(part as int);
        assert(c == 1);
    }
    if k > c && cell_bytes >= 1 {
        assert(k * cell_bytes >= (c + 1) * cell_bytes) by (nonlinear_arith)
            requires
                k >= c + 1,
                cell_bytes >= 1,
        ;
        assert(k * cell_bytes >= 1) by (nonlinear_arith)
            requires
                k >= 1,
                cell_bytes >= 1,
        ;
    }
}

/// A dispatch takes the largest number of instances that stays under both
/// caps, 96 MiB of cells beside the reserved bytes and 8,000,000,000
/// instructions in all, and one where none does.
pub proof fn law_chunk_is_largest(n_ops: nat, cell_bytes: nat, reserved: nat, k: nat)
    requires
        n_ops >= 1,
        cell_bytes >= 1,
    ensures
        ({
            let c = chunk_of(n_ops, cell_bytes, reserved);
            &&& c >= 1
            &&& c == 1 || reserved + c * cell_bytes <= 100663296 && c * n_ops <= 8000000000
            &&& k >= 1 && reserved + k * cell_bytes <= 100663296 && k * n_ops <= 8000000000
                ==> k <= c
            &&& chunk_of(0, cell_bytes, reserved) == chunk_of(1, cell_bytes, reserved)
            &&& chunk_of(n_ops, 0, reserved) == chunk_of(n_ops, 1, reserved)
        }),
{
    let c = chunk_of(n_ops, cell_bytes, reserved);
    law_chunk_respects_caps(n_ops, cell_bytes, reserved);
    if k > c {
        assert(k * cell_bytes >= (c + 1) * cell_bytes && k * n_ops >= (c + 1) * n_ops)
            by (nonlinear_arith)
            requires
                k >= c + 1,
                cell_bytes >= 1,
                n_ops >= 1,
        ;
    }
}

/// The lanes of a workgroup are the largest power of two whose cells fit
/// the shared memory, at least one, cut down to what a workgroup may
/// hold, at least one.
pub proof fn law_lanes_are_largest_fit(
    max_lds_bytes: nat,
    max_workgroup: nat,
    cell_words: nat,
    k: nat,
)
    requires
        cell_words >= 1,
    ensures
        ({
            let lanes = lanes_for(max_lds_bytes, max_workgroup, cell_words);
            let limit = if max_workgroup == 0 {
                1
            } else {
                max_workgroup
            };
            &&& 1 <= lanes <= limit
            &&& pow2(k) * (4 * cell_words) <= max_lds_bytes ==> lanes >= pow2(k) || lanes == limit
            &&& lanes == 1 || lanes * (4 * cell_words) <= max_lds_bytes
            &&& exists|j: nat|
                {
                    &&& lanes == limit || lanes == pow2(j)
                    &&& lanes <= #[trigger] pow2(j)
                    &&& pow2(j) == 1 || pow2(j) * (4 * cell_words) <= max_lds_bytes
                }
            &&& lanes_for(max_lds_bytes, max_workgroup, 0) == lanes_for(
                max_lds_bytes,
                max_workgroup,
                1,
            )
        }),
{
    let lanes = lanes_for(max_lds_bytes, max_workgroup, cell_words);
    let budget = max_lds_bytes / 4;
    let fit = budget / cell_words;
    let p = pow2_below(fit);
    law_pow2_below(fit);
    law_tiling_fits_budget(max_lds_bytes, max_workgroup, cell_words);
    assert(lanes * cell_words * 4 == lanes * (4 * cell_words)) by (nonlinear_arith);
    assert(pow2(k) * (4 * cell_words) == 4 * (pow2(k) * cell_words)) by (nonlinear_arith);
    assert(p * (4 * cell_words) == 4 * (p * cell_words)) by (nonlinear_arith);
    lemma_quotient_bounds(budget, cell_words, p);
    if pow2(k) * (4 * cell_words) <= max_lds_bytes {
        assert(pow2(k) * cell_words <= budget);
        if pow2(k) > fit {
            lemma_quotient_bounds(budget, cell_words, (pow2(k) - 1) as nat);
        }
        assert(pow2(k) <= fit);
        let j = choose|j: nat| p == #[trigger] pow2(j);
        vstd::arithmetic::power2::lemma_pow2_pos(k);
        if k > j {
            vstd::arithmetic::power2::lemma_pow2_unfold(j + 1);
            if k > j + 1 {
                lemma_pow2_strictly_increases(j + 1, k);
            }
        } else if k < j {
            lemma_pow2_strictly_increases(k, j);
        }
    }
    let j = choose|j: nat| p == #[trigger] pow2(j);
    assert(lanes <= pow2(j));
}

/// A tiling has whole words for the cells of a lane, as many lanes as fit
/// its limits, and shared memory for all of them.
pub proof fn law_tilings(t: Tiling, max_lds_bytes: nat, max_workgroup: nat, cell_bytes: nat)
    requires
        t.is_for(max_lds_bytes, max_workgroup, cell_bytes),
    ensures
        cell_bytes <= 4 * t.cell_words < cell_bytes + 4,
        t.lanes == lanes_for(max_lds_bytes, max_workgroup, t.cell_words as nat),
        t.lds_bytes == t.lanes * (4 * t.cell_words),
        t.max_lds_bytes == max_lds_bytes,
        t.max_workgroup == max_workgroup,
{
    assert(t.lanes * t.cell_words * 4 == t.lanes * (4 * t.cell_words)) by (nonlinear_arith);
}

/// A capped tiling is the tiling for the smaller of the device's budget
/// and the cap; a program fits when whole words for the cells 0 to
/// `max_addr` do.
pub proof fn law_caps_and_fits(
    t: Tiling,
    whole: Tiling,
    cap_bytes: nat,
    cell_bytes: nat,
    prog: Program,
    max_lds: nat,
    lane_bytes: nat,
)
    requires
        lane_bytes % 4 == 0,
        prog.max_addr < lane_bytes <= prog.max_addr + 4,
    ensures
        t.is_capped(whole, cap_bytes, cell_bytes) && cap_bytes <= whole.max_lds_bytes
            ==> t.is_for(cap_bytes, whole.max_workgroup as nat, cell_bytes),
        t.is_capped(whole, cap_bytes, cell_bytes) && cap_bytes >= whole.max_lds_bytes
            ==> t.is_for(whole.max_lds_bytes as nat, whole.max_workgroup as nat, cell_bytes),
        fits_lds(prog, max_lds) <==> lane_bytes <= max_lds,
{
    assert(cell_words_of(prog) * 4 == lane_bytes);
}

/// What an LDS runner keeps for a program: its op stream and address
/// tables, and zeroed trap and flag words for as many instances as one
/// dispatch may have and as were asked for, at least one.
pub proof fn law_lds_buffers(
    plan: LdsPlan,
    prog: Program,
    capacity: nat,
    ops: Seq<u32>,
    in_addrs: Seq<u32>,
    out_addrs: Seq<u32>,
    lane_bytes: nat,
)
    requires
        plan.is_of(prog, capacity),
        native_bytes(ops) == plan.ops@,
        native_bytes(in_addrs) == plan.in_addrs@,
        native_bytes(out_addrs) == plan.out_addrs@,
        lane_bytes % 4 == 0,
        prog.max_addr < lane_bytes <= prog.max_addr + 4,
    ensures
        ops == op_stream(prog.ops()),
        in_addrs.len() == prog.inputs@.len(),
        forall|i: int| 0 <= i < in_addrs.len() ==> #[trigger] in_addrs[i] == prog.inputs@[i],
        out_addrs.len() == prog.outputs@.len(),
        forall|i: int| 0 <= i < out_addrs.len() ==> #[trigger] out_addrs[i] == prog.outputs@[i],
        plan.n_ops == prog.kinds@.len(),
        plan.n_in == prog.inputs@.len(),
        plan.n_out == prog.outputs@.len(),
        1 <= plan.capacity <= chunk_of(prog.kinds@.len(), lane_bytes, 0),
        plan.capacity <= capacity || plan.capacity == 1,
        plan.capacity == capacity || plan.capacity == 1 || plan.capacity == chunk_of(
            prog.kinds@.len(),
            lane_bytes,
            0,
        ),
        capacity >= chunk_of(prog.kinds@.len(), lane_bytes, 0) ==> plan.capacity == chunk_of(
            prog.kinds@.len(),
            lane_bytes,
            0,
        ),
        1 <= capacity <= chunk_of(prog.kinds@.len(), lane_bytes, 0) ==> plan.capacity == capacity,
        plan.traps@.len() == 4 * plan.capacity,
        plan.flags@.len() == 4 * plan.capacity,
        forall|i: int| 0 <= i < plan.traps@.len() ==> #[trigger] plan.traps@[i] == 0,
        forall|i: int| 0 <= i < plan.flags@.len() ==> #[trigger] plan.flags@[i] == 0,
{
    law_bytes_determine_words(ops, op_stream(prog.ops()));
    law_bytes_determine_words(in_addrs, addr_words(prog.inputs@));
    law_bytes_determine_words(out_addrs, addr_words(prog.outputs@));
    assert(cell_words_of(prog) * 4 == lane_bytes);
}

/// A chunked batch starts at its first instance, with dispatches as large
/// as the caps, the plan's trap and flag words and the batch allow.
pub proof fn law_batches_start(c: Cursor, plan: LdsPlan, n: nat)
    requires
        c.starts(plan, n),
    ensures
        c.start == 0,
        c.n == n,
        ({
            let most = chunk_of(plan.n_ops as nat, (4 * plan.tiling.cell_words) as nat, 0);
            &&& c.chunk <= most && c.chunk <= plan.capacity && c.chunk <= n
            &&& c.chunk == most || c.chunk == plan.capacity || c.chunk == n
        }),
{
}

/// A dispatch takes the next `chunk` instances, or those that are left;
/// the next one starts where it stopped.
pub proof fn law_dispatches_are_full(c: Cursor)
    requires
        c.wf(),
    ensures
        c.stop() == c.start + c.span(),
        c.span() == c.chunk || c.span() == c.n - c.start,
        c.span() <= c.chunk,
        c.span() <= c.n - c.start,
        c.advanced().start == c.stop(),
        c.advanced().n == c.n,
        c.advanced().chunk == c.chunk,
{
}

/// Uploaded rows are the rows of the matrix: byte `i` of the packed words
/// is byte `start * width + i` of the matrix, with zeros to fill the last
/// word.
pub proof fn law_uploads_are_rows(
    bytes: Seq<u8>,
    matrix: Seq<u8>,
    width: nat,
    start: int,
    end: int,
    words: Seq<u32>,
)
    requires
        is_upload(bytes, matrix, width, start, end),
        native_bytes(words) == bytes,
        0 <= start <= end,
        end * width <= matrix.len(),
    ensures
        (end - start) * width <= 4 * words.len() < (end - start) * width + 4,
        forall|i: int|
            0 <= i < 4 * words.len() ==> #[trigger] flat_byte(words, i) == (if i < (end - start)
                * width {
                matrix[start * width + i]
            } else {
                0
            }),
{
    let sub = matrix.subrange(start * width, end * width);
    let packed = choose|words: Seq<u32>|
        is_packed(sub, words) && bytes == #[trigger] native_bytes(words);
    law_bytes_determine_words(words, packed);
    assert((end - start) * width == end * width - start * width && 0 <= start * width <= end
        * width) by (nonlinear_arith)
        requires
            0 <= start <= end,
            width >= 0,
    ;
}

/// What a dispatch uploads and launches: the packed rows of its own
/// instances, a zeroed output matrix, and as many workgroups as have an
/// instance to run.
pub proof fn law_dispatch_buffers(
    d: Dispatch,
    c: Cursor,
    prog: Program,
    instances: Seq<u8>,
    lanes: nat,
)
    requires
        d.is_next(c, prog, instances, lanes),
        c.wf(),
        lanes >= 1,
    ensures
        d.m == c.span(),
        is_upload(d.inputs@, instances, prog.inputs@.len(), c.start as int, c.start + c.span()),
        d.m * prog.outputs@.len() <= 4 * d.out_words,
        4 * d.out_words <= d.m * (prog.outputs@.len() + 3),
        d.outputs@.len() == 4 * d.out_words,
        forall|i: int| 0 <= i < d.outputs@.len() ==> #[trigger] d.outputs@[i] == 0,
        d.m <= d.groups * lanes,
        d.m > 0 ==> (d.groups - 1) * lanes < d.m,
        d.m == 0 ==> d.groups == 0,
{
    law_groups_cover_batch(d.m as nat, lanes);
    let w = words_for(prog.outputs@.len());
    law_words_for(prog.outputs@.len());
    assert(d.m * prog.outputs@.len() <= 4 * (d.m * w) <= d.m * (prog.outputs@.len() + 3))
        by (nonlinear_arith)
        requires
            prog.outputs@.len() <= 4 * w,
            4 * w <= prog.outputs@.len() + 3,
            d.m >= 0,
    ;
}

/// What a graded dispatch uploads and launches: the packed rows and the
/// packed answers of its own instances, and as many workgroups as have an
/// instance to run.
pub proof fn law_graded_dispatch_buffers(
    d: GradedDispatch,
    c: Cursor,
    prog: Program,
    instances: Seq<u8>,
    answers: Seq<u8>,
    lanes: nat,
)
    requires
        d.is_next(c, prog, instances, answers, lanes),
        c.wf(),
        lanes >= 1,
    ensures
        d.m == c.span(),
        is_upload(d.inputs@, instances, prog.inputs@.len(), c.start as int, c.start + c.span()),
        is_upload(d.expected@, answers, prog.outputs@.len(), c.start as int, c.start + c.span()),
        d.m <= d.groups * lanes,
        d.m > 0 ==> (d.groups - 1) * lanes < d.m,
        d.m == 0 ==> d.groups == 0,
{
    law_groups_cover_batch(d.m as nat, lanes);
}

/// What a raw run makes of a dispatch: without a trap flag its rows follow
/// those that are there, byte for byte, and the cursor moves on; with one
/// the run stays as it was, and the error names the first such instance,
/// counted from the start of the batch.
pub proof fn law_raw_rows_follow(
    before: RawRun,
    after: RawRun,
    words: Seq<u32>,
    traps: Seq<u32>,
    n_out: nat,
    r: Result<(), (usize, RunError)>,
    i: int,
)
    requires
        before.wf(),
        raw_advanced(before, after, words, traps, n_out, r),
        0 <= i,
    ensures
        ({
            let m = before.cursor.span();
            let old_len = before.cursor.start as int;
            &&& r is Ok <==> (forall|k: int| 0 <= k < m ==> #[trigger] traps[k] == 0)
            &&& r is Ok ==> {
                &&& after.cursor.start == old_len + m
                &&& after.cursor.n == before.cursor.n
                &&& after.cursor.chunk == before.cursor.chunk
                &&& after.rows@.len() == old_len + m
                &&& i < old_len ==> after.rows@[i] == before.rows@[i]
                &&& i < m ==> after.rows@[old_len + i]@.len() == n_out
                &&& forall|j: int|
                    i < m && 0 <= j < n_out ==> #[trigger] after.rows@[old_len + i]@[j]
                        == flat_byte(words, i * n_out + j)
            }
            &&& r matches Err((k, e)) ==> {
                &&& old_len <= k < old_len + m
                &&& traps[k - old_len] != 0
                &&& i < k - old_len ==> traps[i] == 0
                &&& e matches RunError::DivideByZero { op_index } && op_index == usize::MAX
                &&& after == before
            }
        }),
{
    let m = before.cursor.span();
    match r {
        Ok(_) => {
            if i < before.rows@.len() {
                assert(after.rows@.take(before.rows@.len() as int)[i] == after.rows@[i]);
            }
            if i < m {
                assert(after.rows@[before.rows@.len() + i]@ == packed_row(words, i, n_out));
            }
        },
        Err((k, e)) => {
            assert(traps[k - before.cursor.start] != 0);
        },
    }
}

/// The positions below `k` whose flag is 1.
pub open spec fn set_flags(flags: Seq<u32>, k: nat) -> Set<int> {
    vstd::set_lib::set_int_range(0, k as int).filter(|i: int| flags[i] == 1)
}

/// The flags that are counted are the flags that are 1, each once.
pub proof fn law_flags_are_counted(flags: Seq<u32>, k: nat)
    ensures
        flags_set(flags, 0) == 0,
        flags_set(flags, k + 1) == flags_set(flags, k) + (if flags[k as int] == 1 {
            1int
        } else {
            0int
        }),
        flags_set(flags, k) == set_flags(flags, k).len(),
    decreases k,
{
    vstd::set_lib::lemma_int_range(0, k as int);
    if k > 0 {
        let i = k - 1;
        law_flags_are_counted(flags, i as nat);
        vstd::set_lib::lemma_int_range(0, i);
        let below = set_flags(flags, i as nat);
        let all = set_flags(flags, k);
        if flags[i] == 1 {
            assert(all =~= below.insert(i));
        } else {
            assert(all =~= below);
        }
    } else {
        assert(set_flags(flags, 0) =~= Set::<int>::empty());
    }
}

/// What a scored run makes of a dispatch: without a trap flag it adds the
/// number of flags that are 1, and the cursor moves on; with one it stays
/// as it was, and the error names the first such instance.
pub proof fn law_scores_add_up(
    before: ScoredRun,
    after: ScoredRun,
    flags: Seq<u32>,
    traps: Seq<u32>,
    r: Result<(), (usize, RunError)>,
    i: int,
)
    requires
        before.wf(),
        scored_advanced(before, after, flags, traps, r),
        0 <= i,
    ensures
        ({
            let m = before.cursor.span();
            let start = before.cursor.start as int;
            &&& r is Ok <==> (forall|k: int| 0 <= k < m ==> #[trigger] traps[k] == 0)
            &&& r is Ok ==> {
                &&& after.cursor.start == start + m
                &&& after.cursor.n == before.cursor.n
                &&& after.cursor.chunk == before.cursor.chunk
                &&& after.correct == before.correct + set_flags(flags, m).len()
            }
            &&& r matches Err((k, e)) ==> {
                &&& start <= k < start + m
                &&& traps[k - start] != 0
                &&& i < k - start ==> traps[i] == 0
                &&& e matches RunError::DivideByZero { op_index } && op_index == usize::MAX
                &&& after == before
            }
        }),
{
    law_flags_are_counted(flags, before.cursor.span());
    if let Err((k, e)) = r {
        assert(traps[k - before.cursor.start] != 0);
    }
}

/// A lane's grade is 1 exactly when it raised no trap flag and every byte
/// of its output row is the answer's byte at the same place.
pub proof fn law_grades(
    prog: Program,
    inputs: Seq<u32>,
    expected: Seq<u32>,
    m: nat,
    flags: Seq<u32>,
    traps: Seq<u32>,
    i: int,
)
    requires
        lanes_graded(prog, inputs, expected, m, flags, traps),
        0 <= i < m,
    ensures
        ({
            let width = prog.outputs@.len();
            let row = lane_row(prog, inputs, i);
            let right = lane_of(prog, inputs, i).1 == 0 && (forall|j: int|
                0 <= j < width ==> #[trigger] row[j] == flat_byte(expected, i * width + j));
            &&& row.len() == width
            &&& traps[i] == lane_of(prog, inputs, i).1
            &&& lane_grade(prog, inputs, expected, i) == (if right {
                1u32
            } else {
                0u32
            })
            &&& flags[i] == lane_grade(prog, inputs, expected, i)
        }),
{
    let width = prog.outputs@.len();
    let row = lane_row(prog, inputs, i);
    let want = packed_row(expected, i, width);
    assert(traps[i] == lane_of(prog, inputs, i).1);
    if forall|j: int| 0 <= j < width ==> #[trigger] row[j] == flat_byte(expected, i * width + j) {
        assert(row =~= want);
    }
    if row == want {
        assert forall|j: int| 0 <= j < width implies #[trigger] row[j] == flat_byte(
            expected,
            i * width + j,
        ) by {
            assert(want[j] == flat_byte(expected, i * width + j));
        }
    }
}

/// The instances that a scored batch counts are those that the program
/// answers with the expected bytes, every byte of them: each adds one.
pub proof fn law_correct_instances(
    prog: Program,
    instances: Seq<u8>,
    expected: Seq<u8>,
    n: nat,
    k: nat,
)
    requires
        k < n,
        expected.len() == n * prog.outputs@.len(),
    ensures
        correct_so_far(prog, instances, expected, 0) == 0,
        ({
            let width = prog.outputs@.len();
            let right = instance_outcome(prog, instances, k as int) matches Ok(bytes)
                && bytes.len() == width && (forall|j: int|
                0 <= j < width ==> #[trigger] bytes[j] == expected[k * width + j]);
            correct_so_far(prog, instances, expected, k + 1) == correct_so_far(
                prog,
                instances,
                expected,
                k,
            ) + (if right {
                1int
            } else {
                0int
            })
        }),
{
    let width = prog.outputs@.len();
    let want = row_of(expected, width, k as int);
    assert(0 <= k * width && (k + 1) * width == k * width + width && (k + 1) * width <= n * width)
        by (nonlinear_arith)
        requires
            0 <= k < n,
            width >= 0,
    ;
    if let Ok(bytes) = instance_outcome(prog, instances, k as int) {
        if bytes.len() == width && (forall|j: int|
            0 <= j < width ==> #[trigger] bytes[j] == expected[k * width + j]) {
            assert(bytes =~= want);
        }
        if bytes == want {
            assert forall|j: int| 0 <= j < width implies #[trigger] bytes[j] == expected[k * width
                + j] by {
                assert(want[j] == expected[k * width + j]);
            }
        }
    }
}

/// Grading on the device and grading the rows on the host count the same:
/// the score of a batch without a trap is the number of its rows that
/// equal their chunk of the expected bytes.
pub proof fn law_graders_agree(
    prog: Program,
    instances: Seq<u8>,
    expected: Seq<u8>,
    n: nat,
    rows: Seq<Vec<u8>>,
    k: nat,
)
    requires
        rows_match(prog, instances, n, rows),
        expected.len() == n * prog.outputs@.len(),
        prog.outputs@.len() > 0,
        k <= n,
    ensures
        correct_so_far(prog, instances, expected, k) == matching_rows(
            rows,
            expected,
            prog.outputs@.len(),
            k,
        ),
    decreases k,
{
    let width = prog.outputs@.len();
    if k > 0 {
        let i = (k - 1) as nat;
        law_graders_agree(prog, instances, expected, n, rows, i);
        law_correct_instances(prog, instances, expected, n, i);
        law_every_byte_is_graded(rows, expected, width, i);
        assert(instance_outcome(prog, instances, i as int) == Ok::<Seq<u8>, nat>(
            rows[i as int]@,
        ));
        assert(expected.len() - i * width >= width) by (nonlinear_arith)
            requires
                i + 1 <= n,
                width > 0,
                expected.len() == n * width,
        ;
        let row = rows[i as int]@;
        assert(row_is_right(row, expected, width, i as int) == (row.len() == width && (forall|
            j: int,
        |
            0 <= j < width ==> #[trigger] row[j] == expected[i * width + j])));
    }
}

/// A lane that ran on what the host uploads stores 0 and the bytes that
/// the program yields on its instance, or 1 when the program traps there,
/// and changes no trap word and no output byte of another instance; a
/// lane past the last instance changes nothing.
pub proof fn law_lanes_answer_their_instance(
    prog: Program,
    instances: Seq<u8>,
    inputs: Seq<u32>,
    n: nat,
    inst: nat,
    outputs: Seq<u32>,
    outputs_after: Seq<u32>,
    traps: Seq<u32>,
    traps_after: Seq<u32>,
    j: int,
)
    requires
        is_packed(instances, inputs),
        instances.len() == n * prog.inputs@.len(),
        n * prog.outputs@.len() <= 4 * outputs.len(),
        n <= traps.len(),
        lane_ran(
            inst as int,
            n,
            lane_of(prog, inputs, inst as int),
            prog.outputs@,
            outputs,
            outputs_after,
            traps,
            traps_after,
        ),
    ensures
        inst >= n ==> outputs_after == outputs && traps_after == traps,
        inst < n ==> {
            let width = prog.outputs@.len();
            &&& traps_after.len() == traps.len()
            &&& outputs_after.len() == outputs.len()
            &&& match instance_outcome(prog, instances, inst as int) {
                Ok(bytes) => {
                    &&& traps_after[inst as int] == 0
                    &&& bytes.len() == width
                    &&& 0 <= j < width ==> flat_byte(outputs_after, inst * width + j) == bytes[j]
                },
                Err(_) => traps_after[inst as int] == 1,
            }
            &&& 0 <= j < traps.len() && j != inst ==> traps_after[j] == traps[j]
            &&& 0 <= j < 4 * outputs.len() && !(inst * width <= j < (inst + 1) * width)
                ==> flat_byte(outputs_after, j) == flat_byte(outputs, j)
        },
{
    if inst < n {
        let width = prog.outputs@.len();
        let w_in = prog.inputs@.len();
        assert((inst + 1) * w_in <= n * w_in && (inst + 1) * width <= n * width)
            by (nonlinear_arith)
            requires
                inst + 1 <= n,
                w_in >= 0,
                width >= 0,
        ;
        law_tables(prog.outputs@, 0, 0);
        law_kernel_lane_is_exact(
            prog,
            instances,
            inputs,
            inst,
            outputs,
            outputs_after,
            traps,
            traps_after,
        );
        if 0 <= j < width {
            law_packed_rows(outputs_after, inst as int, width, j);
        }
    }
}

/// A graded lane that ran on what the host uploads stores flag 1 exactly
/// when the program yields, on its instance, the bytes of the answer key,
/// every one of them, and flag 0 otherwise; no flag and no trap word of
/// another instance changes.
pub proof fn law_lanes_grade_their_instance(
    prog: Program,
    instances: Seq<u8>,
    answers: Seq<u8>,
    inputs: Seq<u32>,
    expected: Seq<u32>,
    n: nat,
    inst: nat,
    traps: Seq<u32>,
    traps_after: Seq<u32>,
    flags: Seq<u32>,
    flags_after: Seq<u32>,
    j: int,
)
    requires
        is_packed(instances, inputs),
        instances.len() == n * prog.inputs@.len(),
        is_packed(answers, expected),
        answers.len() == n * prog.outputs@.len(),
        n <= traps.len(),
        n <= flags.len(),
        lane_was_graded(
            inst as int,
            n,
            lane_of(prog, inputs, inst as int),
            prog.outputs@,
            expected,
            traps,
            traps_after,
            flags,
            flags_after,
        ),
    ensures
        inst >= n ==> traps_after == traps && flags_after == flags,
        inst < n ==> {
            let width = prog.outputs@.len();
            let right = instance_outcome(prog, instances, inst as int) matches Ok(bytes)
                && bytes.len() == width && (forall|i: int|
                0 <= i < width ==> #[trigger] bytes[i] == answers[inst * width + i]);
            &&& traps_after.len() == traps.len()
            &&& flags_after.len() == flags.len()
            &&& traps_after[inst as int] == (if instance_outcome(
                prog,
                instances,
                inst as int,
            ) is Ok {
                0u32
            } else {
                1u32
            })
            &&& flags_after[inst as int] == (if right {
                1u32
            } else {
                0u32
            })
            &&& 0 <= j < traps.len() && j != inst ==> traps_after[j] == traps[j]
            &&& 0 <= j < flags.len() && j != inst ==> flags_after[j] == flags[j]
        },
{
    if inst < n {
        let width = prog.outputs@.len();
        let w_in = prog.inputs@.len();
        assert((inst + 1) * w_in <= n * w_in && (inst + 1) * width <= n * width && (inst + 1)
            * width == inst * width + width && 0 <= inst * width) by (nonlinear_arith)
            requires
                inst >= 0,
                inst + 1 <= n,
                w_in >= 0,
                width >= 0,
        ;
        law_tables(prog.outputs@, 0, 0);
        lemma_lane_is_instance(prog, instances, inputs, inst as int);
        let want = packed_row(expected, inst as int, width);
        assert forall|i: int| 0 <= i < width implies #[trigger] want[i] == answers[inst * width
            + i] by {
            assert(flat_byte(expected, inst * width + i) == answers[inst * width + i]);
        }
        if let Ok(bytes) = instance_outcome(prog, instances, inst as int) {
            if bytes.len() == width && (forall|i: int|
                0 <= i < width ==> #[trigger] bytes[i] == answers[inst * width + i]) {
                assert(bytes =~= want);
            }
            if bytes == want {
                assert forall|i: int| 0 <= i < width implies #[trigger] bytes[i] == answers[inst
                    * width + i] by {
                    assert(want[i] == answers[inst * width + i]);
                }
            }
        }
    }
}

} // verus!
