//! The computation behind the command line: fixture format, scoring
//! facts, grading of a batch, and synthetic instances.
//!
//! Fixture format (little-endian): u32 n, u32 n_inputs, u64 reference
//! cost, n rows of n_inputs bytes, u32 out_words (= n * out_width), then
//! out_words bytes of expected outputs.

use crate::ir::Program;
use crate::notation::{law_decimal_notation, law_digits_write_numbers};
use crate::text::{append_decimal, decimal, is_digit};
use vstd::arithmetic::div_mod::{
    lemma_add_mod_noop, lemma_mod_add_multiples_vanish, lemma_small_mod,
};
use vstd::prelude::*;
use vstd::slice::slice_subrange;
use vstd::slice::slice_to_vec;
use vstd::string::StringExecFns;

verus! {

/// The little-endian number in the 4 bytes at `off`.
pub open spec fn u32_at(bin: Seq<u8>, off: int) -> nat {
    (bin[off] + bin[off + 1] * 0x100 + bin[off + 2] * 0x1_0000 + bin[off + 3] * 0x100_0000) as nat
}

/// The little-endian number in the 8 bytes at `off`.
pub open spec fn u64_at(bin: Seq<u8>, off: int) -> nat {
    u32_at(bin, off) + u32_at(bin, off + 4) * 0x1_0000_0000
}

/// Offset of the length of the expected outputs: behind the 16 bytes of
/// the header and the input rows.
pub open spec fn expected_at(bin: Seq<u8>) -> nat {
    16 + u32_at(bin, 0) * u32_at(bin, 4)
}

/// `bin` holds a whole fixture.
pub open spec fn fixture_complete(bin: Seq<u8>) -> bool {
    &&& bin.len() >= 16
    &&& bin.len() >= expected_at(bin) + 4
    &&& bin.len() >= expected_at(bin) + 4 + u32_at(bin, expected_at(bin) as int)
}

/// The little-endian number in the 4 bytes at `off`.
fn read_u32(bin: &[u8], off: usize) -> (v: u32)
    requires
        off + 4 <= bin@.len(),
    ensures
        v == u32_at(bin@, off as int),
{
    assert(bin@.len() == bin.len());
    bin[off] as u32 + bin[off + 1] as u32 * 0x100 + bin[off + 2] as u32 * 0x1_0000 + bin[off
        + 3] as u32 * 0x100_0000
}

/// Two 32-bit numbers multiply to 64 bits with room to spare.
proof fn lemma_product_fits(n: u32, width: u32)
    ensures
        0 <= n * width <= 0xffff_fffe_0000_0001,
{
    assert(0 <= n * width <= 0xffff_ffff * 0xffff_ffff) by (nonlinear_arith)
        requires
            0 <= n <= 0xffff_ffff,
            0 <= width <= 0xffff_ffff,
    ;
}

/// Whether `bin` holds a whole fixture.
pub fn is_fixture(bin: &[u8]) -> (b: bool)
    ensures
        b == fixture_complete(bin@),
{
    let len: u64 = bin.len() as u64;
    if len < 16 {
        return false;
    }
    let n: u32 = read_u32(bin, 0);
    let width: u32 = read_u32(bin, 4);
    proof {
        lemma_product_fits(n, width);
    }
    let at: u64 = 16 + n as u64 * width as u64;
    if len < at + 4 {
        return false;
    }
    let out_words: u32 = read_u32(bin, at as usize);
    len >= at + 4 + out_words as u64
}

/// The fixture `bin` holds these counts, this reference cost, these input
/// rows and these expected outputs.
pub open spec fn reads_as(
    bin: Seq<u8>,
    n: nat,
    width: nat,
    ref_cost: nat,
    inputs: Seq<u8>,
    expected: Seq<u8>,
) -> bool {
    &&& n == u32_at(bin, 0)
    &&& width == u32_at(bin, 4)
    &&& ref_cost == u64_at(bin, 8)
    &&& inputs == bin.subrange(16, expected_at(bin) as int)
    &&& expected == bin.subrange(
        (expected_at(bin) + 4) as int,
        (expected_at(bin) + 4 + u32_at(bin, expected_at(bin) as int)) as int,
    )
}

/// Read a fixture: instance count, inputs per instance, reference cost,
/// input rows, and expected outputs.
pub fn parse_fixture(bin: &[u8]) -> (r: (usize, usize, u64, Vec<u8>, Vec<u8>))
    requires
        fixture_complete(bin@),
    ensures
        reads_as(bin@, r.0 as nat, r.1 as nat, r.2 as nat, r.3@, r.4@),
        r.0 == u32_at(bin@, 0),
        r.1 == u32_at(bin@, 4),
        r.2 == u64_at(bin@, 8),
        r.3@ == bin@.subrange(16, expected_at(bin@) as int),
        r.3@.len() == r.0 * r.1,
        r.4@ == bin@.subrange(
            (expected_at(bin@) + 4) as int,
            (expected_at(bin@) + 4 + u32_at(bin@, expected_at(bin@) as int)) as int,
        ),
{
    assert(bin@.len() == bin.len());
    let n: usize = read_u32(bin, 0) as usize;
    let width: usize = read_u32(bin, 4) as usize;
    let low: u64 = read_u32(bin, 8) as u64;
    let high: u64 = read_u32(bin, 12) as u64;
    let ref_cost: u64 = low + high * 0x1_0000_0000;
    assert(n * width >= 0) by (nonlinear_arith)
        requires
            n >= 0,
            width >= 0,
    ;
    let at: usize = 16 + n * width;
    let inputs: Vec<u8> = slice_to_vec(slice_subrange(bin, 16, at));
    let out_words: usize = read_u32(bin, at) as usize;
    let expected: Vec<u8> = slice_to_vec(slice_subrange(bin, at + 4, at + 4 + out_words));
    (n, width, ref_cost, inputs, expected)
}

/// The scoring facts of a program as one JSON object.
pub open spec fn facts_line(cost: nat, ops: nat, inputs: nat, outputs: nat) -> Seq<char> {
    "{\"cost\":"@ + decimal(cost) + ",\"ops\":"@ + decimal(ops) + ",\"inputs\":"@ + decimal(inputs)
        + ",\"outputs\":"@ + decimal(outputs) + "}"@
}

/// The static scoring facts of a program as one JSON object.
pub fn scoring_facts(prog: &Program) -> (line: String)
    ensures
        line@ == facts_line(
            prog.static_cost as nat,
            prog.ops().len(),
            prog.inputs@.len(),
            prog.outputs@.len(),
        ),
        line@ == "{\"cost\":"@ + decimal(prog.static_cost as nat) + ",\"ops\":"@ + decimal(
            prog.ops().len(),
        ) + ",\"inputs\":"@ + decimal(prog.inputs@.len()) + ",\"outputs\":"@ + decimal(
            prog.outputs@.len(),
        ) + "}"@,
{
    let mut line: String = String::from_str("{\"cost\":");
    append_decimal(&mut line, prog.static_cost);
    line.append(",\"ops\":");
    append_decimal(&mut line, prog.len() as u64);
    line.append(",\"inputs\":");
    append_decimal(&mut line, prog.inputs.len() as u64);
    line.append(",\"outputs\":");
    append_decimal(&mut line, prog.outputs.len() as u64);
    line.append("}");
    line
}

/// What is said of a static cost that is not the reference cost; nothing
/// of one that is.
pub open spec fn cost_complaint(static_cost: nat, ref_cost: nat) -> Option<Seq<char>> {
    if static_cost == ref_cost {
        None
    } else {
        Some(
            "static cost mismatch: rust "@ + decimal(static_cost) + " vs reference "@ + decimal(
                ref_cost,
            ),
        )
    }
}

/// Hold the static cost of a program to a reference cost.
pub fn check_cost(static_cost: u64, ref_cost: u64) -> (r: Result<(), String>)
    ensures
        match cost_complaint(static_cost as nat, ref_cost as nat) {
            None => r is Ok,
            Some(m) => r matches Err(message) && message@ == m,
        },
        r is Ok <==> static_cost == ref_cost,
        r matches Err(message) ==> message@ == "static cost mismatch: rust "@ + decimal(
            static_cost as nat,
        ) + " vs reference "@ + decimal(ref_cost as nat),
{
    if static_cost == ref_cost {
        return Ok(());
    }
    let mut message: String = String::from_str("static cost mismatch: rust ");
    append_decimal(&mut message, static_cost);
    message.append(" vs reference ");
    append_decimal(&mut message, ref_cost);
    Err(message)
}

/// The smaller of two integers.
pub open spec fn smaller(x: int, y: int) -> int {
    if x <= y {
        x
    } else {
        y
    }
}

/// Chunk `i` of the expected bytes, `width` bytes long; the last chunk
/// may be shorter.
pub open spec fn chunk_at(expected: Seq<u8>, width: nat, i: int) -> Seq<u8> {
    expected.subrange(
        smaller(i * width, expected.len() as int),
        smaller((i + 1) * width, expected.len() as int),
    )
}

/// How many of the first `k` rows equal their chunk of the expected
/// bytes; rows without a chunk do not count.
pub open spec fn matching_rows(
    rows: Seq<Vec<u8>>,
    expected: Seq<u8>,
    width: nat,
    k: nat,
) -> nat
    decreases k,
{
    if k == 0 {
        0
    } else {
        let i = k - 1;
        matching_rows(rows, expected, width, i as nat) + (if i * width < expected.len()
            && rows[i]@ == chunk_at(expected, width, i) {
            1nat
        } else {
            0nat
        })
    }
}

/// Whether two byte strings are equal.
fn same_bytes(x: &[u8], y: &[u8]) -> (same: bool)
    ensures
        same == (x@ == y@),
{
    let n: usize = x.len();
    if n != y.len() {
        return false;
    }
    for i in 0..n
        invariant
            n == x@.len(),
            n == y@.len(),
            forall|j: int| 0 <= j < i ==> (#[trigger] x@[j]) == y@[j],
    {
        if x[i] != y[i] {
            return false;
        }
    }
    assert(x@ =~= y@);
    true
}

/// How many output rows equal their chunk of the expected bytes.
pub fn count_correct(rows: &Vec<Vec<u8>>, expected: &[u8], out_w: usize) -> (count: usize)
    requires
        out_w > 0,
    ensures
        count == matching_rows(rows@, expected@, out_w as nat, rows@.len()),
        count <= rows@.len(),
{
    let n: usize = rows.len();
    let len: usize = expected.len();
    let mut off: usize = 0;
    let mut count: usize = 0;
    assert(smaller(0 * out_w as int, len as int) == 0) by (nonlinear_arith)
        requires
            len >= 0,
    ;
    for i in 0..n
        invariant
            n == rows@.len(),
            len == expected@.len(),
            out_w > 0,
            off == smaller(i * out_w as int, len as int),
            count <= i,
            count == matching_rows(rows@, expected@, out_w as nat, i as nat),
    {
        assert((i + 1) * out_w == i * out_w + out_w) by (nonlinear_arith);
        let end: usize = if len - off < out_w {
            len
        } else {
            off + out_w
        };
        if off < len && same_bytes(rows[i].as_slice(), slice_subrange(expected, off, end)) {
            count = count + 1;
        }
        off = end;
    }
    count
}

/// Seed of the benchmark instances.
pub const BENCH_SEED: u64 = 0x2545_F491_4F6C_DD1D;

/// The next state of the linear congruential generator.
pub open spec fn lcg_next(s: u64) -> u64 {
    ((s * 6364136223846793005 + 1442695040888963407) % 0x1_0000_0000_0000_0000) as u64
}

/// The generator's state after `k` steps from `seed`.
pub open spec fn lcg_state(seed: u64, k: nat) -> u64
    decreases k,
{
    if k == 0 {
        seed
    } else {
        lcg_next(lcg_state(seed, (k - 1) as nat))
    }
}

/// The byte that a state of the generator yields: its bits 33 to 40.
pub open spec fn lcg_byte(s: u64) -> u8 {
    ((s / 0x2_0000_0000) % 256) as u8
}

/// One step of the generator.
fn lcg_step(s: u64) -> (next: u64)
    ensures
        next == lcg_next(s),
{
    let scaled: u64 = s.wrapping_mul(6364136223846793005);
    let next: u64 = scaled.wrapping_add(1442695040888963407);
    proof {
        let m: int = 0x1_0000_0000_0000_0000;
        let product: int = s * 6364136223846793005;
        let c: int = 1442695040888963407;
        lemma_add_mod_noop(product, c, m);
        lemma_small_mod(c as nat, m as nat);
        assert(scaled == product % m);
        assert((scaled + c) % m == (product + c) % m);
        if scaled + c >= m {
            lemma_mod_add_multiples_vanish(scaled + c - m, m);
            lemma_small_mod((scaled + c - m) as nat, m as nat);
        } else {
            lemma_small_mod((scaled + c) as nat, m as nat);
        }
    }
    next
}

/// The byte that a state of the generator yields.
fn lcg_out(s: u64) -> (b: u8)
    ensures
        b == lcg_byte(s),
{
    assert((s >> 33) as u8 == ((s / 0x2_0000_0000) % 256) as u8) by (bit_vector);
    (s >> 33) as u8
}

/// `v` is what the generator yields, byte by byte, from the state `seed`
/// on.
pub open spec fn drawn_from(v: Seq<u8>, seed: u64) -> bool {
    forall|i: int|
        0 <= i < v.len() ==> #[trigger] v[i] == lcg_byte(lcg_state(seed, (i + 1) as nat))
}

/// `n` synthetic instances of a program, from a simple LCG so the
/// branchy paths vary.
pub fn synth_instances(prog: &Program, n: usize, seed: u64) -> (v: Vec<u8>)
    requires
        n * prog.inputs@.len() <= usize::MAX,
    ensures
        v@.len() == n * prog.inputs@.len(),
        drawn_from(v@, seed),
        forall|i: int|
            0 <= i < v@.len() ==> #[trigger] v@[i] == lcg_byte(lcg_state(seed, (i + 1) as nat)),
{
    let total: usize = n * prog.inputs.len();
    let mut s: u64 = seed;
    let mut v: Vec<u8> = Vec::with_capacity(total);
    for i in 0..total
        invariant
            v@.len() == i,
            s == lcg_state(seed, i as nat),
            forall|j: int|
                0 <= j < i ==> #[trigger] v@[j] == lcg_byte(lcg_state(seed, (j + 1) as nat)),
    {
        s = lcg_step(s);
        v.push(lcg_out(s));
    }
    v
}

/// Row `i` is right: its chunk of the expected bytes is not empty, the
/// row has as many bytes as the chunk, and each of its bytes is the
/// expected byte at the same place.
pub open spec fn row_is_right(row: Seq<u8>, expected: Seq<u8>, width: nat, i: int) -> bool {
    let left = expected.len() - i * width;
    &&& left > 0
    &&& row.len() == (if left < width {
        left
    } else {
        width as int
    })
    &&& forall|j: int| 0 <= j < row.len() ==> #[trigger] row[j] == expected[i * width + j]
}

/// A row equals its chunk exactly when it is right.
proof fn lemma_row_is_right(row: Seq<u8>, expected: Seq<u8>, width: nat, i: int)
    requires
        width > 0,
        i >= 0,
    ensures
        row_is_right(row, expected, width, i) == (i * width < expected.len() && row == chunk_at(
            expected,
            width,
            i,
        )),
{
    assert((i + 1) * width == i * width + width) by (nonlinear_arith);
    assert(i * width >= 0) by (nonlinear_arith)
        requires
            i >= 0,
            width > 0,
    ;
    let chunk = chunk_at(expected, width, i);
    if i * width < expected.len() {
        assert forall|j: int| 0 <= j < chunk.len() implies #[trigger] chunk[j] == expected[i * width
            + j] by {}
        if row_is_right(row, expected, width, i) {
            assert(row =~= chunk);
        }
    }
}

/// The positions below `k` whose rows are right.
pub open spec fn right_rows(
    rows: Seq<Vec<u8>>,
    expected: Seq<u8>,
    width: nat,
    k: nat,
) -> Set<int> {
    vstd::set_lib::set_int_range(0, k as int).filter(
        |i: int| row_is_right(rows[i]@, expected, width, i),
    )
}

/// The count of correct rows is the number of rows that are right, every
/// byte of them: each row adds one if it is right and nothing if not.
pub proof fn law_every_byte_is_graded(
    rows: Seq<Vec<u8>>,
    expected: Seq<u8>,
    width: nat,
    k: nat,
)
    requires
        width > 0,
    ensures
        matching_rows(rows, expected, width, 0) == 0,
        matching_rows(rows, expected, width, k + 1) == matching_rows(rows, expected, width, k) + (
        if row_is_right(rows[k as int]@, expected, width, k as int) {
            1int
        } else {
            0int
        }),
        matching_rows(rows, expected, width, k) == right_rows(rows, expected, width, k).len(),
    decreases k,
{
    lemma_row_is_right(rows[k as int]@, expected, width, k as int);
    vstd::set_lib::lemma_int_range(0, k as int);
    if k > 0 {
        let i = k - 1;
        law_every_byte_is_graded(rows, expected, width, i as nat);
        vstd::set_lib::lemma_int_range(0, i);
        lemma_row_is_right(rows[i]@, expected, width, i);
        let below = right_rows(rows, expected, width, i as nat);
        let all = right_rows(rows, expected, width, k);
        if row_is_right(rows[i]@, expected, width, i) {
            assert(all =~= below.insert(i));
        } else {
            assert(all =~= below);
        }
    } else {
        assert(right_rows(rows, expected, width, 0) =~= Set::<int>::empty());
    }
}

/// Another byte in the expected outputs leaves the rows of other chunks
/// as right or wrong as they were.
proof fn lemma_other_rows_keep(
    rows: Seq<Vec<u8>>,
    expected: Seq<u8>,
    width: nat,
    k: nat,
    i: int,
    j: int,
    b: u8,
)
    requires
        width > 0,
        0 <= i,
        0 <= j < width,
        i * width + j < expected.len(),
        b != expected[i * width + j],
        row_is_right(rows[i]@, expected, width, i),
    ensures
        matching_rows(rows, expected.update(i * width + j, b), width, k) + (if i < k {
            1int
        } else {
            0int
        }) == matching_rows(rows, expected, width, k),
    decreases k,
{
    let at = i * width + j;
    assert(at >= 0) by (nonlinear_arith)
        requires
            i >= 0,
            width > 0,
            j >= 0,
            at == i * width + j,
    ;
    let other = expected.update(at, b);
    if k > 0 {
        let r = k - 1;
        lemma_other_rows_keep(rows, expected, width, r as nat, i, j, b);
        law_every_byte_is_graded(rows, expected, width, r as nat);
        law_every_byte_is_graded(rows, other, width, r as nat);
        let row = rows[r]@;
        assert(r * width >= 0) by (nonlinear_arith)
            requires
                r >= 0,
                width > 0,
        ;
        if r == i {
            assert(row[j] == expected[i * width + j]);
            assert(row[j] != other[i * width + j]);
        } else {
            assert forall|p: int| 0 <= p < width implies #[trigger] (r * width + p) != at by {
                if r < i {
                    assert((r + 1) * width <= i * width) by (nonlinear_arith)
                        requires
                            r + 1 <= i,
                            width > 0,
                    ;
                    assert((r + 1) * width == r * width + width) by (nonlinear_arith);
                } else {
                    assert((i + 1) * width <= r * width) by (nonlinear_arith)
                        requires
                            i + 1 <= r,
                            width > 0,
                    ;
                    assert((i + 1) * width == i * width + width) by (nonlinear_arith);
                }
            }
            let left = expected.len() - r * width;
            if left > 0 && row.len() <= width && row.len() <= left {
                assert forall|p: int| 0 <= p < row.len() implies other[r * width + p]
                    == #[trigger] expected[r * width + p] by {}
            }
            if row_is_right(row, expected, width, r) {
                assert forall|p: int| 0 <= p < row.len() implies #[trigger] row[p] == other[r
                    * width + p] by {
                    assert(other[r * width + p] == expected[r * width + p]);
                }
            }
            if row_is_right(row, other, width, r) {
                assert forall|p: int| 0 <= p < row.len() implies #[trigger] row[p] == expected[r
                    * width + p] by {
                    assert(other[r * width + p] == expected[r * width + p]);
                }
            }
            assert(row_is_right(row, expected, width, r) == row_is_right(row, other, width, r));
        }
    }
}

/// Every expected byte counts: change any one byte of the chunk of a
/// right row and the count falls by exactly one.
pub proof fn law_one_wrong_byte_costs_its_row(
    rows: Seq<Vec<u8>>,
    expected: Seq<u8>,
    width: nat,
    i: int,
    j: int,
    b: u8,
)
    requires
        width > 0,
        0 <= i < rows.len(),
        0 <= j < rows[i]@.len(),
        row_is_right(rows[i]@, expected, width, i),
        b != expected[i * width + j],
    ensures
        matching_rows(rows, expected.update(i * width + j, b), width, rows.len()) + 1
            == matching_rows(rows, expected, width, rows.len()),
{
    lemma_other_rows_keep(rows, expected, width, rows.len(), i, j, b);
}

/// The four bytes of a number, lowest first.
pub open spec fn four_bytes(v: u32) -> Seq<u8> {
    seq![
        (v % 256) as u8,
        (v / 256 % 256) as u8,
        (v / 65536 % 256) as u8,
        (v / 16777216) as u8,
    ]
}

/// `bin` holds `part` at the offset `at`.
pub open spec fn holds_at(bin: Seq<u8>, at: int, part: Seq<u8>) -> bool {
    &&& 0 <= at
    &&& at + part.len() <= bin.len()
    &&& forall|i: int| 0 <= i < part.len() ==> #[trigger] part[i] == bin[at + i]
}

/// Reading four bytes gives back the number they were written from.
pub proof fn law_numbers_read_back(bin: Seq<u8>, at: int, v: u32)
    requires
        holds_at(bin, at, four_bytes(v)),
    ensures
        u32_at(bin, at) == v,
{
    let part = four_bytes(v);
    assert(part[0] == bin[at]);
    assert(part[1] == bin[at + 1]);
    assert(part[2] == bin[at + 2]);
    assert(part[3] == bin[at + 3]);
}

/// A fixture reads back: the count, the width, the reference cost, the
/// input rows and the expected outputs that are read are the ones that
/// it was written from. Bytes after the expected outputs are ignored.
pub proof fn law_fixtures_read_back(
    bin: Seq<u8>,
    n: u32,
    width: u32,
    low: u32,
    high: u32,
    inputs: Seq<u8>,
    expected: Seq<u8>,
    n2: nat,
    width2: nat,
    ref_cost: nat,
    inputs2: Seq<u8>,
    expected2: Seq<u8>,
)
    requires
        inputs.len() == n * width,
        expected.len() <= u32::MAX,
        holds_at(bin, 0, four_bytes(n)),
        holds_at(bin, 4, four_bytes(width)),
        holds_at(bin, 8, four_bytes(low)),
        holds_at(bin, 12, four_bytes(high)),
        holds_at(bin, 16, inputs),
        holds_at(bin, 16 + inputs.len() as int, four_bytes(expected.len() as u32)),
        holds_at(bin, 20 + inputs.len() as int, expected),
    ensures
        fixture_complete(bin),
        reads_as(bin, n2, width2, ref_cost, inputs2, expected2) <==> n2 == n && width2 == width
            && ref_cost == low + high * 0x1_0000_0000 && inputs2 == inputs && expected2 == expected,
{
    law_numbers_read_back(bin, 0, n);
    law_numbers_read_back(bin, 4, width);
    law_numbers_read_back(bin, 8, low);
    law_numbers_read_back(bin, 12, high);
    law_numbers_read_back(bin, 16 + inputs.len() as int, expected.len() as u32);
    assert(bin.subrange(16, 16 + inputs.len() as int) =~= inputs);
    let at = 20 + inputs.len() as int;
    assert(bin.subrange(at, at + expected.len()) =~= expected);
}

/// A file that ends before its expected outputs do is no whole fixture.
pub proof fn law_cut_fixtures_are_refused(bin: Seq<u8>, n: u32, width: u32, out_words: u32)
    requires
        bin.len() >= 8 ==> holds_at(bin, 0, four_bytes(n)) && holds_at(bin, 4, four_bytes(width)),
        bin.len() >= 20 + n * width ==> holds_at(bin, 16 + n * width, four_bytes(out_words)),
        bin.len() < 20 + n * width + out_words,
    ensures
        !fixture_complete(bin),
{
    lemma_product_fits(n, width);
    if bin.len() >= 16 {
        law_numbers_read_back(bin, 0, n);
        law_numbers_read_back(bin, 4, width);
        if bin.len() >= 20 + n * width {
            law_numbers_read_back(bin, 16 + n * width, out_words);
        }
    }
}

/// The generator starts at its seed, multiplies and adds modulo 2^64 at
/// each step, and goes on from any of its states as from a seed.
pub proof fn law_generator_steps(seed: u64, x: nat, y: nat)
    ensures
        lcg_state(seed, 0) == seed,
        (lcg_state(seed, x) * 6364136223846793005 + 1442695040888963407 - lcg_state(seed, x + 1))
            % 0x1_0000_0000_0000_0000 == 0,
        lcg_state(seed, x + y) == lcg_state(lcg_state(seed, x), y),
    decreases y,
{
    let full = lcg_state(seed, x) * 6364136223846793005 + 1442695040888963407;
    let m: int = 0x1_0000_0000_0000_0000;
    assert(lcg_state(seed, x + 1) == full % m);
    assert((full - full % m) % m == 0);
    if y > 0 {
        law_generator_steps(seed, x, (y - 1) as nat);
    }
}

/// A state of the generator yields its bits 33 to 40: states that differ
/// in other bits alone yield the same byte, and the byte is the number
/// that those bits write.
pub proof fn law_generator_yields_middle_bits(high: u64, b: u8, low: u64)
    requires
        high < 0x80_0000,
        low < 0x2_0000_0000,
    ensures
        lcg_byte((high * 0x200_0000_0000 + b * 0x2_0000_0000 + low) as u64) == b,
{
    let s = (high * 0x200_0000_0000 + b * 0x2_0000_0000 + low) as u64;
    assert(s / 0x2_0000_0000 == high * 256 + b);
}

/// Where two texts start with digits and go on with another character,
/// and the texts are equal, so are the digits and what follows them.
proof fn lemma_digits_end(x: Seq<char>, xs: Seq<char>, y: Seq<char>, ys: Seq<char>)
    requires
        x + xs == y + ys,
        xs.len() > 0 && !is_digit(xs[0]),
        ys.len() > 0 && !is_digit(ys[0]),
        forall|i: int| 0 <= i < x.len() ==> is_digit(#[trigger] x[i]),
        forall|i: int| 0 <= i < y.len() ==> is_digit(#[trigger] y[i]),
    ensures
        x == y,
        xs == ys,
{
    let whole = x + xs;
    assert(whole == y + ys);
    if x.len() < y.len() {
        assert(whole[x.len() as int] == xs[0]);
        assert(whole[x.len() as int] == y[x.len() as int]);
    } else if y.len() < x.len() {
        assert(whole[y.len() as int] == ys[0]);
        assert(whole[y.len() as int] == x[y.len() as int]);
    }
    assert(x.len() == y.len());
    assert(x =~= whole.take(x.len() as int));
    assert(y =~= whole.take(y.len() as int));
    assert(xs =~= whole.skip(x.len() as int));
    assert(ys =~= whole.skip(y.len() as int));
}

/// The numbers of a text with the same lead and equal digits.
proof fn lemma_number_reads(
    lead: Seq<char>,
    v: nat,
    xs: Seq<char>,
    w: nat,
    ys: Seq<char>,
)
    requires
        lead + decimal(v) + xs == lead + decimal(w) + ys,
        xs.len() > 0 && !is_digit(xs[0]),
        ys.len() > 0 && !is_digit(ys[0]),
    ensures
        v == w,
        xs == ys,
{
    let n = lead.len() as int;
    assert((lead + decimal(v) + xs).skip(n) =~= decimal(v) + xs);
    assert((lead + decimal(w) + ys).skip(n) =~= decimal(w) + ys);
    law_decimal_notation(v, 0);
    law_decimal_notation(w, 0);
    law_digits_write_numbers(decimal(v), '0');
    law_digits_write_numbers(decimal(w), '0');
    lemma_digits_end(decimal(v), xs, decimal(w), ys);
}

/// The scoring facts can be read back from their line: programs with the
/// same line have the same cost and as many instructions, inputs and
/// outputs.
pub proof fn law_facts_read_back(
    cost: nat,
    ops: nat,
    inputs: nat,
    outputs: nat,
    cost2: nat,
    ops2: nat,
    inputs2: nat,
    outputs2: nat,
)
    requires
        facts_line(cost, ops, inputs, outputs) == facts_line(cost2, ops2, inputs2, outputs2),
    ensures
        cost == cost2,
        ops == ops2,
        inputs == inputs2,
        outputs == outputs2,
{
    let a = "{\"cost\":"@;
    let b = ",\"ops\":"@;
    let c = ",\"inputs\":"@;
    let d = ",\"outputs\":"@;
    let e = "}"@;
    reveal_strlit(",\"ops\":");
    reveal_strlit(",\"inputs\":");
    reveal_strlit(",\"outputs\":");
    reveal_strlit("}");
    let x3 = d + decimal(outputs) + e;
    let y3 = d + decimal(outputs2) + e;
    let x2 = c + decimal(inputs) + x3;
    let y2 = c + decimal(inputs2) + y3;
    let x1 = b + decimal(ops) + x2;
    let y1 = b + decimal(ops2) + y2;
    assert(a + decimal(cost) + x1 =~= facts_line(cost, ops, inputs, outputs));
    assert(a + decimal(cost2) + y1 =~= facts_line(cost2, ops2, inputs2, outputs2));
    lemma_number_reads(a, cost, x1, cost2, y1);
    lemma_number_reads(b, ops, x2, ops2, y2);
    lemma_number_reads(c, inputs, x3, inputs2, y3);
    lemma_number_reads(d, outputs, e, outputs2, e);
}

/// Equal costs pass, unequal ones do not, and the complaint can be read
/// back: it names the two costs, the static one first.
pub proof fn law_complaints_read_back(x: nat, y: nat, x2: nat, y2: nat)
    ensures
        cost_complaint(x, y) is None <==> x == y,
        x != y && cost_complaint(x, y) == cost_complaint(x2, y2) ==> x == x2 && y == y2,
{
    if x != y && cost_complaint(x, y) == cost_complaint(x2, y2) {
        let a = "static cost mismatch: rust "@;
        let b = " vs reference "@;
        let stop = seq!['.'];
        reveal_strlit(" vs reference ");
        assert(a + decimal(x) + (b + decimal(y)) =~= a + decimal(x) + b + decimal(y));
        assert(a + decimal(x2) + (b + decimal(y2)) =~= a + decimal(x2) + b + decimal(y2));
        lemma_number_reads(a, x, b + decimal(y), x2, b + decimal(y2));
        lemma_number_reads(b, y, stop, y2, stop);
    }
}

/// Synthetic bytes are drawn one after the other: each is the middle byte
/// of the next state, and a longer draw goes on where a shorter one ended.
pub proof fn law_draws_continue(x: Seq<u8>, y: Seq<u8>, b: u8, seed: u64, next: u64)
    requires
        (seed * 6364136223846793005 + 1442695040888963407 - next) % 0x1_0000_0000_0000_0000 == 0,
    ensures
        drawn_from(Seq::<u8>::empty(), seed),
        drawn_from(seq![b], seed) <==> b == lcg_byte(next),
        drawn_from(x + y, seed) <==> drawn_from(x, seed) && drawn_from(
            y,
            lcg_state(seed, x.len()),
        ),
{
    law_generator_steps(seed, 0, 0);
    let first = lcg_state(seed, 1);
    let m: int = 0x1_0000_0000_0000_0000;
    let full = seed * 6364136223846793005 + 1442695040888963407;
    assert(first == full % m);
    assert(next == full % m) by {
        vstd::arithmetic::div_mod::lemma_fundamental_div_mod(full - next, m);
        let q = (full - next) / m;
        vstd::arithmetic::div_mod::lemma_fundamental_div_mod_converse(full, m, q, next as int);
    }
    assert(seq![b][0] == b);
    let whole = x + y;
    let mid = lcg_state(seed, x.len());
    assert forall|i: int| 0 <= i < y.len() implies lcg_state(seed, (x.len() + i + 1) as nat)
        == #[trigger] lcg_state(mid, (i + 1) as nat) by {
        law_generator_steps(seed, x.len(), (i + 1) as nat);
    }
    if drawn_from(whole, seed) {
        assert forall|i: int| 0 <= i < x.len() implies #[trigger] x[i] == lcg_byte(
            lcg_state(seed, (i + 1) as nat),
        ) by {
            assert(whole[i] == x[i]);
        }
        assert forall|i: int| 0 <= i < y.len() implies #[trigger] y[i] == lcg_byte(
            lcg_state(mid, (i + 1) as nat),
        ) by {
            assert(whole[x.len() + i] == y[i]);
        }
    }
    if drawn_from(x, seed) && drawn_from(y, mid) {
        assert forall|i: int| 0 <= i < whole.len() implies #[trigger] whole[i] == lcg_byte(
            lcg_state(seed, (i + 1) as nat),
        ) by {
            if i < x.len() {
                assert(whole[i] == x[i]);
            } else {
                let k = i - x.len();
                assert(whole[i] == y[k]);
                assert(lcg_state(seed, (x.len() + k + 1) as nat) == lcg_state(
                    mid,
                    (k + 1) as nat,
                ));
            }
        }
    }
}

} // verus!
