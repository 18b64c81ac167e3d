# dally-eval

High-throughput evaluator for Bill Dally 2D Manhattan communication-cost
IR programs, with its engines verified in Verus against one model of what
a program means.

## Cost model

Processor at the origin of an upper-half-plane memory grid; cell `idx`
sits at distance `ceil(sqrt(idx))` (computed as `isqrt(idx-1)+1`).
Operand reads are priced, writes and arithmetic are free, and each
declared output cell is charged one final read. Program cost is static:
the sum over the op stream. Binary ops accept a 3-operand form
(`op dst,s1,s2`) and a 2-operand accumulator form (`op dst,s2`) whose
first source is the destination (also charged as a read).

Execution semantics: 8-bit cells; `add`/`sub`/`mul` wrap; `div` is floor
division on signed interpretations and traps on zero (surfaces as
`RunError::DivideByZero` per instance); compares are signed;
`select dst,c,x,y` is `c != 0 ? x : y`; every write stores the
two's-complement byte; a cell that was never written reads as zero.

## Layout

- `src/semantics.rs` - the model: what a program yields on one instance
- `src/cost.rs` - exact integer distance pricing
- `src/ir.rs` - SoA flat buffers, static cost and highest address
- `src/text.rs`, `src/parse.rs` - the text IR, with its refusals
- `src/eval.rs` - zero-allocation interpreter over a reused cell arena,
  and the `Checker` trait for reference-function validation
- `src/runner.rs` - `BatchRunner` trait; `CpuRunner` fans instances out
  across Rayon workers with one machine per worker
- `src/pack.rs` - op stream, address tables and byte matrices in 32-bit
  words
- `src/kernel.rs` - the lane interpreter in the arithmetic of a compute
  device
- `src/gpu.rs` - uploads, launch sizes and read-back of a device batch
- `src/lds.rs`, `src/dispatch.rs` - shared-memory tiling from adapter
  limits, and chunked dispatch of large batches
- `src/schedule.rs` - schedules under construction by a search, and their
  exact score
- `src/cli.rs` - fixture format, grading and synthetic instances
- `src/laws.rs` - laws that span several parts
- `app/` - the command line, and the wgpu and CubeCL device runners
- `tests/` - scenarios, including 4x4 matmul, a 5-term polynomial, sparse
  parity trees, and lane-by-lane parity of the kernel with the machine

## What is proved

Every engine in `src/` computes `Program::outcome`: the machine, whatever
ran on it before; the batch runner, row by row or up to the first trap;
and the kernel, bit for bit, from the packed buffers the host uploads to
the rows it reads back, chunk by chunk, for lanes that run one at a time.
The static cost is the exact sum of rounded-up square roots, and
`max_addr` is the highest cell a program touches. The parser returns the instructions a text writes or the message
that refuses it.

What is believed rather than proved:

- a few small functions with their contracts: Rayon's ordered parallel
  map, bytemuck's casts between words and bytes, and `std`'s debug format
  and `String::push`
- that devices do what `src/kernel.rs` says: they run copies of it in
  `app/`, in WGSL and in CubeCL's Rust, which are not verified (the WGSL
  one leaves zeros in the output row of a trapped lane, which no caller
  sees)
- that concurrent lanes act as if they ran one at a time: neighbouring
  instances share output words when the row width is no multiple of 4

## CLI

```
dally-eval cost program.ir
dally-eval run  program.ir fixture.bin
dally-eval bench program.ir 1024 10
dally-eval verify < program.ir
```
