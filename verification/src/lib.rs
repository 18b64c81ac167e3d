//! dally-eval: high-throughput evaluator for Bill Dally 2D Manhattan
//! communication-cost IR programs.
//!
//! The cost model: a processor sits at the origin of an upper-half-plane
//! 2D memory grid; cell `idx` is at Manhattan distance `ceil(sqrt(idx))`.
//! Reading a cell costs its distance; writes and arithmetic are free.
//! A program is a straight-line (branchless, loop-free) sequence of
//! 3-address instructions over 8-bit cells; its score is the static sum
//! of operand-read costs plus one final read per declared output.
//!
//! [`semantics`] says what a program means; every engine here is held to
//! it: the [`Machine`] that interprets one instance, the batch runner that
//! fans instances out across threads, and the [`kernel`], the lane
//! interpreter in the arithmetic of a compute device. Devices themselves
//! run copies of the kernel in their own languages, which stand in `app/`
//! and are not verified.
//!
//! What holds across them is stated and proved apart from them: [`laws`]
//! of the cost model and the machine, [`grammar`] and [`notation`] of the
//! text IR, [`layout`] of the flat buffers, and [`batches`] of tiled and
//! chunked batches.
//!
//! Notable details: `add`/`sub`/`mul` wrap; `div` is *floor* division on
//! signed 8-bit interpretations (not truncation) and traps on zero;
//! comparisons are signed; every write stores the two's-complement byte.
//!
//! Parallelism shape: within one instance the program is a fixed
//! sequential dataflow chain, but instances (and candidate schedules)
//! are embarrassingly parallel. All runners consume the same flat SoA
//! buffers ([`ir::Program`], row-major instance matrix), so the Rayon CPU
//! runner and the compute backends share one interface.

pub mod batches;
pub mod cli;
pub mod cost;
pub mod dispatch;
pub mod eval;
pub mod gpu;
pub mod grammar;
pub mod ir;
pub mod kernel;
pub mod laws;
pub mod layout;
pub mod lds;
pub mod notation;
pub mod pack;
pub mod parse;
pub mod runner;
pub mod schedule;
pub mod semantics;
pub mod text;

pub use eval::{Checker, Machine, RunError};
pub use ir::{Op, OpKind, Program};
pub use runner::{BatchRunner, CpuRunner};
