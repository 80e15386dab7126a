//! Bloodhound: a portable time-travel debugger built over a small self-contained
//! stack VM.
//!
//! The crate is split into these layers:
//! - [`vm`]: the stack machine, its opcode set, call frames, linear memory, and
//!   the per-instruction undo journal that makes reverse execution possible.
//!   [`machine`] is its mathematical model, [`instructions`] the laws of its
//!   instruction set, [`arith`] the 64-bit arithmetic that it shares with
//!   expressions.
//! - [`assembler`]: a tiny assembler that turns human readable source into a
//!   [`vm::Program`], keeping a source and line table for source-level debugging.
//!   [`disassembly`] shows that the text of instructions assembles back to them,
//!   [`sources`] what each line of a source text does to the program.
//! - [`debugger`]: breakpoints, watchpoints, stepping (into/over/out) and time
//!   travel (step back, run back, goto step N) layered on top of the VM.
//!   [`stops`] are the laws of where it stops and why.
//! - [`expr`]: a tiny safe expression language used for conditional breakpoints
//!   and conditional watchpoints, with its tokens in [`token`] and its parser in
//!   [`grammar`]. [`wording`] shows that every expression without negative
//!   constants can be written down, [`composition`] how the expression of a text
//!   follows from those of its parts, [`precedence`] which operator takes which
//!   operands, [`faults`] what is said of texts that are none, and [`meaning`] what
//!   expressions are worth.
//! - [`console`]: the commands of an interactive session and the text they are
//!   answered with. [`commands`] are the laws of what they are for. [`demo`] is a
//!   scripted demonstration.
//! - [`samples`]: ready to load example programs used by the command line and the
//!   tests.
//! - [`text`]: numbers, words and lines of text. [`scanning`] are the laws of how
//!   they are read and written.
//!
//! The headline feature is reverse execution. Every executed instruction records
//! a compact undo record, so the debugger can walk backward to any earlier step
//! and reconstruct the exact machine state that forward execution had there.

pub mod arith;
pub mod assembler;
pub mod commands;
pub mod composition;
pub mod console;
pub mod debugger;
pub mod demo;
pub mod disassembly;
pub mod expr;
pub mod faults;
pub mod grammar;
pub mod instructions;
pub mod machine;
pub mod meaning;
pub mod precedence;
pub mod samples;
pub mod scanning;
pub mod sources;
pub mod stops;
pub mod text;
pub mod token;
pub mod vm;
pub mod wording;

pub use assembler::{assemble, AsmError};
pub use debugger::{Debugger, StopReason, WatchHit, WatchLoc};
pub use expr::{EvalCtx, Expr, ExprError};
pub use vm::{Frame, Op, Program, Snapshot, Vm};
