//! An optimising compiler and interpreter for the eight-operator tape language.
//!
//! Source text is parsed into a tree of [`Command`]s, rewritten by the
//! optimiser, and then either run on a [`Machine`] or rendered as C source.
//!
//! Every function states what it returns over the mathematical value of its
//! arguments: a [`Command`] is seen as a [`Cmd`], a [`Machine`] as a
//! [`machine::Tape`], and a run in progress as a [`run::State`].
//!
//! Two conventions hold throughout. Offsets and the pointer are 32-bit
//! integers whose sums wrap; a cell is only ever addressed on the tape, and
//! a command that would address one outside it is a fault. Deltas and
//! factors are 32-bit integers too, and a cell takes the low byte of what is
//! stored in it, so that a sum of deltas that wraps stores what the exact
//! sum stores.
//!
//! The machine does no input or output itself. [`Machine::execute`] runs a
//! program until it needs a byte read or written, and hands control back to
//! its caller for that.
//!
//! What a program does is said twice: step by step, as [`run::State`] and
//! [`play::Play`] have it, and from start to end, as [`meaning::outcome`]
//! has it; `play::lemma_play_agrees` shows that the two agree. The laws in
//! [`pass_laws`] say that a pass of the optimiser keeps what a program
//! does, and those in [`fixed_laws`] that the three passes of
//! [`Compiler::compile`] reach a program that no further pass changes.
pub mod command;
pub mod compiler;
pub mod error;
pub mod fixed_laws;
pub mod gen_c;
pub mod generator;
pub mod laws;
pub mod loop_laws;
pub mod machine;
pub mod meaning;
pub mod optimizer;
pub mod parser;
pub mod pass_laws;
pub mod play;
pub mod run;

pub use command::{Cmd, Command};
pub use compiler::Compiler;
pub use error::{Error, ErrorKind};
pub use machine::Machine;
pub use run::{Action, Frame, Task};
