//! Choosing what to render a program as.
use vstd::prelude::*;
use crate::command::{views, Command};
use crate::gen_c::{bf_to_c, c_source};

verus! {

/// The languages that a program can be rendered in.
#[derive(PartialEq, Eq, Debug, Clone, Copy, Structural)]
pub enum Target {
    /// C source.
    C,
}

/// Renders `program` in the language `target`.
pub fn transpile_to(target: Target, program: &[Command]) -> (result: String)
    ensures
        target == Target::C ==> result@ == c_source(views(program@)),
{
    match target {
        Target::C => bf_to_c(program),
    }
}

} // verus!
