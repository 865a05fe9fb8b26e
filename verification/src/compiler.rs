//! The compiler's entry point.
use vstd::prelude::*;
use crate::command::{views, Cmd, Command};
use crate::error::Error;
use crate::fixed_laws::lemma_fourth_pass;
use crate::optimizer::optimized;
use crate::parser::parsed;

verus! {

broadcast use vstd::string::group_string_axioms;

/// The compiler: parsing, optimisation, and the two combined.
pub struct Compiler;

/// The program that `text` compiles to: its parse, optimised three times
/// over; or the reason why `text` is no program.
pub open spec fn compiled(text: Seq<char>) -> Result<Seq<Cmd>, Error> {
    match parsed(text) {
        Ok(program) => Ok(optimized(optimized(optimized(program)))),
        Err(error) => Err(error),
    }
}

impl Compiler {
    /// Compiles `source`: parses it, and runs the optimiser over the result
    /// three times.
    ///
    /// Fails exactly when parsing fails, with the parser's error. The
    /// program it gives is one that a further pass of the optimiser leaves
    /// as it is.
    pub fn compile(source: &str) -> (result: Result<Vec<Command>, Error>)
        ensures
            match compiled(source@) {
                Ok(program) => result matches Ok(commands) && views(commands@) == program,
                Err(error) => result == Err::<Vec<Command>, Error>(error),
            },
            result matches Ok(commands) ==> optimized(views(commands@)) == views(commands@),
    {
        proof {
            lemma_fourth_pass(source@);
        }
        let mut result = match Compiler::parse(source.chars()) {
            Ok(program) => program,
            Err(error) => {
                return Err(error);
            },
        };
        result = Compiler::optimize(result.as_slice());
        result = Compiler::optimize(result.as_slice());
        result = Compiler::optimize(result.as_slice());
        Ok(result)
    }
}

} // verus!
