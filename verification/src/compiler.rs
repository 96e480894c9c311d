//! The downstream compiler invocation. Spawning the process is the
//! caller's I/O; the invoker itself carries no state, and an invocation is
//! valid only when an argument list with a leading executable name exists.

use vstd::prelude::*;

verus! {

/// Runs the rewritten argument list as the downstream compiler command.
/// The spawn itself is the surrounding program's I/O; before it, the
/// argument list must be checked non-empty with [`CompilerInvoker::args_valid`].
pub struct CompilerInvoker;

impl CompilerInvoker {
    pub fn new() -> Self {
        CompilerInvoker
    }

    /// Whether `args` can be invoked at all: argument 0 must exist, as the
    /// compiler executable's name.
    pub fn args_valid(&self, args: &Vec<String>) -> (r: bool)
        ensures
            r == (args@.len() > 0),
    {
        args.len() > 0
    }
}

} // verus!
