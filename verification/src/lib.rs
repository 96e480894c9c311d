//! Expands indentation-delimited (braceless) C/C++-like source into ordinary
//! brace-delimited text: each line is classified, scope-opening lines gain a
//! trailing `{`, and synthetic closing lines are emitted when indentation
//! recedes or the input ends.

use vstd::prelude::*;

pub mod chars;
pub mod compiler;
pub mod laws;
pub mod lines;
pub mod parser;
pub mod processor;

pub use compiler::CompilerInvoker;
pub use parser::BracelessParser;
pub use parser::Category;
pub use parser::ScopeKind;
pub use processor::FileProcessor;

verus! {

/// Whether a character counts as indentation.
pub open spec fn is_indent_char(c: char) -> bool {
    c == ' ' || c == '\t'
}

} // verus!
