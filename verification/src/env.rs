//! The evaluation environment. Evaluation itself is an external collaborator
//! of the reader; at this stage the environment is the empty symbol table
//! that an evaluator would start from.

use vstd::prelude::*;

verus! {

/// A symbol table for an evaluator. No bindings are installed at this stage.
pub struct Env {
    symbol_table: Vec<String>,
}

impl Env {
    /// The names bound in this environment.
    pub closed spec fn names(self) -> Seq<Seq<char>> {
        self.symbol_table@.map_values(|s: String| s@)
    }

    /// An empty environment.
    pub fn new() -> (e: Env)
        ensures
            e.names().len() == 0,
    {
        Env { symbol_table: Vec::new() }
    }
}

} // verus!
