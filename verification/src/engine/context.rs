use vstd::prelude::*;
use std::collections::HashMap;

verus! {

broadcast use vstd::std_specs::hash::group_hash_axioms;

/// Execution counts from a coverage run: hits per source line (1-based)
/// and per function.
#[derive(Debug, Clone, Default)]
pub struct CoverageData {
    pub line_hits: HashMap<u32, u64>,
    pub function_hits: HashMap<String, u64>,
}

/// A line counts as executed when it has a recorded hit count above zero.
pub open spec fn line_executed(hits: Map<u32, u64>, line: u32) -> bool {
    hits.contains_key(line) && hits[line] > 0
}

impl CoverageData {
    /// Whether `line` was executed at least once.
    pub fn is_line_executed(&self, line: u32) -> (r: bool)
        ensures
            r == line_executed(self.line_hits@, line),
    {
        match self.line_hits.get(&line) {
            Some(n) => *n > 0,
            None => false,
        }
    }

    /// Whether `line` has a recorded hit count at all (is executable).
    pub fn has_line(&self, line: u32) -> (r: bool)
        ensures
            r == self.line_hits@.contains_key(line),
    {
        self.line_hits.contains_key(&line)
    }
}

} // verus!
