//! The branch-and-bound vocabulary: what evaluating a search node can yield.

use vstd::prelude::*;
use crate::Assignment;
use crate::hungarian::Score;

verus! {

/// The outcome of evaluating one search node: a valid assignment with its
/// score, a branching instruction (the course to decide on, whether somebody
/// was placed where they do not belong, and the relaxation's score as an
/// upper bound for pruning), or nothing when the node's relaxation has no
/// acceptable matching at all.
#[derive(Debug)]
pub enum NodeResult {
    Feasible(Assignment, Score),
    Infeasible(usize, bool, Score),
    NoSolution,
}

} // verus!
