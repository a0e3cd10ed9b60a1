use vstd::prelude::*;

verus! {

/// The input document: one problem.
pub struct Data {
    pub problem: Problem,
}

/// Nodes with their strategies, edges with their strategy-pair costs, and the resource limit.
pub struct Problem {
    pub name: String,
    pub nodes: ProblemNodes,
    pub edges: ProblemEdges,
    pub usage_limit: u64,
}

/// Per node: the half-open interval `[start, end)` it is active in, and one cost and one usage
/// per strategy.
pub struct ProblemNodes {
    pub intervals: Vec<[u64; 2]>,
    pub costs: Vec<Vec<u64>>,
    pub usages: Vec<Vec<u64>>,
}

/// Per edge: its two nodes `[v, u]`, and one cost per (v-strategy, u-strategy) pair in
/// row-major order.
pub struct ProblemEdges {
    pub nodes: Vec<[usize; 2]>,
    pub costs: Vec<Vec<u64>>,
}

} // verus!
