use vstd::prelude::*;
use crate::circuit::{Circuit, count_non_barrier};
use crate::gate::gates_view;

verus! {

/// What one run of one pass did.
#[derive(Debug)]
pub struct PassReport {
    pub pass_name: String,
    pub gates_removed: i64,
    pub reason: String,
}

/// One pass's entry in an optimization report.
#[derive(Debug)]
pub struct PassSummary {
    pub name: String,
    pub gates_removed: i64,
    pub reason: String,
}

/// Gate counts, depths and two-qubit counts before and after optimization, with every
/// pass run in order.
#[derive(Debug)]
pub struct OptimizationReport {
    pub input_gates: usize,
    pub output_gates: usize,
    pub input_depth: usize,
    pub output_depth: usize,
    pub input_2q: usize,
    pub output_2q: usize,
    pub passes: Vec<PassSummary>,
    pub time_ms: u128,
}

/// The number of non-barrier gates of a circuit.
pub open spec fn gate_total(c: Circuit) -> int {
    count_non_barrier(gates_view(c.gates@)) as int
}

/// The number of gates a pass removed: gates before minus gates after, as an `i64`.
pub open spec fn removed_count(before: Circuit, after: Circuit) -> i64 {
    (gate_total(before) - gate_total(after)) as i64
}

/// `after` keeps everything of `before` but its gates.
pub open spec fn same_frame(before: Circuit, after: Circuit) -> bool {
    &&& after.name == before.name
    &&& after.qregs == before.qregs
    &&& after.cregs == before.cregs
    &&& after.metadata == before.metadata
}

} // verus!
