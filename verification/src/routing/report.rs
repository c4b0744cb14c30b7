use vstd::prelude::*;

verus! {

/// What routing did to a circuit.
#[derive(Debug)]
pub struct RoutingReport {
    /// SWAP gates inserted.
    pub swaps_inserted: usize,
    /// Their cost in CX gates, three per SWAP.
    pub swap_cost_in_cx: usize,
    /// Where each logical qubit started.
    pub initial_mapping: Vec<usize>,
    /// Gates in the routed circuit, barriers not counted.
    pub final_gate_count: usize,
}

} // verus!
