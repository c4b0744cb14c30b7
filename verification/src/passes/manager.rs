use vstd::prelude::*;
use crate::angle::{FloatOp, arith_ok};
use crate::circuit::{Circuit, count_non_barrier, count_two_qubit};
use crate::dag::spec_depth;
use crate::gate::{Angle, Gate, gates_view};
use crate::passes::cancellation::{GateCancellation, cancel_all, half_toward_zero};
use crate::passes::commutation::{CommutationAnalysis, commute_all};
use crate::passes::decompose::{NativeGateDecomposition, decompose_all};
use crate::passes::fusion::{GateFusion, fuse_all, fuse_ok};
use crate::passes::identity::{IdentityElimination, without_identities};
use crate::passes::report::{OptimizationReport, PassReport, PassSummary, same_frame};
use crate::passes::rotation::{RotationMerging, merge_rotations};
use crate::text::spec_decimal;

verus! {

/// The passes a pass manager can run.
#[derive(Clone, Copy, Debug, PartialEq, Eq, Structural)]
pub enum PassKind {
    IdentityElimination,
    GateCancellation,
    RotationMerging,
    CommutationAnalysis,
    NativeGateDecomposition,
    GateFusion,
}

/// A pass's name.
pub open spec fn pass_name(p: PassKind) -> Seq<char> {
    match p {
        PassKind::IdentityElimination => "identity_elimination"@,
        PassKind::GateCancellation => "gate_cancellation"@,
        PassKind::RotationMerging => "rotation_merging"@,
        PassKind::CommutationAnalysis => "commutation_analysis"@,
        PassKind::NativeGateDecomposition => "native_gate_decomposition"@,
        PassKind::GateFusion => "gate_fusion"@,
    }
}

/// The reason a pass gives in its report, after removing `removed` gates.
pub open spec fn pass_reason(p: PassKind, removed: int) -> Seq<char> {
    match p {
        PassKind::IdentityElimination => "removed "@ + spec_decimal(removed) + " identity gate(s)"@,
        PassKind::GateCancellation => "cancelled "@ + spec_decimal(half_toward_zero(removed)) + " inverse gate pair(s)"@,
        PassKind::RotationMerging => "merged "@ + spec_decimal(removed) + " rotation(s)"@,
        PassKind::CommutationAnalysis => "commuted and cancelled "@ + spec_decimal(removed) + " gate(s)"@,
        PassKind::NativeGateDecomposition => "decomposed to IBM native gates (CX, RZ, SX, X)"@,
        PassKind::GateFusion => "fused "@ + spec_decimal(removed) + " single-qubit gate(s)"@,
    }
}

/// The gates a pass leaves of `gs`.
pub open spec fn pass_result<A: Fn(FloatOp, Angle, Angle) -> Angle, U: Fn(&Vec<Gate>) -> Option<Gate>>(
    p: PassKind,
    arith: A,
    fuse: U,
    gs: Seq<Gate>,
) -> Seq<Gate> {
    match p {
        PassKind::IdentityElimination => without_identities(gs),
        PassKind::GateCancellation => cancel_all(arith, gs),
        PassKind::RotationMerging => merge_rotations(arith, gs),
        PassKind::CommutationAnalysis => commute_all(arith, gs),
        PassKind::NativeGateDecomposition => decompose_all(arith, gs),
        PassKind::GateFusion => fuse_all(fuse, gs),
    }
}

/// The number of non-barrier gates of a gate list.
pub open spec fn count(gs: Seq<Gate>) -> int {
    count_non_barrier(gates_view(gs)) as int
}

/// The passes `ps` run in order on `gs`.
pub open spec fn apply_passes<A: Fn(FloatOp, Angle, Angle) -> Angle, U: Fn(&Vec<Gate>) -> Option<Gate>>(
    ps: Seq<PassKind>,
    arith: A,
    fuse: U,
    gs: Seq<Gate>,
) -> Seq<Gate>
    decreases ps.len(),
{
    if ps.len() == 0 {
        gs
    } else {
        pass_result(ps.last(), arith, fuse, apply_passes(ps.drop_last(), arith, fuse, gs))
    }
}

/// One entry of the log for each pass of `ps` run in order on `gs`: its name, the gates it
/// removed, and its reason.
pub open spec fn pass_log<A: Fn(FloatOp, Angle, Angle) -> Angle, U: Fn(&Vec<Gate>) -> Option<Gate>>(
    ps: Seq<PassKind>,
    arith: A,
    fuse: U,
    gs: Seq<Gate>,
) -> Seq<(Seq<char>, i64, Seq<char>)>
    decreases ps.len(),
{
    if ps.len() == 0 {
        Seq::empty()
    } else {
        let before = apply_passes(ps.drop_last(), arith, fuse, gs);
        let after = apply_passes(ps, arith, fuse, gs);
        let removed = (count(before) - count(after)) as i64;
        pass_log(ps.drop_last(), arith, fuse, gs).push((pass_name(ps.last()), removed, pass_reason(ps.last(), removed as int)))
    }
}

/// Runs all passes over and over, at most `rounds` times, stopping after the first round
/// that leaves its gate count unchanged.
pub open spec fn optimize<A: Fn(FloatOp, Angle, Angle) -> Angle, U: Fn(&Vec<Gate>) -> Option<Gate>>(
    ps: Seq<PassKind>,
    arith: A,
    fuse: U,
    rounds: nat,
    gs: Seq<Gate>,
) -> Seq<Gate>
    decreases rounds,
{
    if rounds == 0 {
        gs
    } else {
        let next = apply_passes(ps, arith, fuse, gs);
        if count(next) == count(gs) { next } else { optimize(ps, arith, fuse, (rounds - 1) as nat, next) }
    }
}

/// The log of every pass run by `optimize`, in order.
pub open spec fn optimize_log<A: Fn(FloatOp, Angle, Angle) -> Angle, U: Fn(&Vec<Gate>) -> Option<Gate>>(
    ps: Seq<PassKind>,
    arith: A,
    fuse: U,
    rounds: nat,
    gs: Seq<Gate>,
) -> Seq<(Seq<char>, i64, Seq<char>)>
    decreases rounds,
{
    if rounds == 0 {
        Seq::empty()
    } else {
        let next = apply_passes(ps, arith, fuse, gs);
        let log = pass_log(ps, arith, fuse, gs);
        if count(next) == count(gs) { log } else { log + optimize_log(ps, arith, fuse, (rounds - 1) as nat, next) }
    }
}

/// The gates removed, added up over the entries of a pass log.
pub open spec fn log_total(log: Seq<(Seq<char>, i64, Seq<char>)>) -> int
    decreases log.len(),
{
    if log.len() == 0 {
        0
    } else {
        log_total(log.drop_last()) + log.last().1
    }
}

/// Every gate count met while running `ps` in order on `gs` fits in an `i64`.
pub open spec fn counts_fit<A: Fn(FloatOp, Angle, Angle) -> Angle, U: Fn(&Vec<Gate>) -> Option<Gate>>(
    ps: Seq<PassKind>,
    arith: A,
    fuse: U,
    gs: Seq<Gate>,
) -> bool {
    forall|k: int| 0 <= k <= ps.len() ==> count(#[trigger] apply_passes(ps.subrange(0, k), arith, fuse, gs)) <= i64::MAX
}

/// Every gate count met in the rounds of `optimize` fits in an `i64`.
pub open spec fn rounds_fit<A: Fn(FloatOp, Angle, Angle) -> Angle, U: Fn(&Vec<Gate>) -> Option<Gate>>(
    ps: Seq<PassKind>,
    arith: A,
    fuse: U,
    rounds: nat,
    gs: Seq<Gate>,
) -> bool
    decreases rounds,
{
    if rounds == 0 {
        true
    } else {
        let next = apply_passes(ps, arith, fuse, gs);
        counts_fit(ps, arith, fuse, gs) && (count(next) == count(gs) || rounds_fit(ps, arith, fuse, (rounds - 1) as nat, next))
    }
}

proof fn lemma_log_total_append(a: Seq<(Seq<char>, i64, Seq<char>)>, b: Seq<(Seq<char>, i64, Seq<char>)>)
    ensures
        log_total(a + b) == log_total(a) + log_total(b),
    decreases b.len(),
{
    if b.len() > 0 {
        lemma_log_total_append(a, b.drop_last());
        assert((a + b).drop_last() =~= a + b.drop_last());
    } else {
        assert(a + b =~= a);
    }
}

/// The gates that the passes of one round report removed add up to the gates the round
/// removed.
pub proof fn lemma_pass_log_total<A: Fn(FloatOp, Angle, Angle) -> Angle, U: Fn(&Vec<Gate>) -> Option<Gate>>(
    ps: Seq<PassKind>,
    arith: A,
    fuse: U,
    gs: Seq<Gate>,
)
    requires
        counts_fit(ps, arith, fuse, gs),
    ensures
        log_total(pass_log(ps, arith, fuse, gs)) == count(gs) - count(apply_passes(ps, arith, fuse, gs)),
    decreases ps.len(),
{
    if ps.len() > 0 {
        let q = ps.drop_last();
        assert forall|k: int| 0 <= k <= q.len() implies count(#[trigger] apply_passes(q.subrange(0, k), arith, fuse, gs)) <= i64::MAX by {
            assert(q.subrange(0, k) =~= ps.subrange(0, k));
        }
        lemma_pass_log_total(q, arith, fuse, gs);
        assert(ps.subrange(0, q.len() as int) =~= q);
        assert(ps.subrange(0, ps.len() as int) =~= ps);
        assert(count(apply_passes(ps.subrange(0, q.len() as int), arith, fuse, gs)) <= i64::MAX);
        assert(count(apply_passes(ps.subrange(0, ps.len() as int), arith, fuse, gs)) <= i64::MAX);
        assert(pass_log(ps, arith, fuse, gs).drop_last() =~= pass_log(q, arith, fuse, gs));
    } else {
        assert(ps.subrange(0, 0) =~= ps);
    }
}

/// The gates that every pass run by the optimizer reports removed add up to the input's
/// gate count minus the output's.
pub proof fn lemma_optimize_log_total<A: Fn(FloatOp, Angle, Angle) -> Angle, U: Fn(&Vec<Gate>) -> Option<Gate>>(
    ps: Seq<PassKind>,
    arith: A,
    fuse: U,
    rounds: nat,
    gs: Seq<Gate>,
)
    requires
        rounds_fit(ps, arith, fuse, rounds, gs),
    ensures
        log_total(optimize_log(ps, arith, fuse, rounds, gs)) == count(gs) - count(optimize(ps, arith, fuse, rounds, gs)),
    decreases rounds,
{
    if rounds > 0 {
        let next = apply_passes(ps, arith, fuse, gs);
        lemma_pass_log_total(ps, arith, fuse, gs);
        if count(next) != count(gs) {
            lemma_optimize_log_total(ps, arith, fuse, (rounds - 1) as nat, next);
            lemma_log_total_append(pass_log(ps, arith, fuse, gs), optimize_log(ps, arith, fuse, (rounds - 1) as nat, next));
        }
    }
}

/// Runs pass `p` on `circuit`.
pub fn run_pass<A: Fn(FloatOp, Angle, Angle) -> Angle, U: Fn(&Vec<Gate>) -> Option<Gate>>(
    p: PassKind,
    circuit: Circuit,
    arith: &A,
    fuse: &U,
) -> (r: (Circuit, PassReport))
    requires
        arith_ok(*arith),
        fuse_ok(*fuse),
    ensures
        r.0.gates@ == pass_result(p, *arith, *fuse, circuit.gates@),
        same_frame(circuit, r.0),
        r.1.pass_name@ == pass_name(p),
        r.1.gates_removed == (count(circuit.gates@) - count(r.0.gates@)) as i64,
        r.1.reason@ == pass_reason(p, r.1.gates_removed as int),
{
    match p {
        PassKind::IdentityElimination => IdentityElimination.run(circuit),
        PassKind::GateCancellation => GateCancellation.run(circuit, arith),
        PassKind::RotationMerging => RotationMerging.run(circuit, arith),
        PassKind::CommutationAnalysis => CommutationAnalysis.run(circuit, arith),
        PassKind::NativeGateDecomposition => NativeGateDecomposition.run(circuit, arith),
        PassKind::GateFusion => GateFusion.run(circuit, fuse),
    }
}

/// Runs a list of passes to a fixed point, at most `max_iterations` rounds.
#[derive(Debug)]
pub struct PassManager {
    pub passes: Vec<PassKind>,
    pub max_iterations: usize,
}

impl PassManager {
    pub fn new() -> (pm: Self)
        ensures
            pm.passes@.len() == 0,
            pm.max_iterations == 10,
    {
        PassManager { passes: Vec::new(), max_iterations: 10 }
    }

    /// Appends a pass to the pipeline.
    pub fn add_pass(&mut self, pass: PassKind) -> (r: &mut Self)
        ensures
            r.passes@ == old(self).passes@.push(pass),
            r.max_iterations == old(self).max_iterations,
            *final(self) == *final(r),
    {
        self.passes.push(pass);
        self
    }

    /// Runs the passes in order, round after round, until a round leaves its gate count
    /// unchanged or `max_iterations` rounds have run.
    pub fn run<A: Fn(FloatOp, Angle, Angle) -> Angle, U: Fn(&Vec<Gate>) -> Option<Gate>>(
        &self,
        circuit: Circuit,
        arith: &A,
        fuse: &U,
    ) -> (r: (Circuit, OptimizationReport))
        requires
            arith_ok(*arith),
            fuse_ok(*fuse),
        ensures
            r.0.gates@ == optimize(self.passes@, *arith, *fuse, self.max_iterations as nat, circuit.gates@),
            same_frame(circuit, r.0),
            r.1.input_gates == count_non_barrier(gates_view(circuit.gates@)),
            r.1.input_depth == spec_depth(gates_view(circuit.gates@)),
            r.1.input_2q == count_two_qubit(gates_view(circuit.gates@)),
            r.1.output_gates == count_non_barrier(gates_view(r.0.gates@)),
            r.1.output_depth == spec_depth(gates_view(r.0.gates@)),
            r.1.output_2q == count_two_qubit(gates_view(r.0.gates@)),
            r.1.passes@.map_values(|s: PassSummary| (s.name@, s.gates_removed, s.reason@))
                == optimize_log(self.passes@, *arith, *fuse, self.max_iterations as nat, circuit.gates@),
            r.1.time_ms == 0,
    {
        let input_gates = circuit.gate_count();
        let input_depth = circuit.depth();
        let input_2q = circuit.two_qubit_gate_count();
        let ghost orig = circuit.gates@;
        let ghost ps = self.passes@;
        let ghost max = self.max_iterations as nat;
        let mut current = circuit;
        let mut summaries: Vec<PassSummary> = Vec::new();
        let mut it: usize = 0;
        let mut done = false;
        while it < self.max_iterations && !done
            invariant
                it <= self.max_iterations,
                ps == self.passes@,
                max == self.max_iterations as nat,
                arith_ok(*arith),
                fuse_ok(*fuse),
                same_frame(circuit, current),
                !done ==> optimize(ps, *arith, *fuse, (max - it) as nat, current.gates@) == optimize(ps, *arith, *fuse, max, orig),
                !done ==> summaries@.map_values(|s: PassSummary| (s.name@, s.gates_removed, s.reason@))
                    + optimize_log(ps, *arith, *fuse, (max - it) as nat, current.gates@)
                    == optimize_log(ps, *arith, *fuse, max, orig),
                done ==> current.gates@ == optimize(ps, *arith, *fuse, max, orig),
                done ==> summaries@.map_values(|s: PassSummary| (s.name@, s.gates_removed, s.reason@))
                    == optimize_log(ps, *arith, *fuse, max, orig),
            decreases self.max_iterations - it,
        {
            let ghost start = current.gates@;
            let ghost start_summaries = summaries@.map_values(|s: PassSummary| (s.name@, s.gates_removed, s.reason@));
            let before = current.gate_count();
            let mut k: usize = 0;
            while k < self.passes.len()
                invariant
                    k <= self.passes@.len(),
                    ps == self.passes@,
                    arith_ok(*arith),
                    fuse_ok(*fuse),
                    same_frame(circuit, current),
                    current.gates@ == apply_passes(ps.subrange(0, k as int), *arith, *fuse, start),
                    summaries@.map_values(|s: PassSummary| (s.name@, s.gates_removed, s.reason@))
                        == start_summaries + pass_log(ps.subrange(0, k as int), *arith, *fuse, start),
                decreases self.passes@.len() - k,
            {
                let p = self.passes[k];
                let ghost mid = current.gates@;
                let (next, report) = run_pass(p, current, arith, fuse);
                proof {
                    assert(ps.subrange(0, k + 1).drop_last() =~= ps.subrange(0, k as int));
                    assert(ps.subrange(0, k + 1).last() == p);
                    assert(apply_passes(ps.subrange(0, k + 1), *arith, *fuse, start) == next.gates@);
                    assert(pass_log(ps.subrange(0, k + 1), *arith, *fuse, start)
                        == pass_log(ps.subrange(0, k as int), *arith, *fuse, start).push(
                            (pass_name(p), report.gates_removed, pass_reason(p, report.gates_removed as int))));
                }
                current = next;
                let PassReport { pass_name, gates_removed, reason } = report;
                let sm = PassSummary { name: pass_name, gates_removed, reason };
                let ghost prev = summaries@;
                summaries.push(sm);
                proof {
                    assert(summaries@.map_values(|s: PassSummary| (s.name@, s.gates_removed, s.reason@))
                        =~= prev.map_values(|s: PassSummary| (s.name@, s.gates_removed, s.reason@)).push((sm.name@, sm.gates_removed, sm.reason@)));
                    assert(summaries@.map_values(|s: PassSummary| (s.name@, s.gates_removed, s.reason@))
                        =~= start_summaries + pass_log(ps.subrange(0, k + 1), *arith, *fuse, start));
                }
                k += 1;
            }
            proof {
                assert(ps.subrange(0, k as int) =~= ps);
            }
            let after = current.gate_count();
            if after == before {
                done = true;
                proof {
                    assert(summaries@.map_values(|s: PassSummary| (s.name@, s.gates_removed, s.reason@))
                        =~= start_summaries + optimize_log(ps, *arith, *fuse, (max - it) as nat, start));
                }
            } else {
                proof {
                    assert(optimize_log(ps, *arith, *fuse, (max - it) as nat, start)
                        == pass_log(ps, *arith, *fuse, start) + optimize_log(ps, *arith, *fuse, (max - it - 1) as nat, current.gates@));
                    assert(start_summaries + optimize_log(ps, *arith, *fuse, (max - it) as nat, start)
                        =~= summaries@.map_values(|s: PassSummary| (s.name@, s.gates_removed, s.reason@))
                        + optimize_log(ps, *arith, *fuse, (max - it - 1) as nat, current.gates@));
                }
            }
            it += 1;
        }
        proof {
            if !done {
                assert(summaries@.map_values(|s: PassSummary| (s.name@, s.gates_removed, s.reason@))
                    =~= summaries@.map_values(|s: PassSummary| (s.name@, s.gates_removed, s.reason@))
                    + optimize_log(ps, *arith, *fuse, 0, current.gates@));
            }
        }
        let output_gates = current.gate_count();
        let output_depth = current.depth();
        let output_2q = current.two_qubit_gate_count();
        let report = OptimizationReport {
            input_gates,
            output_gates,
            input_depth,
            output_depth,
            input_2q,
            output_2q,
            passes: summaries,
            time_ms: 0,
        };
        (current, report)
    }
}

impl Default for PassManager {
    fn default() -> (pm: Self)
        ensures
            pm.passes@.len() == 0,
            pm.max_iterations == 10,
    {
        PassManager::new()
    }
}

} // verus!
