use vstd::prelude::*;
use crate::circuit::Circuit;
use crate::gate::{Gate, SpecGate, take_gate};
use crate::passes::report::{PassReport, removed_count, same_frame};
use crate::qubit::{BitKey, QubitRef};
use crate::text::{count_message, spec_decimal};

verus! {

/// Collapses each run of two or more consecutive single-qubit gates on one qubit into the
/// single gate that the 2x2 unitary of the run reduces to, or into nothing when that
/// unitary is the identity.
pub struct GateFusion;

/// The qubit of a gate that has a 2x2 unitary: H, X, Y, Z, S, Sdg, T, Tdg, SX, SXdg, Rx, Ry,
/// Rz, U1 and U3.
pub open spec fn spec_single_target(g: SpecGate) -> Option<BitKey> {
    match g {
        SpecGate::H(q) | SpecGate::X(q) | SpecGate::Y(q) | SpecGate::Z(q) | SpecGate::S(q)
        | SpecGate::Sdg(q) | SpecGate::T(q) | SpecGate::Tdg(q) | SpecGate::Sx(q)
        | SpecGate::Sxdg(q) | SpecGate::Rx(_, q) | SpecGate::Ry(_, q) | SpecGate::Rz(_, q)
        | SpecGate::U1(_, q) | SpecGate::U3(_, _, _, q) => Some(q),
        _ => None,
    }
}

/// A fusion implementation can be called on any run, and gives one result for runs that
/// hold the same gates.
pub open spec fn fuse_ok<U: Fn(&Vec<Gate>) -> Option<Gate>>(fuse: U) -> bool {
    &&& forall|v: Vec<Gate>| #[trigger] fuse.requires((&v,))
    &&& forall|v1: Vec<Gate>, v2: Vec<Gate>, r1: Option<Gate>, r2: Option<Gate>|
        v1@ == v2@ && #[trigger] fuse.ensures((&v1,), r1) && #[trigger] fuse.ensures((&v2,), r2) ==> r1 == r2
}

/// `fuse` collapses some list holding the gates `run` into `r`.
pub open spec fn fuses_to<U: Fn(&Vec<Gate>) -> Option<Gate>>(fuse: U, run: Seq<Gate>, r: Option<Gate>) -> bool {
    exists|v: Vec<Gate>| v@ == run && #[trigger] fuse.ensures((&v,), r)
}

/// What `fuse` collapses the run `run` into.
pub open spec fn fused<U: Fn(&Vec<Gate>) -> Option<Gate>>(fuse: U, run: Seq<Gate>) -> Option<Gate> {
    choose|r: Option<Gate>| fuses_to(fuse, run, r)
}

/// The end of the run that continues at position `j` with gates on qubit `q`.
pub open spec fn run_end(gs: Seq<Gate>, q: BitKey, j: int) -> int
    decreases gs.len() - j,
{
    if j < 0 || j >= gs.len() || spec_single_target(gs[j]@) != Some(q) {
        j
    } else {
        run_end(gs, q, j + 1)
    }
}

/// The pass's result on the gates of `gs` from position `i` on.
pub open spec fn fuse_from<U: Fn(&Vec<Gate>) -> Option<Gate>>(fuse: U, gs: Seq<Gate>, i: int) -> Seq<Gate>
    decreases gs.len() - i,
{
    if i < 0 || i >= gs.len() {
        Seq::empty()
    } else {
        match spec_single_target(gs[i]@) {
            None => seq![gs[i]] + fuse_from(fuse, gs, i + 1),
            Some(q) => {
                let j = run_end(gs, q, i + 1);
                proof {
                    lemma_run_end(gs, q, i + 1);
                }
                if j <= i + 1 {
                    seq![gs[i]] + fuse_from(fuse, gs, i + 1)
                } else {
                    match fused(fuse, gs.subrange(i, j)) {
                        Some(g) => seq![g] + fuse_from(fuse, gs, j),
                        None => fuse_from(fuse, gs, j),
                    }
                }
            },
        }
    }
}

/// The pass's result on `gs`.
pub open spec fn fuse_all<U: Fn(&Vec<Gate>) -> Option<Gate>>(fuse: U, gs: Seq<Gate>) -> Seq<Gate> {
    fuse_from(fuse, gs, 0)
}

pub proof fn lemma_run_end(gs: Seq<Gate>, q: BitKey, j: int)
    requires
        0 <= j <= gs.len(),
    ensures
        j <= run_end(gs, q, j) <= gs.len(),
        forall|k: int| j <= k < run_end(gs, q, j) ==> spec_single_target(#[trigger] gs[k]@) == Some(q),
    decreases gs.len() - j,
{
    if j < gs.len() && spec_single_target(gs[j]@) == Some(q) {
        lemma_run_end(gs, q, j + 1);
    }
}

/// A gate that is not a single-qubit unitary: a measurement, a reset, a barrier, a custom
/// gate, or a gate on more than one qubit.
pub open spec fn non_unitary(g: Gate) -> bool {
    g is Measure || g is Reset || g is Barrier || g is Custom || g@.qubits().len() != 1
}

/// The gates of `gs` that are not single-qubit unitaries, in order.
pub open spec fn non_unitary_ops(gs: Seq<Gate>) -> Seq<Gate>
    decreases gs.len(),
{
    if gs.len() == 0 {
        Seq::empty()
    } else {
        (if non_unitary(gs[0]) { seq![gs[0]] } else { Seq::empty() }) + non_unitary_ops(gs.skip(1))
    }
}

proof fn lemma_non_unitary_concat(a: Seq<Gate>, b: Seq<Gate>)
    ensures
        non_unitary_ops(a + b) == non_unitary_ops(a) + non_unitary_ops(b),
    decreases a.len(),
{
    if a.len() == 0 {
        assert(a + b =~= b);
    } else {
        lemma_non_unitary_concat(a.skip(1), b);
        assert((a + b).skip(1) =~= a.skip(1) + b);
        assert((a + b)[0] == a[0]);
    }
}

proof fn lemma_non_unitary_none(s: Seq<Gate>)
    requires
        forall|k: int| 0 <= k < s.len() ==> !non_unitary(#[trigger] s[k]),
    ensures
        non_unitary_ops(s) == Seq::<Gate>::empty(),
    decreases s.len(),
{
    if s.len() > 0 {
        assert forall|k: int| 0 <= k < s.skip(1).len() implies !non_unitary(#[trigger] s.skip(1)[k]) by {
            assert(s.skip(1)[k] == s[k + 1]);
        }
        lemma_non_unitary_none(s.skip(1));
        assert(!non_unitary(s[0]));
    }
}

proof fn lemma_fuse_from_keeps<U: Fn(&Vec<Gate>) -> Option<Gate>>(fuse: U, gs: Seq<Gate>, i: int)
    requires
        0 <= i <= gs.len(),
        forall|run: Seq<Gate>| #[trigger] fused(fuse, run) matches Some(g) ==> !non_unitary(g),
    ensures
        non_unitary_ops(fuse_from(fuse, gs, i)) == non_unitary_ops(gs.skip(i)),
    decreases gs.len() - i,
{
    if i == gs.len() {
        assert(gs.skip(i) =~= Seq::<Gate>::empty());
    } else {
        let head = seq![gs[i]];
        assert(gs.skip(i) =~= head + gs.skip(i + 1));
        lemma_non_unitary_concat(head, gs.skip(i + 1));
        match spec_single_target(gs[i]@) {
            None => {
                assert(fuse_from(fuse, gs, i) == head + fuse_from(fuse, gs, i + 1));
                lemma_fuse_from_keeps(fuse, gs, i + 1);
                lemma_non_unitary_concat(head, fuse_from(fuse, gs, i + 1));
            },
            Some(q) => {
                lemma_run_end(gs, q, i + 1);
                let j = run_end(gs, q, i + 1);
                if j <= i + 1 {
                    assert(fuse_from(fuse, gs, i) == head + fuse_from(fuse, gs, i + 1));
                    lemma_fuse_from_keeps(fuse, gs, i + 1);
                    lemma_non_unitary_concat(head, fuse_from(fuse, gs, i + 1));
                } else {
                    lemma_fuse_from_keeps(fuse, gs, j);
                    let run = gs.subrange(i, j);
                    assert(gs.skip(i) =~= run + gs.skip(j));
                    lemma_non_unitary_concat(run, gs.skip(j));
                    assert forall|k: int| 0 <= k < run.len() implies !non_unitary(#[trigger] run[k]) by {
                        assert(run[k] == gs[i + k]);
                        if k > 0 {
                            assert(spec_single_target(gs[i + k]@) == Some(q));
                        }
                    }
                    lemma_non_unitary_none(run);
                    match fused(fuse, run) {
                        Some(g) => {
                            assert(fuse_from(fuse, gs, i) == seq![g] + fuse_from(fuse, gs, j));
                            lemma_non_unitary_concat(seq![g], fuse_from(fuse, gs, j));
                            assert(!non_unitary(g));
                            lemma_non_unitary_none(seq![g]);
                        },
                        None => {
                            assert(fuse_from(fuse, gs, i) == fuse_from(fuse, gs, j));
                        },
                    }
                    assert(non_unitary_ops(gs.skip(i)) == non_unitary_ops(gs.skip(j)));
                }
            },
        }
    }
}

/// Fusion only ever collapses single-qubit unitary gates: measurements, resets, barriers,
/// custom gates and gates on several qubits come out unchanged and in order, as long as
/// the fusion implementation never turns a run into one of those.
pub proof fn lemma_fusion_keeps_non_unitary<U: Fn(&Vec<Gate>) -> Option<Gate>>(fuse: U, gs: Seq<Gate>)
    requires
        forall|run: Seq<Gate>| #[trigger] fused(fuse, run) matches Some(g) ==> !non_unitary(g),
    ensures
        non_unitary_ops(fuse_all(fuse, gs)) == non_unitary_ops(gs),
{
    lemma_fuse_from_keeps(fuse, gs, 0);
    assert(gs.skip(0) =~= gs);
}

/// The qubit of a gate that has a 2x2 unitary.
pub fn single_target(g: &Gate) -> (r: Option<&QubitRef>)
    ensures
        r matches Some(q) ==> spec_single_target(g@) == Some(q@),
        r is None ==> spec_single_target(g@) is None,
{
    match g {
        Gate::H(q) | Gate::X(q) | Gate::Y(q) | Gate::Z(q) | Gate::S(q) | Gate::Sdg(q)
        | Gate::T(q) | Gate::Tdg(q) | Gate::Sx(q) | Gate::Sxdg(q) | Gate::Rx(_, q)
        | Gate::Ry(_, q) | Gate::Rz(_, q) | Gate::U1(_, q) | Gate::U3(_, _, _, q) => Some(q),
        _ => None,
    }
}

/// Whether `g` is a gate with a 2x2 unitary on qubit `q`.
fn on_qubit(g: &Gate, q: &QubitRef) -> (b: bool)
    ensures
        b == (spec_single_target(g@) == Some(q@)),
{
    match single_target(g) {
        Some(p) => p.same_as(q),
        None => false,
    }
}

/// Collapses the runs of `gates`.
pub fn fuse_gates<U: Fn(&Vec<Gate>) -> Option<Gate>>(fuse: &U, gates: Vec<Gate>) -> (out: Vec<Gate>)
    requires
        fuse_ok(*fuse),
    ensures
        out@ == fuse_all(*fuse, gates@),
{
    let ghost orig = gates@;
    let mut gates = gates;
    let n = gates.len();
    let mut out: Vec<Gate> = Vec::new();
    let mut i: usize = 0;
    while i < n
        invariant
            n == orig.len(),
            i <= n,
            gates@.len() == n,
            forall|j: int| i <= j < n ==> gates@[j] == orig[j],
            out@ + fuse_from(*fuse, orig, i as int) == fuse_all(*fuse, orig),
            fuse_ok(*fuse),
        decreases n - i,
    {
        let ghost rest = fuse_from(*fuse, orig, i as int);
        let target = match single_target(&gates[i]) {
            Some(q) => Some(q.clone()),
            None => None,
        };
        match target {
            None => {
                let g = take_gate(&mut gates, i);
                proof {
                    assert(out@.push(g) + fuse_from(*fuse, orig, i + 1) =~= out@ + rest);
                }
                out.push(g);
                i += 1;
            },
            Some(q) => {
                let mut j = i + 1;
                while j < n && on_qubit(&gates[j], &q)
                    invariant
                        i + 1 <= j <= n,
                        n == orig.len(),
                        gates@.len() == n,
                        forall|k: int| i <= k < n ==> gates@[k] == orig[k],
                        run_end(orig, q@, i + 1) == run_end(orig, q@, j as int),
                    decreases n - j,
                {
                    j += 1;
                }
                proof {
                    lemma_run_end(orig, q@, i + 1);
                    if j < n {
                        assert(gates@[j as int] == orig[j as int]);
                    }
                    assert(run_end(orig, q@, j as int) == j);
                }
                if j - i <= 1 {
                    let g = take_gate(&mut gates, i);
                    proof {
                        assert(out@.push(g) + fuse_from(*fuse, orig, i + 1) =~= out@ + rest);
                    }
                    out.push(g);
                    i += 1;
                } else {
                    let mut run: Vec<Gate> = Vec::new();
                    let mut k = i;
                    while k < j
                        invariant
                            i <= k <= j <= n,
                            n == orig.len(),
                            gates@.len() == n,
                            forall|m: int| k <= m < n ==> gates@[m] == orig[m],
                            run@ == orig.subrange(i as int, k as int),
                        decreases j - k,
                    {
                        let g = take_gate(&mut gates, k);
                        run.push(g);
                        proof {
                            assert(run@ =~= orig.subrange(i as int, k + 1));
                        }
                        k += 1;
                    }
                    let r = fuse(&run);
                    proof {
                        assert(fuse.ensures((&run,), r));
                        let c = fused(*fuse, orig.subrange(i as int, j as int));
                        assert(fuses_to(*fuse, orig.subrange(i as int, j as int), r));
                        let v = choose|v: Vec<Gate>| v@ == orig.subrange(i as int, j as int) && #[trigger] fuse.ensures((&v,), c);
                        assert(fuse.ensures((&v,), c));
                        assert(r == c);
                    }
                    match r {
                        Some(g) => {
                            proof {
                                assert(out@.push(g) + fuse_from(*fuse, orig, j as int) =~= out@ + rest);
                            }
                            out.push(g);
                        },
                        None => {},
                    }
                    i = j;
                }
            },
        }
    }
    proof {
        assert(out@ + Seq::<Gate>::empty() =~= out@);
    }
    out
}

impl GateFusion {
    pub fn name(&self) -> (s: &str)
        ensures
            s@ == "gate_fusion"@,
    {
        "gate_fusion"
    }

    pub fn run<U: Fn(&Vec<Gate>) -> Option<Gate>>(&self, circuit: Circuit, fuse: &U) -> (r: (Circuit, PassReport))
        requires
            fuse_ok(*fuse),
        ensures
            r.0.gates@ == fuse_all(*fuse, circuit.gates@),
            same_frame(circuit, r.0),
            r.1.pass_name@ == "gate_fusion"@,
            r.1.gates_removed == removed_count(circuit, r.0),
            r.1.reason@ == "fused "@ + spec_decimal(r.1.gates_removed as int) + " single-qubit gate(s)"@,
    {
        let before = circuit.gate_count();
        let Circuit { name, qregs, cregs, gates, metadata } = circuit;
        let out = fuse_gates(fuse, gates);
        let c = Circuit { name, qregs, cregs, gates: out, metadata };
        let after = c.gate_count();
        let removed = (before as i128 - after as i128) as i64;
        let reason = count_message("fused ", removed, " single-qubit gate(s)");
        let report = PassReport { pass_name: String::from_str("gate_fusion"), gates_removed: removed, reason };
        (c, report)
    }
}

} // verus!
