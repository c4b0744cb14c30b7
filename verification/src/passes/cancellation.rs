use vstd::prelude::*;
use crate::angle::{FloatOp, angles_cancel, arith_ok, spec_cancel};
use crate::circuit::Circuit;
use crate::gate::{Angle, Gate, SpecGate, take_gate};
use crate::passes::commutation::kind;
use crate::passes::removal::{only_removes, lemma_only_removes_prepend, lemma_only_removes_refl, lemma_only_removes_skip, lemma_only_removes_trans};
use crate::passes::report::{PassReport, removed_count, same_frame};
use crate::text::{count_message, spec_decimal};

verus! {

/// Collapses adjacent inverse pairs (H H, X X, S Sdg, CX CX, Rz(a) Rz(-a), ...) to nothing,
/// until no such pair is left.
pub struct GateCancellation;

/// `a` followed by `b` is the identity: two equal self-inverse gates on the same qubits,
/// S/Sdg or T/Tdg on one qubit, or two rotations about one axis on one qubit whose angles
/// sum (under `arith`) to less than 1e-10 in magnitude.
pub open spec fn spec_are_inverse<A: Fn(FloatOp, Angle, Angle) -> Angle>(arith: A, a: SpecGate, b: SpecGate) -> bool {
    match (a, b) {
        (SpecGate::H(q1), SpecGate::H(q2)) => q1 == q2,
        (SpecGate::X(q1), SpecGate::X(q2)) => q1 == q2,
        (SpecGate::Y(q1), SpecGate::Y(q2)) => q1 == q2,
        (SpecGate::Z(q1), SpecGate::Z(q2)) => q1 == q2,
        (SpecGate::S(q1), SpecGate::Sdg(q2)) => q1 == q2,
        (SpecGate::Sdg(q1), SpecGate::S(q2)) => q1 == q2,
        (SpecGate::T(q1), SpecGate::Tdg(q2)) => q1 == q2,
        (SpecGate::Tdg(q1), SpecGate::T(q2)) => q1 == q2,
        (SpecGate::Cx(c1, t1), SpecGate::Cx(c2, t2)) => c1 == c2 && t1 == t2,
        (SpecGate::Cz(a1, b1), SpecGate::Cz(a2, b2)) => a1 == a2 && b1 == b2,
        (SpecGate::Rz(x, q1), SpecGate::Rz(y, q2)) => q1 == q2 && spec_cancel(arith, x, y),
        (SpecGate::Rx(x, q1), SpecGate::Rx(y, q2)) => q1 == q2 && spec_cancel(arith, x, y),
        (SpecGate::Ry(x, q1), SpecGate::Ry(y, q2)) => q1 == q2 && spec_cancel(arith, x, y),
        _ => false,
    }
}

/// The kind of gate that undoes a gate of kind `k`: Sdg for S, Tdg for T and back; every
/// other gate that cancels is undone by one of its own kind.
pub open spec fn undoing_kind(k: nat) -> nat {
    if k == 4 { 5 } else if k == 5 { 4 } else if k == 6 { 7 } else if k == 7 { 6 } else { k }
}

/// The angle of an Rx, Ry or Rz.
pub open spec fn rotation_angle(g: SpecGate) -> Option<Angle> {
    match g {
        SpecGate::Rx(x, _) | SpecGate::Ry(x, _) | SpecGate::Rz(x, _) => Some(x),
        _ => None,
    }
}

/// An inverse pair is two unitary gates on the same qubits, in the same order: two equal
/// self-inverse gates (H, X, Y, Z, CX, CZ), S and Sdg or T and Tdg, or two rotations about
/// one axis (Rx, Ry, Rz) whose angles cancel. Gates on different qubits never cancel, and neither do SX, U1,
/// U2, U3, SWAP, Toffoli, measurements, resets, barriers or custom gates.
pub proof fn lemma_inverse_pair_shape<A: Fn(FloatOp, Angle, Angle) -> Angle>(arith: A, a: SpecGate, b: SpecGate)
    requires
        spec_are_inverse(arith, a, b),
    ensures
        rotation_angle(a) matches Some(x) ==> rotation_angle(b) matches Some(y) && spec_cancel(arith, x, y),
        a.qubits() == b.qubits(),
        kind(b) == undoing_kind(kind(a)),
        kind(a) <= 7 || kind(a) == 10 || kind(a) == 11 || kind(a) == 12 || kind(a) == 16 || kind(a) == 17,
        kind(a) <= 3 || kind(a) == 16 || kind(a) == 17 ==> a == b,
{
}

/// Whether `a` followed by `b` is the identity.
pub fn are_inverse<A: Fn(FloatOp, Angle, Angle) -> Angle>(arith: &A, a: &Gate, b: &Gate) -> (r: bool)
    requires
        arith_ok(*arith),
    ensures
        r == spec_are_inverse(*arith, a@, b@),
{
    match (a, b) {
        (Gate::H(q1), Gate::H(q2)) => q1.same_as(q2),
        (Gate::X(q1), Gate::X(q2)) => q1.same_as(q2),
        (Gate::Y(q1), Gate::Y(q2)) => q1.same_as(q2),
        (Gate::Z(q1), Gate::Z(q2)) => q1.same_as(q2),
        (Gate::S(q1), Gate::Sdg(q2)) => q1.same_as(q2),
        (Gate::Sdg(q1), Gate::S(q2)) => q1.same_as(q2),
        (Gate::T(q1), Gate::Tdg(q2)) => q1.same_as(q2),
        (Gate::Tdg(q1), Gate::T(q2)) => q1.same_as(q2),
        (Gate::Cx(c1, t1), Gate::Cx(c2, t2)) => c1.same_as(c2) && t1.same_as(t2),
        (Gate::Cz(a1, b1), Gate::Cz(a2, b2)) => a1.same_as(a2) && b1.same_as(b2),
        (Gate::Rz(x, q1), Gate::Rz(y, q2)) => q1.same_as(q2) && angles_cancel(arith, *x, *y),
        (Gate::Rx(x, q1), Gate::Rx(y, q2)) => q1.same_as(q2) && angles_cancel(arith, *x, *y),
        (Gate::Ry(x, q1), Gate::Ry(y, q2)) => q1.same_as(q2) && angles_cancel(arith, *x, *y),
        _ => false,
    }
}

/// One left-to-right sweep: an adjacent inverse pair is dropped, and the sweep goes on
/// after it.
pub open spec fn sweep<A: Fn(FloatOp, Angle, Angle) -> Angle>(arith: A, gs: Seq<Gate>) -> Seq<Gate>
    decreases gs.len(),
{
    if gs.len() < 2 {
        gs
    } else if spec_are_inverse(arith, gs[0]@, gs[1]@) {
        sweep(arith, gs.skip(2))
    } else {
        seq![gs[0]] + sweep(arith, gs.skip(1))
    }
}

/// A sweep never lengthens the list.
pub proof fn lemma_sweep_len<A: Fn(FloatOp, Angle, Angle) -> Angle>(arith: A, gs: Seq<Gate>)
    ensures
        sweep(arith, gs).len() <= gs.len(),
    decreases gs.len(),
{
    if gs.len() >= 2 {
        if spec_are_inverse(arith, gs[0]@, gs[1]@) {
            lemma_sweep_len(arith, gs.skip(2));
        } else {
            lemma_sweep_len(arith, gs.skip(1));
        }
    }
}

/// A sweep that removes nothing found no adjacent inverse pair.
pub proof fn lemma_sweep_stable<A: Fn(FloatOp, Angle, Angle) -> Angle>(arith: A, gs: Seq<Gate>)
    requires
        sweep(arith, gs).len() == gs.len(),
    ensures
        sweep(arith, gs) == gs,
        forall|i: int| 0 <= i < gs.len() - 1 ==> !spec_are_inverse(arith, #[trigger] gs[i]@, gs[i + 1]@),
    decreases gs.len(),
{
    if gs.len() >= 2 {
        if spec_are_inverse(arith, gs[0]@, gs[1]@) {
            lemma_sweep_len(arith, gs.skip(2));
        } else {
            let t = gs.skip(1);
            lemma_sweep_stable(arith, t);
            assert(seq![gs[0]] + t =~= gs);
            assert forall|i: int| 0 <= i < gs.len() - 1 implies !spec_are_inverse(arith, #[trigger] gs[i]@, gs[i + 1]@) by {
                if i > 0 {
                    assert(t[i - 1] == gs[i]);
                    assert(t[i] == gs[i + 1]);
                }
            }
        }
    }
}

/// Sweeps until a sweep removes nothing.
pub open spec fn cancel_all<A: Fn(FloatOp, Angle, Angle) -> Angle>(arith: A, gs: Seq<Gate>) -> Seq<Gate>
    decreases gs.len(),
{
    let s = sweep(arith, gs);
    if s.len() < gs.len() { cancel_all(arith, s) } else { gs }
}

/// A sweep only takes gates out.
proof fn lemma_sweep_removes<A: Fn(FloatOp, Angle, Angle) -> Angle>(arith: A, gs: Seq<Gate>)
    ensures
        only_removes(sweep(arith, gs), gs),
    decreases gs.len(),
{
    if gs.len() < 2 {
        lemma_only_removes_refl(gs);
    } else if spec_are_inverse(arith, gs[0]@, gs[1]@) {
        lemma_sweep_removes(arith, gs.skip(2));
        lemma_only_removes_skip(sweep(arith, gs.skip(2)), gs, 2);
    } else {
        lemma_sweep_removes(arith, gs.skip(1));
        lemma_only_removes_prepend(sweep(arith, gs.skip(1)), gs.skip(1), gs[0]);
        assert(seq![gs[0]] + gs.skip(1) =~= gs);
    }
}

/// Cancellation leaves no adjacent inverse pair, only takes gates out (those it keeps stay
/// unchanged and in order), and a second run changes nothing.
pub proof fn lemma_cancel_all_stable<A: Fn(FloatOp, Angle, Angle) -> Angle>(arith: A, gs: Seq<Gate>)
    ensures
        forall|i: int| 0 <= i < cancel_all(arith, gs).len() - 1
            ==> !spec_are_inverse(arith, #[trigger] cancel_all(arith, gs)[i]@, cancel_all(arith, gs)[i + 1]@),
        cancel_all(arith, gs).len() <= gs.len(),
        only_removes(cancel_all(arith, gs), gs),
        cancel_all(arith, cancel_all(arith, gs)) == cancel_all(arith, gs),
    decreases gs.len(),
{
    let s = sweep(arith, gs);
    lemma_sweep_len(arith, gs);
    lemma_sweep_removes(arith, gs);
    if s.len() < gs.len() {
        lemma_cancel_all_stable(arith, s);
        assert(cancel_all(arith, gs) == cancel_all(arith, s));
        lemma_only_removes_trans(cancel_all(arith, s), s, gs);
    } else {
        lemma_sweep_stable(arith, gs);
        assert(cancel_all(arith, gs) == gs);
        lemma_only_removes_refl(gs);
    }
}

/// One sweep over `gates`; also tells whether it removed anything.
pub fn sweep_once<A: Fn(FloatOp, Angle, Angle) -> Angle>(arith: &A, gates: Vec<Gate>) -> (r: (Vec<Gate>, bool))
    requires
        arith_ok(*arith),
    ensures
        r.0@ == sweep(*arith, gates@),
        r.1 == (r.0@.len() < gates@.len()),
{
    let ghost orig = gates@;
    let mut gates = gates;
    let n = gates.len();
    let mut out: Vec<Gate> = Vec::new();
    let mut changed = false;
    let mut i: usize = 0;
    proof {
        assert(orig.skip(0) =~= orig);
    }
    while i < n
        invariant
            n == orig.len(),
            i <= n,
            gates@.len() == n,
            forall|j: int| i <= j < n ==> gates@[j] == orig[j],
            out@ + sweep(*arith, orig.skip(i as int)) == sweep(*arith, orig),
            changed == (out@.len() < i),
            out@.len() <= i,
            arith_ok(*arith),
        decreases n - i,
    {
        let ghost rest = orig.skip(i as int);
        if i + 1 < n && are_inverse(arith, &gates[i], &gates[i + 1]) {
            proof {
                assert(rest[0] == orig[i as int]);
                assert(rest[1] == orig[i + 1]);
                assert(rest.skip(2) =~= orig.skip(i + 2));
            }
            i += 2;
            changed = true;
        } else {
            let g = take_gate(&mut gates, i);
            proof {
                if rest.len() >= 2 {
                    assert(rest[0] == orig[i as int]);
                    assert(rest[1] == orig[i + 1]);
                }
                assert(rest.skip(1) =~= orig.skip(i + 1));
                if rest.len() < 2 {
                    assert(rest =~= seq![g] + orig.skip(i + 1));
                }
                assert(out@.push(g) + sweep(*arith, orig.skip(i + 1)) =~= out@ + (seq![g] + sweep(*arith, orig.skip(i + 1))));
            }
            out.push(g);
            i += 1;
        }
    }
    proof {
        assert(orig.skip(i as int) =~= Seq::<Gate>::empty());
        assert(out@ + Seq::<Gate>::empty() =~= out@);
    }
    (out, changed)
}

/// Sweeps `gates` until nothing more cancels.
pub fn cancel_pairs<A: Fn(FloatOp, Angle, Angle) -> Angle>(arith: &A, gates: Vec<Gate>) -> (out: Vec<Gate>)
    requires
        arith_ok(*arith),
    ensures
        out@ == cancel_all(*arith, gates@),
{
    let ghost orig = gates@;
    let mut gates = gates;
    let mut changed = true;
    while changed
        invariant
            arith_ok(*arith),
            changed ==> cancel_all(*arith, gates@) == cancel_all(*arith, orig),
            !changed ==> gates@ == cancel_all(*arith, orig),
        decreases gates@.len() + if changed { 1int } else { 0int },
    {
        let ghost before = gates@;
        let (next, c) = sweep_once(arith, gates);
        proof {
            lemma_sweep_len(*arith, before);
            if !c {
                lemma_sweep_stable(*arith, before);
                assert(cancel_all(*arith, before) == before);
            } else {
                assert(cancel_all(*arith, before) == cancel_all(*arith, next@));
            }
        }
        gates = next;
        changed = c;
    }
    gates
}

impl GateCancellation {
    pub fn name(&self) -> (s: &str)
        ensures
            s@ == "gate_cancellation"@,
    {
        "gate_cancellation"
    }

    pub fn run<A: Fn(FloatOp, Angle, Angle) -> Angle>(&self, circuit: Circuit, arith: &A) -> (r: (Circuit, PassReport))
        requires
            arith_ok(*arith),
        ensures
            r.0.gates@ == cancel_all(*arith, circuit.gates@),
            same_frame(circuit, r.0),
            r.1.pass_name@ == "gate_cancellation"@,
            r.1.gates_removed == removed_count(circuit, r.0),
            r.1.reason@ == "cancelled "@ + spec_decimal(half_toward_zero(r.1.gates_removed as int)) + " inverse gate pair(s)"@,
    {
        let before = circuit.gate_count();
        let Circuit { name, qregs, cregs, gates, metadata } = circuit;
        let out = cancel_pairs(arith, gates);
        let c = Circuit { name, qregs, cregs, gates: out, metadata };
        let after = c.gate_count();
        let removed = (before as i128 - after as i128) as i64;
        let pairs = halve(removed);
        let reason = count_message("cancelled ", pairs, " inverse gate pair(s)");
        let report = PassReport { pass_name: String::from_str("gate_cancellation"), gates_removed: removed, reason };
        (c, report)
    }
}

/// `n / 2` rounded toward zero, as Rust's integer division does.
pub open spec fn half_toward_zero(n: int) -> int {
    if n >= 0 { n / 2 } else { -((-n) / 2) }
}

/// `n / 2` rounded toward zero.
pub fn halve(n: i64) -> (r: i64)
    ensures
        r as int == half_toward_zero(n as int),
{
    if n >= 0 {
        ((n as u64) / 2) as i64
    } else {
        let m: i128 = -(n as i128);
        let h: i128 = m / 2;
        (-h) as i64
    }
}

} // verus!
