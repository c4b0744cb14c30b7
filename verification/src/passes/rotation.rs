use vstd::prelude::*;
use crate::angle::{FloatOp, apply, arith_ok, float_op, is_significant, spec_significant};
use crate::circuit::Circuit;
use crate::gate::{Angle, Gate, SpecGate, take_gate};
use crate::passes::report::{PassReport, removed_count, same_frame};
use crate::text::{count_message, spec_decimal};

verus! {

/// Merges consecutive rotations about one axis on one qubit: Rz(a) Rz(b) becomes Rz(a + b);
/// then drops Rx, Ry and Rz rotations whose angle is not above 1e-10 in magnitude.
pub struct RotationMerging;

/// `g` follows `last` as a rotation about the same axis on the same qubit.
pub open spec fn mergeable(last: SpecGate, g: SpecGate) -> bool {
    match (last, g) {
        (SpecGate::Rz(_, q1), SpecGate::Rz(_, q2)) => q1 == q2,
        (SpecGate::Rx(_, q1), SpecGate::Rx(_, q2)) => q1 == q2,
        (SpecGate::Ry(_, q1), SpecGate::Ry(_, q2)) => q1 == q2,
        _ => false,
    }
}

/// The single rotation that `last` followed by `g` merge into: the angle of `last` plus
/// the angle of `g`, on `g`'s qubit.
pub open spec fn merged<A: Fn(FloatOp, Angle, Angle) -> Angle>(arith: A, last: Gate, g: Gate) -> Gate {
    match (last, g) {
        (Gate::Rz(a, _), Gate::Rz(b, q)) => Gate::Rz(float_op(arith, FloatOp::Add, a, b), q),
        (Gate::Rx(a, _), Gate::Rx(b, q)) => Gate::Rx(float_op(arith, FloatOp::Add, a, b), q),
        (Gate::Ry(a, _), Gate::Ry(b, q)) => Gate::Ry(float_op(arith, FloatOp::Add, a, b), q),
        _ => g,
    }
}

/// `out` with `g` appended, merged into the last gate where it can be.
pub open spec fn merge_into<A: Fn(FloatOp, Angle, Angle) -> Angle>(arith: A, out: Seq<Gate>, g: Gate) -> Seq<Gate> {
    if out.len() > 0 && mergeable(out.last()@, g@) {
        out.drop_last().push(merged(arith, out.last(), g))
    } else {
        out.push(g)
    }
}

/// All gates of `gs`, each merged into the one before it where it can be.
pub open spec fn merge_all<A: Fn(FloatOp, Angle, Angle) -> Angle>(arith: A, gs: Seq<Gate>) -> Seq<Gate>
    decreases gs.len(),
{
    if gs.len() == 0 {
        gs
    } else {
        merge_into(arith, merge_all(arith, gs.drop_last()), gs.last())
    }
}

/// Rx, Ry or Rz by an angle that is not above 1e-10 in magnitude (or NaN).
pub open spec fn spec_is_zero_rotation(g: SpecGate) -> bool {
    match g {
        SpecGate::Rz(a, _) | SpecGate::Rx(a, _) | SpecGate::Ry(a, _) => !spec_significant(a),
        _ => false,
    }
}

/// `gs` without its zero rotations, in order.
pub open spec fn without_zero_rotations(gs: Seq<Gate>) -> Seq<Gate>
    decreases gs.len(),
{
    if gs.len() == 0 {
        gs
    } else {
        let r = without_zero_rotations(gs.drop_last());
        if spec_is_zero_rotation(gs.last()@) { r } else { r.push(gs.last()) }
    }
}

/// The pass's result on `gs`: merge, then drop zero rotations.
pub open spec fn merge_rotations<A: Fn(FloatOp, Angle, Angle) -> Angle>(arith: A, gs: Seq<Gate>) -> Seq<Gate> {
    without_zero_rotations(merge_all(arith, gs))
}

/// Merges `g` into `last` where it can be; otherwise hands `g` back.
fn try_merge<A: Fn(FloatOp, Angle, Angle) -> Angle>(arith: &A, last: &Gate, g: Gate) -> (r: Result<Gate, Gate>)
    requires
        arith_ok(*arith),
    ensures
        mergeable(last@, g@) ==> r == Ok::<Gate, Gate>(merged(*arith, *last, g)),
        !mergeable(last@, g@) ==> r == Err::<Gate, Gate>(g),
{
    match (last, g) {
        (Gate::Rz(a, q1), Gate::Rz(b, q2)) => {
            if q1.same_as(&q2) {
                Ok(Gate::Rz(apply(arith, FloatOp::Add, *a, b), q2))
            } else {
                Err(Gate::Rz(b, q2))
            }
        },
        (Gate::Rx(a, q1), Gate::Rx(b, q2)) => {
            if q1.same_as(&q2) {
                Ok(Gate::Rx(apply(arith, FloatOp::Add, *a, b), q2))
            } else {
                Err(Gate::Rx(b, q2))
            }
        },
        (Gate::Ry(a, q1), Gate::Ry(b, q2)) => {
            if q1.same_as(&q2) {
                Ok(Gate::Ry(apply(arith, FloatOp::Add, *a, b), q2))
            } else {
                Err(Gate::Ry(b, q2))
            }
        },
        (_, g) => Err(g),
    }
}

pub fn is_zero_rotation(g: &Gate) -> (b: bool)
    ensures
        b == spec_is_zero_rotation(g@),
{
    match g {
        Gate::Rz(a, _) | Gate::Rx(a, _) | Gate::Ry(a, _) => !is_significant(*a),
        _ => false,
    }
}

/// Merges consecutive rotations of `gates`, then drops zero rotations.
pub fn merge_gates<A: Fn(FloatOp, Angle, Angle) -> Angle>(arith: &A, gates: Vec<Gate>) -> (out: Vec<Gate>)
    requires
        arith_ok(*arith),
    ensures
        out@ == merge_rotations(*arith, gates@),
{
    let ghost orig = gates@;
    let mut gates = gates;
    let n = gates.len();
    let mut out: Vec<Gate> = Vec::new();
    let mut i: usize = 0;
    while i < n
        invariant
            n == orig.len(),
            i <= n,
            gates@.len() == n,
            forall|j: int| i <= j < n ==> gates@[j] == orig[j],
            out@ == merge_all(*arith, orig.subrange(0, i as int)),
            arith_ok(*arith),
        decreases n - i,
    {
        let g = take_gate(&mut gates, i);
        proof {
            assert(orig.subrange(0, i + 1).drop_last() =~= orig.subrange(0, i as int));
        }
        let len = out.len();
        if len > 0 {
            match try_merge(arith, &out[len - 1], g) {
                Ok(m) => {
                    out.set(len - 1, m);
                    proof {
                        assert(out@ =~= merge_all(*arith, orig.subrange(0, i + 1)));
                    }
                },
                Err(g) => {
                    out.push(g);
                },
            }
        } else {
            out.push(g);
        }
        i += 1;
    }
    proof {
        assert(orig.subrange(0, n as int) =~= orig);
    }
    let ghost merged_all = out@;
    let mut kept: Vec<Gate> = Vec::new();
    let m = out.len();
    let mut k: usize = 0;
    while k < m
        invariant
            m == merged_all.len(),
            k <= m,
            out@.len() == m,
            forall|j: int| k <= j < m ==> out@[j] == merged_all[j],
            kept@ == without_zero_rotations(merged_all.subrange(0, k as int)),
        decreases m - k,
    {
        let g = take_gate(&mut out, k);
        proof {
            assert(merged_all.subrange(0, k + 1).drop_last() =~= merged_all.subrange(0, k as int));
        }
        if !is_zero_rotation(&g) {
            kept.push(g);
        }
        k += 1;
    }
    proof {
        assert(merged_all.subrange(0, m as int) =~= merged_all);
    }
    kept
}

impl RotationMerging {
    pub fn name(&self) -> (s: &str)
        ensures
            s@ == "rotation_merging"@,
    {
        "rotation_merging"
    }

    pub fn run<A: Fn(FloatOp, Angle, Angle) -> Angle>(&self, circuit: Circuit, arith: &A) -> (r: (Circuit, PassReport))
        requires
            arith_ok(*arith),
        ensures
            r.0.gates@ == merge_rotations(*arith, circuit.gates@),
            same_frame(circuit, r.0),
            r.1.pass_name@ == "rotation_merging"@,
            r.1.gates_removed == removed_count(circuit, r.0),
            r.1.reason@ == "merged "@ + spec_decimal(r.1.gates_removed as int) + " rotation(s)"@,
    {
        let before = circuit.gate_count();
        let Circuit { name, qregs, cregs, gates, metadata } = circuit;
        let out = merge_gates(arith, gates);
        let c = Circuit { name, qregs, cregs, gates: out, metadata };
        let after = c.gate_count();
        let removed = (before as i128 - after as i128) as i64;
        let reason = count_message("merged ", removed, " rotation(s)");
        let report = PassReport { pass_name: String::from_str("rotation_merging"), gates_removed: removed, reason };
        (c, report)
    }
}

/// Merging consecutive rotations leaves no rotation that merges into the one before it.
pub proof fn lemma_merge_all_merged<A: Fn(FloatOp, Angle, Angle) -> Angle>(arith: A, gs: Seq<Gate>)
    ensures
        forall|i: int| 0 <= i < merge_all(arith, gs).len() - 1
            ==> !mergeable(#[trigger] merge_all(arith, gs)[i]@, merge_all(arith, gs)[i + 1]@),
        merge_all(arith, gs).len() <= gs.len(),
    decreases gs.len(),
{
    if gs.len() > 0 {
        let t = gs.drop_last();
        lemma_merge_all_merged(arith, t);
        let out = merge_all(arith, t);
        let g = gs.last();
        if out.len() > 0 && mergeable(out.last()@, g@) {
            let m = merged(arith, out.last(), g);
            let r = out.drop_last().push(m);
            assert(mergeable(out.last()@, g@));
            assert(m@ is Rz || m@ is Rx || m@ is Ry);
            assert forall|i: int| 0 <= i < r.len() - 1 implies !mergeable(#[trigger] r[i]@, r[i + 1]@) by {
                assert(r[i] == out[i]);
                if i + 1 < r.len() - 1 {
                    assert(r[i + 1] == out[i + 1]);
                } else {
                    assert(out[i + 1] == out.last());
                    assert(mergeable(out[i]@, out[i + 1]@) == false);
                    match (out[i]@, out.last()@, m@) {
                        (SpecGate::Rz(_, a), SpecGate::Rz(_, b), SpecGate::Rz(_, c)) => {},
                        (SpecGate::Rx(_, a), SpecGate::Rx(_, b), SpecGate::Rx(_, c)) => {},
                        (SpecGate::Ry(_, a), SpecGate::Ry(_, b), SpecGate::Ry(_, c)) => {},
                        _ => {},
                    }
                }
            }
        } else {
            let r = out.push(g);
            assert forall|i: int| 0 <= i < r.len() - 1 implies !mergeable(#[trigger] r[i]@, r[i + 1]@) by {
                assert(r[i] == out[i]);
                if i + 1 < r.len() - 1 {
                    assert(r[i + 1] == out[i + 1]);
                }
            }
        }
    }
}

/// Rotation merging leaves no Rx, Ry or Rz whose angle is within 1e-10 of zero, and never
/// lengthens the circuit.
pub proof fn lemma_no_zero_rotations<A: Fn(FloatOp, Angle, Angle) -> Angle>(arith: A, gs: Seq<Gate>)
    ensures
        forall|i: int| 0 <= i < merge_rotations(arith, gs).len() ==> !spec_is_zero_rotation(#[trigger] merge_rotations(arith, gs)[i]@),
        merge_rotations(arith, gs).len() <= gs.len(),
{
    lemma_merge_all_merged(arith, gs);
    lemma_without_zero(merge_all(arith, gs));
}

proof fn lemma_without_zero(gs: Seq<Gate>)
    ensures
        forall|i: int| 0 <= i < without_zero_rotations(gs).len() ==> !spec_is_zero_rotation(#[trigger] without_zero_rotations(gs)[i]@),
        without_zero_rotations(gs).len() <= gs.len(),
    decreases gs.len(),
{
    if gs.len() > 0 {
        lemma_without_zero(gs.drop_last());
        let r = without_zero_rotations(gs.drop_last());
        if !spec_is_zero_rotation(gs.last()@) {
            assert forall|i: int| 0 <= i < r.push(gs.last()).len() implies !spec_is_zero_rotation(#[trigger] r.push(gs.last())[i]@) by {
                if i < r.len() {
                    assert(r.push(gs.last())[i] == r[i]);
                }
            }
        }
    }
}

} // verus!
