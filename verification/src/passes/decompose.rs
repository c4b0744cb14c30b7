use vstd::prelude::*;
use crate::angle::{FloatOp, FRAC_PI_2, FRAC_PI_4, PI, apply, arith_ok, float_op, neg, spec_neg};
use crate::circuit::Circuit;
use crate::gate::{Angle, Gate, take_gate};
use crate::passes::report::{PassReport, removed_count, same_frame};
use crate::qubit::QubitRef;

verus! {

/// Rewrites every gate into IBM's native set (CX, RZ, SX, X); each replacement equals the
/// gate up to a global phase.
pub struct NativeGateDecomposition;


/// H on `q` as Rz(pi/2) SX Rz(pi/2).
pub open spec fn h_native(q: QubitRef) -> Seq<Gate> {
    seq![Gate::Rz(FRAC_PI_2, q), Gate::Sx(q), Gate::Rz(FRAC_PI_2, q)]
}

/// SXdg on `q` as Rz(pi) SX Rz(pi).
pub open spec fn sxdg_native(q: QubitRef) -> Seq<Gate> {
    seq![Gate::Rz(PI, q), Gate::Sx(q), Gate::Rz(PI, q)]
}

/// The native gates that replace `g`, in order.
pub open spec fn decomposition<A: Fn(FloatOp, Angle, Angle) -> Angle>(arith: A, g: Gate) -> Seq<Gate> {
    match g {
        Gate::H(q) => h_native(q),
        Gate::Y(q) => seq![Gate::Rz(PI, q), Gate::X(q)],
        Gate::Z(q) => seq![Gate::Rz(PI, q)],
        Gate::S(q) => seq![Gate::Rz(FRAC_PI_2, q)],
        Gate::Sdg(q) => seq![Gate::Rz(spec_neg(FRAC_PI_2), q)],
        Gate::T(q) => seq![Gate::Rz(FRAC_PI_4, q)],
        Gate::Tdg(q) => seq![Gate::Rz(spec_neg(FRAC_PI_4), q)],
        Gate::Sxdg(q) => sxdg_native(q),
        Gate::Rx(t, q) => h_native(q) + seq![Gate::Rz(t, q)] + h_native(q),
        Gate::Ry(t, q) => seq![Gate::Sx(q), Gate::Rz(t, q)] + sxdg_native(q),
        Gate::Swap(a, b) => seq![Gate::Cx(a, b), Gate::Cx(b, a), Gate::Cx(a, b)],
        Gate::Cz(c, t) => h_native(t) + seq![Gate::Cx(c, t)] + h_native(t),
        Gate::U1(l, q) => seq![Gate::Rz(l, q)],
        Gate::U2(p, l, q) => seq![
            Gate::Rz(float_op(arith, FloatOp::Sub, l, FRAC_PI_2), q),
            Gate::Sx(q),
            Gate::Rz(float_op(arith, FloatOp::Add, p, FRAC_PI_2), q),
        ],
        Gate::U3(t, p, l, q) => seq![
            Gate::Rz(l, q),
            Gate::Sx(q),
            Gate::Rz(float_op(arith, FloatOp::Add, t, PI), q),
            Gate::Sx(q),
            Gate::Rz(float_op(arith, FloatOp::Add, p, PI), q),
        ],
        Gate::Ccx(a, b, c) => h_native(c) + seq![
            Gate::Cx(b, c),
            Gate::Rz(spec_neg(FRAC_PI_4), c),
            Gate::Cx(a, c),
            Gate::Rz(FRAC_PI_4, c),
            Gate::Cx(b, c),
            Gate::Rz(spec_neg(FRAC_PI_4), c),
            Gate::Cx(a, c),
            Gate::Rz(FRAC_PI_4, b),
            Gate::Rz(FRAC_PI_4, c),
            Gate::Cx(a, b),
            Gate::Rz(FRAC_PI_4, a),
            Gate::Rz(spec_neg(FRAC_PI_4), b),
            Gate::Cx(a, b),
        ] + h_native(c),
        _ => seq![g],
    }
}

/// The decompositions of all gates of `gs`, concatenated in order.
pub open spec fn decompose_all<A: Fn(FloatOp, Angle, Angle) -> Angle>(arith: A, gs: Seq<Gate>) -> Seq<Gate>
    decreases gs.len(),
{
    if gs.len() == 0 {
        Seq::empty()
    } else {
        decompose_all(arith, gs.drop_last()) + decomposition(arith, gs.last())
    }
}

fn push_h(out: &mut Vec<Gate>, q: &QubitRef)
    ensures
        final(out)@ == old(out)@ + h_native(*q),
{
    out.push(Gate::Rz(FRAC_PI_2, q.clone()));
    out.push(Gate::Sx(q.clone()));
    out.push(Gate::Rz(FRAC_PI_2, q.clone()));
    proof { assert(final(out)@ =~= old(out)@ + h_native(*q)); }
}

fn push_sxdg(out: &mut Vec<Gate>, q: &QubitRef)
    ensures
        final(out)@ == old(out)@ + sxdg_native(*q),
{
    out.push(Gate::Rz(PI, q.clone()));
    out.push(Gate::Sx(q.clone()));
    out.push(Gate::Rz(PI, q.clone()));
    proof { assert(final(out)@ =~= old(out)@ + sxdg_native(*q)); }
}

/// Appends the native decomposition of `gate` to `out`.
pub fn decompose_gate<A: Fn(FloatOp, Angle, Angle) -> Angle>(arith: &A, gate: Gate, out: &mut Vec<Gate>)
    requires
        arith_ok(*arith),
    ensures
        final(out)@ == old(out)@ + decomposition(*arith, gate),
{
    let ghost g0 = gate;
    let ghost start = out@;
    match gate {
        Gate::H(q) => {
            push_h(out, &q);
        },
        Gate::Y(q) => {
            out.push(Gate::Rz(PI, q.clone()));
            out.push(Gate::X(q));
        },
        Gate::Z(q) => {
            out.push(Gate::Rz(PI, q));
        },
        Gate::S(q) => {
            out.push(Gate::Rz(FRAC_PI_2, q));
        },
        Gate::Sdg(q) => {
            out.push(Gate::Rz(neg(FRAC_PI_2), q));
        },
        Gate::T(q) => {
            out.push(Gate::Rz(FRAC_PI_4, q));
        },
        Gate::Tdg(q) => {
            out.push(Gate::Rz(neg(FRAC_PI_4), q));
        },
        Gate::Sxdg(q) => {
            push_sxdg(out, &q);
        },
        Gate::Rx(t, q) => {
            push_h(out, &q);
            out.push(Gate::Rz(t, q.clone()));
            push_h(out, &q);
        },
        Gate::Ry(t, q) => {
            out.push(Gate::Sx(q.clone()));
            out.push(Gate::Rz(t, q.clone()));
            push_sxdg(out, &q);
        },
        Gate::Swap(a, b) => {
            out.push(Gate::Cx(a.clone(), b.clone()));
            out.push(Gate::Cx(b.clone(), a.clone()));
            out.push(Gate::Cx(a, b));
        },
        Gate::Cz(c, t) => {
            push_h(out, &t);
            out.push(Gate::Cx(c, t.clone()));
            push_h(out, &t);
        },
        Gate::U1(l, q) => {
            out.push(Gate::Rz(l, q));
        },
        Gate::U2(p, l, q) => {
            let a = apply(arith, FloatOp::Add, p, FRAC_PI_2);
            let b = apply(arith, FloatOp::Sub, l, FRAC_PI_2);
            out.push(Gate::Rz(b, q.clone()));
            out.push(Gate::Sx(q.clone()));
            out.push(Gate::Rz(a, q));
        },
        Gate::U3(t, p, l, q) => {
            let a = apply(arith, FloatOp::Add, p, PI);
            let b = apply(arith, FloatOp::Add, t, PI);
            out.push(Gate::Rz(l, q.clone()));
            out.push(Gate::Sx(q.clone()));
            out.push(Gate::Rz(b, q.clone()));
            out.push(Gate::Sx(q.clone()));
            out.push(Gate::Rz(a, q));
        },
        Gate::Ccx(a, b, c) => {
            push_h(out, &c);
            out.push(Gate::Cx(b.clone(), c.clone()));
            out.push(Gate::Rz(neg(FRAC_PI_4), c.clone()));
            out.push(Gate::Cx(a.clone(), c.clone()));
            out.push(Gate::Rz(FRAC_PI_4, c.clone()));
            out.push(Gate::Cx(b.clone(), c.clone()));
            out.push(Gate::Rz(neg(FRAC_PI_4), c.clone()));
            out.push(Gate::Cx(a.clone(), c.clone()));
            out.push(Gate::Rz(FRAC_PI_4, b.clone()));
            out.push(Gate::Rz(FRAC_PI_4, c.clone()));
            out.push(Gate::Cx(a.clone(), b.clone()));
            out.push(Gate::Rz(FRAC_PI_4, a.clone()));
            out.push(Gate::Rz(neg(FRAC_PI_4), b.clone()));
            out.push(Gate::Cx(a, b));
            push_h(out, &c);
        },
        other => {
            out.push(other);
        },
    }
    proof {
        assert(out@ =~= start + decomposition(*arith, g0));
    }
}

/// The native decomposition of every gate of `gates`, in order.
pub fn decompose_gates<A: Fn(FloatOp, Angle, Angle) -> Angle>(arith: &A, gates: Vec<Gate>) -> (out: Vec<Gate>)
    requires
        arith_ok(*arith),
    ensures
        out@ == decompose_all(*arith, gates@),
{
    let ghost orig = gates@;
    let mut gates = gates;
    let n = gates.len();
    let mut out: Vec<Gate> = Vec::new();
    let mut i: usize = 0;
    while i < n
        invariant
            n == orig.len(),
            i <= n,
            gates@.len() == n,
            forall|j: int| i <= j < n ==> gates@[j] == orig[j],
            out@ == decompose_all(*arith, orig.subrange(0, i as int)),
            arith_ok(*arith),
        decreases n - i,
    {
        let g = take_gate(&mut gates, i);
        proof {
            assert(orig.subrange(0, i + 1).drop_last() =~= orig.subrange(0, i as int));
        }
        decompose_gate(arith, g, &mut out);
        i += 1;
    }
    proof {
        assert(orig.subrange(0, n as int) =~= orig);
    }
    out
}

impl NativeGateDecomposition {
    pub fn name(&self) -> (s: &str)
        ensures
            s@ == "native_gate_decomposition"@,
    {
        "native_gate_decomposition"
    }

    pub fn run<A: Fn(FloatOp, Angle, Angle) -> Angle>(&self, circuit: Circuit, arith: &A) -> (r: (Circuit, PassReport))
        requires
            arith_ok(*arith),
        ensures
            r.0.gates@ == decompose_all(*arith, circuit.gates@),
            same_frame(circuit, r.0),
            r.1.pass_name@ == "native_gate_decomposition"@,
            r.1.gates_removed == removed_count(circuit, r.0),
            r.1.reason@ == "decomposed to IBM native gates (CX, RZ, SX, X)"@,
    {
        let before = circuit.gate_count();
        let Circuit { name, qregs, cregs, gates, metadata } = circuit;
        let out = decompose_gates(arith, gates);
        let c = Circuit { name, qregs, cregs, gates: out, metadata };
        let after = c.gate_count();
        let removed = (before as i128 - after as i128) as i64;
        let report = PassReport {
            pass_name: String::from_str("native_gate_decomposition"),
            gates_removed: removed,
            reason: String::from_str("decomposed to IBM native gates (CX, RZ, SX, X)"),
        };
        (c, report)
    }
}

/// The rotation about the Z axis, and its qubit, that a diagonal single-qubit gate is up
/// to a global phase: Z by pi, S by pi/2, Sdg by -pi/2, T by pi/4, Tdg by -pi/4, U1(l) and
/// Rz(l) by l.
pub open spec fn z_rotation(g: Gate) -> Option<(Angle, QubitRef)> {
    match g {
        Gate::Z(q) => Some((PI, q)),
        Gate::S(q) => Some((FRAC_PI_2, q)),
        Gate::Sdg(q) => Some((spec_neg(FRAC_PI_2), q)),
        Gate::T(q) => Some((FRAC_PI_4, q)),
        Gate::Tdg(q) => Some((spec_neg(FRAC_PI_4), q)),
        Gate::U1(l, q) | Gate::Rz(l, q) => Some((l, q)),
        _ => None,
    }
}

/// The angle of `z_rotation`, or 0 for a gate that is not diagonal.
pub open spec fn z_angle(g: Gate) -> Angle {
    match z_rotation(g) {
        Some((a, _)) => a,
        None => 0,
    }
}

/// A diagonal single-qubit gate decomposes to the single Rz it is up to global phase; in
/// particular S and Sdg, and T and Tdg, decompose to rotations by opposite angles.
pub proof fn lemma_diagonal_decomposition<A: Fn(FloatOp, Angle, Angle) -> Angle>(arith: A, g: Gate)
    ensures
        z_rotation(g) matches Some((theta, q)) ==> decomposition(arith, g) == seq![Gate::Rz(theta, q)],
        forall|q: QubitRef| decomposition(arith, Gate::Tdg(q)) == seq![Gate::Rz(spec_neg(z_angle(Gate::T(q))), q)],
        forall|q: QubitRef| decomposition(arith, Gate::Sdg(q)) == seq![Gate::Rz(spec_neg(z_angle(Gate::S(q))), q)],
{
}

/// Every gate a gate decomposes into acts only on qubits of that gate.
pub proof fn lemma_decomposition_stays_on_qubits<A: Fn(FloatOp, Angle, Angle) -> Angle>(arith: A, g: Gate)
    ensures
        forall|i: int, j: int| 0 <= i < decomposition(arith, g).len() && 0 <= j < decomposition(arith, g)[i]@.qubits().len()
            ==> g@.qubits().contains(#[trigger] decomposition(arith, g)[i]@.qubits()[j]),
{
    let d = decomposition(arith, g);
    assert forall|i: int, j: int| 0 <= i < d.len() && 0 <= j < d[i]@.qubits().len()
        implies g@.qubits().contains(#[trigger] d[i]@.qubits()[j]) by {
        match g {
            Gate::Cz(c, t) => {
                assert(g@.qubits()[0] == c@ && g@.qubits()[1] == t@);
            },
            Gate::Swap(a, b) => {
                assert(g@.qubits()[0] == a@ && g@.qubits()[1] == b@);
            },
            Gate::Ccx(a, b, c) => {
                assert(g@.qubits()[0] == a@ && g@.qubits()[1] == b@ && g@.qubits()[2] == c@);
            },
            Gate::Barrier(_) | Gate::Custom { .. } | Gate::Measure(_, _) | Gate::Reset(_) | Gate::Cx(_, _) => {
                assert(d[i] == g);
            },
            _ => {
                assert(g@.qubits().len() == 1);
                assert(g@.qubits().contains(g@.qubits()[0]));
            },
        }
        if i == 0 {
        } else if i == 1 {
        } else if i == 2 {
        } else if i == 3 {
        } else if i == 4 {
        } else if i == 5 {
        } else if i == 6 {
        } else if i == 7 {
        } else if i == 8 {
        } else if i == 9 {
        } else if i == 10 {
        } else if i == 11 {
        } else if i == 12 {
        } else if i == 13 {
        } else if i == 14 {
        } else if i == 15 {
        } else if i == 16 {
        } else if i == 17 {
        } else if i == 18 {
        }

    }
}

/// A gate the decomposition leaves: IBM's native CX, RZ, SX and X, and gates that are not
/// unitaries of the standard set (measurements, resets, barriers, custom gates).
pub open spec fn is_native(g: Gate) -> bool {
    g is Cx || g is Rz || g is Sx || g is X || g is Measure || g is Reset || g is Barrier || g is Custom
}

/// Decomposition leaves only native gates: no H, Y, Z, S, Sdg, T, Tdg, SXdg, Rx, Ry, U1, U2,
/// U3, SWAP, CZ or Toffoli remains.
pub proof fn lemma_decomposed_native<A: Fn(FloatOp, Angle, Angle) -> Angle>(arith: A, gs: Seq<Gate>)
    ensures
        forall|i: int| 0 <= i < decompose_all(arith, gs).len() ==> is_native(#[trigger] decompose_all(arith, gs)[i]),
    decreases gs.len(),
{
    if gs.len() > 0 {
        lemma_decomposed_native(arith, gs.drop_last());
        let a = decompose_all(arith, gs.drop_last());
        let d = decomposition(arith, gs.last());
        assert forall|j: int| 0 <= j < d.len() implies is_native(#[trigger] d[j]) by {
            match gs.last() {
                Gate::Cz(c, t) => {
                    assert(d == h_native(t) + seq![Gate::Cx(c, t)] + h_native(t));
                },
                Gate::Ccx(x, y, z) => {},
                Gate::Rx(t, q) => {
                    assert(d == h_native(q) + seq![Gate::Rz(t, q)] + h_native(q));
                },
                Gate::Ry(t, q) => {
                    assert(d == seq![Gate::Sx(q), Gate::Rz(t, q)] + sxdg_native(q));
                },
                _ => {},
            }
        }
        assert forall|i: int| 0 <= i < (a + d).len() implies is_native(#[trigger] (a + d)[i]) by {
            if i >= a.len() {
                assert((a + d)[i] == d[i - a.len()]);
            }
        }
    }
}

} // verus!
