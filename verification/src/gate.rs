use vstd::prelude::*;
use crate::qubit::{BitKey, CbitRef, QubitRef};

verus! {

/// An angle in radians, held as the bit pattern of an IEEE-754 binary64 number.
pub type Angle = u64;

/// One instruction of a circuit.
#[derive(Debug, PartialEq)]
pub enum Gate {
    H(QubitRef),
    X(QubitRef),
    Y(QubitRef),
    Z(QubitRef),
    S(QubitRef),
    Sdg(QubitRef),
    T(QubitRef),
    Tdg(QubitRef),
    Sx(QubitRef),
    Sxdg(QubitRef),
    Rx(Angle, QubitRef),
    Ry(Angle, QubitRef),
    Rz(Angle, QubitRef),
    U1(Angle, QubitRef),
    U2(Angle, Angle, QubitRef),
    U3(Angle, Angle, Angle, QubitRef),
    Cx(QubitRef, QubitRef),
    Cz(QubitRef, QubitRef),
    Swap(QubitRef, QubitRef),
    Ccx(QubitRef, QubitRef, QubitRef),
    Measure(QubitRef, CbitRef),
    Barrier(Vec<QubitRef>),
    Reset(QubitRef),
    Custom { name: String, params: Vec<Angle>, qubits: Vec<QubitRef> },
}

/// What a gate is, with each qubit and bit taken by its identity.
pub enum SpecGate {
    H(BitKey),
    X(BitKey),
    Y(BitKey),
    Z(BitKey),
    S(BitKey),
    Sdg(BitKey),
    T(BitKey),
    Tdg(BitKey),
    Sx(BitKey),
    Sxdg(BitKey),
    Rx(Angle, BitKey),
    Ry(Angle, BitKey),
    Rz(Angle, BitKey),
    U1(Angle, BitKey),
    U2(Angle, Angle, BitKey),
    U3(Angle, Angle, Angle, BitKey),
    Cx(BitKey, BitKey),
    Cz(BitKey, BitKey),
    Swap(BitKey, BitKey),
    Ccx(BitKey, BitKey, BitKey),
    Measure(BitKey, BitKey),
    Barrier(Seq<BitKey>),
    Reset(BitKey),
    Custom { name: Seq<char>, params: Seq<Angle>, qubits: Seq<BitKey> },
}

/// The identities of a list of qubit references.
pub open spec fn keys_of(qs: Seq<QubitRef>) -> Seq<BitKey> {
    qs.map_values(|q: QubitRef| q@)
}

impl View for Gate {
    type V = SpecGate;

    open spec fn view(&self) -> SpecGate {
        match self {
            Gate::H(q) => SpecGate::H(q@),
            Gate::X(q) => SpecGate::X(q@),
            Gate::Y(q) => SpecGate::Y(q@),
            Gate::Z(q) => SpecGate::Z(q@),
            Gate::S(q) => SpecGate::S(q@),
            Gate::Sdg(q) => SpecGate::Sdg(q@),
            Gate::T(q) => SpecGate::T(q@),
            Gate::Tdg(q) => SpecGate::Tdg(q@),
            Gate::Sx(q) => SpecGate::Sx(q@),
            Gate::Sxdg(q) => SpecGate::Sxdg(q@),
            Gate::Rx(a, q) => SpecGate::Rx(*a, q@),
            Gate::Ry(a, q) => SpecGate::Ry(*a, q@),
            Gate::Rz(a, q) => SpecGate::Rz(*a, q@),
            Gate::U1(a, q) => SpecGate::U1(*a, q@),
            Gate::U2(a, b, q) => SpecGate::U2(*a, *b, q@),
            Gate::U3(a, b, c, q) => SpecGate::U3(*a, *b, *c, q@),
            Gate::Cx(a, b) => SpecGate::Cx(a@, b@),
            Gate::Cz(a, b) => SpecGate::Cz(a@, b@),
            Gate::Swap(a, b) => SpecGate::Swap(a@, b@),
            Gate::Ccx(a, b, c) => SpecGate::Ccx(a@, b@, c@),
            Gate::Measure(q, c) => SpecGate::Measure(q@, c@),
            Gate::Barrier(qs) => SpecGate::Barrier(keys_of(qs@)),
            Gate::Reset(q) => SpecGate::Reset(q@),
            Gate::Custom { name, params, qubits } => SpecGate::Custom {
                name: name@,
                params: params@,
                qubits: keys_of(qubits@),
            },
        }
    }
}

/// The views of a list of gates.
pub open spec fn gates_view(gs: Seq<Gate>) -> Seq<SpecGate> {
    gs.map_values(|g: Gate| g@)
}

impl SpecGate {
    /// The qubits this gate acts on, in the order it names them.
    pub open spec fn qubits(self) -> Seq<BitKey> {
        match self {
            SpecGate::H(q) | SpecGate::X(q) | SpecGate::Y(q) | SpecGate::Z(q) | SpecGate::S(q)
            | SpecGate::Sdg(q) | SpecGate::T(q) | SpecGate::Tdg(q) | SpecGate::Sx(q)
            | SpecGate::Sxdg(q) | SpecGate::Rx(_, q) | SpecGate::Ry(_, q) | SpecGate::Rz(_, q)
            | SpecGate::U1(_, q) | SpecGate::U2(_, _, q) | SpecGate::U3(_, _, _, q)
            | SpecGate::Reset(q) | SpecGate::Measure(q, _) => seq![q],
            SpecGate::Cx(a, b) | SpecGate::Cz(a, b) | SpecGate::Swap(a, b) => seq![a, b],
            SpecGate::Ccx(a, b, c) => seq![a, b, c],
            SpecGate::Barrier(qs) => qs,
            SpecGate::Custom { qubits, .. } => qubits,
        }
    }

    pub open spec fn is_two_qubit(self) -> bool {
        self is Cx || self is Cz || self is Swap
    }

    pub open spec fn name(self) -> Seq<char> {
        match self {
            SpecGate::H(_) => "h"@,
            SpecGate::X(_) => "x"@,
            SpecGate::Y(_) => "y"@,
            SpecGate::Z(_) => "z"@,
            SpecGate::S(_) => "s"@,
            SpecGate::Sdg(_) => "sdg"@,
            SpecGate::T(_) => "t"@,
            SpecGate::Tdg(_) => "tdg"@,
            SpecGate::Sx(_) => "sx"@,
            SpecGate::Sxdg(_) => "sxdg"@,
            SpecGate::Rx(_, _) => "rx"@,
            SpecGate::Ry(_, _) => "ry"@,
            SpecGate::Rz(_, _) => "rz"@,
            SpecGate::U1(_, _) => "u1"@,
            SpecGate::U2(_, _, _) => "u2"@,
            SpecGate::U3(_, _, _, _) => "u3"@,
            SpecGate::Cx(_, _) => "cx"@,
            SpecGate::Cz(_, _) => "cz"@,
            SpecGate::Swap(_, _) => "swap"@,
            SpecGate::Ccx(_, _, _) => "ccx"@,
            SpecGate::Measure(_, _) => "measure"@,
            SpecGate::Barrier(_) => "barrier"@,
            SpecGate::Reset(_) => "reset"@,
            SpecGate::Custom { name, .. } => name,
        }
    }
}

impl Gate {
    /// Number of qubits this gate acts on.
    pub fn qubit_count(&self) -> (n: usize)
        ensures
            n == self@.qubits().len(),
    {
        match self {
            Gate::Cx(_, _) | Gate::Cz(_, _) | Gate::Swap(_, _) => 2,
            Gate::Ccx(_, _, _) => 3,
            Gate::Barrier(qs) => qs.len(),
            Gate::Custom { qubits, .. } => qubits.len(),
            _ => 1,
        }
    }

    pub fn is_two_qubit(&self) -> (b: bool)
        ensures
            b == self@.is_two_qubit(),
    {
        match self {
            Gate::Cx(_, _) | Gate::Cz(_, _) | Gate::Swap(_, _) => true,
            _ => false,
        }
    }

    pub fn is_measurement(&self) -> (b: bool)
        ensures
            b == (*self is Measure),
    {
        match self {
            Gate::Measure(_, _) => true,
            _ => false,
        }
    }

    /// This gate's OpenQASM name.
    pub fn name(&self) -> (s: &str)
        ensures
            s@ == self@.name(),
    {
        match self {
            Gate::H(_) => "h",
            Gate::X(_) => "x",
            Gate::Y(_) => "y",
            Gate::Z(_) => "z",
            Gate::S(_) => "s",
            Gate::Sdg(_) => "sdg",
            Gate::T(_) => "t",
            Gate::Tdg(_) => "tdg",
            Gate::Sx(_) => "sx",
            Gate::Sxdg(_) => "sxdg",
            Gate::Rx(_, _) => "rx",
            Gate::Ry(_, _) => "ry",
            Gate::Rz(_, _) => "rz",
            Gate::U1(_, _) => "u1",
            Gate::U2(_, _, _) => "u2",
            Gate::U3(_, _, _, _) => "u3",
            Gate::Cx(_, _) => "cx",
            Gate::Cz(_, _) => "cz",
            Gate::Swap(_, _) => "swap",
            Gate::Ccx(_, _, _) => "ccx",
            Gate::Measure(_, _) => "measure",
            Gate::Barrier(_) => "barrier",
            Gate::Reset(_) => "reset",
            Gate::Custom { name, .. } => name.as_str(),
        }
    }

    /// The qubits this gate acts on, in the order it names them.
    pub fn gate_qubits(&self) -> (qs: Vec<QubitRef>)
        ensures
            keys_of(qs@) == self@.qubits(),
    {
        match self {
            Gate::H(q) | Gate::X(q) | Gate::Y(q) | Gate::Z(q) | Gate::S(q) | Gate::Sdg(q)
            | Gate::T(q) | Gate::Tdg(q) | Gate::Sx(q) | Gate::Sxdg(q) | Gate::Rx(_, q)
            | Gate::Ry(_, q) | Gate::Rz(_, q) | Gate::U1(_, q) | Gate::U2(_, _, q)
            | Gate::U3(_, _, _, q) | Gate::Reset(q) | Gate::Measure(q, _) => vec![q.clone()],
            Gate::Cx(a, b) | Gate::Cz(a, b) | Gate::Swap(a, b) => vec![a.clone(), b.clone()],
            Gate::Ccx(a, b, c) => vec![a.clone(), b.clone(), c.clone()],
            Gate::Barrier(qs) => clone_qubits(qs),
            Gate::Custom { qubits, .. } => clone_qubits(qubits),
        }
    }
}

/// A copy of a list of qubit references.
pub fn clone_qubits(qs: &Vec<QubitRef>) -> (r: Vec<QubitRef>)
    ensures
        r@ == qs@,
{
    let mut r: Vec<QubitRef> = Vec::new();
    let mut i: usize = 0;
    while i < qs.len()
        invariant
            i <= qs.len(),
            r@ == qs@.subrange(0, i as int),
        decreases qs.len() - i,
    {
        r.push(qs[i].clone());
        i += 1;
    }
    r
}

/// A copy of a list of angles.
pub fn clone_angles(xs: &Vec<Angle>) -> (r: Vec<Angle>)
    ensures
        r@ == xs@,
{
    let mut r: Vec<Angle> = Vec::new();
    let mut i: usize = 0;
    while i < xs.len()
        invariant
            i <= xs.len(),
            r@ == xs@.subrange(0, i as int),
        decreases xs.len() - i,
    {
        r.push(xs[i]);
        i += 1;
    }
    r
}

impl Clone for Gate {
    fn clone(&self) -> (r: Self)
        ensures
            r@ == self@,
    {
        match self {
            Gate::H(q) => Gate::H(q.clone()),
            Gate::X(q) => Gate::X(q.clone()),
            Gate::Y(q) => Gate::Y(q.clone()),
            Gate::Z(q) => Gate::Z(q.clone()),
            Gate::S(q) => Gate::S(q.clone()),
            Gate::Sdg(q) => Gate::Sdg(q.clone()),
            Gate::T(q) => Gate::T(q.clone()),
            Gate::Tdg(q) => Gate::Tdg(q.clone()),
            Gate::Sx(q) => Gate::Sx(q.clone()),
            Gate::Sxdg(q) => Gate::Sxdg(q.clone()),
            Gate::Rx(a, q) => Gate::Rx(*a, q.clone()),
            Gate::Ry(a, q) => Gate::Ry(*a, q.clone()),
            Gate::Rz(a, q) => Gate::Rz(*a, q.clone()),
            Gate::U1(a, q) => Gate::U1(*a, q.clone()),
            Gate::U2(a, b, q) => Gate::U2(*a, *b, q.clone()),
            Gate::U3(a, b, c, q) => Gate::U3(*a, *b, *c, q.clone()),
            Gate::Cx(a, b) => Gate::Cx(a.clone(), b.clone()),
            Gate::Cz(a, b) => Gate::Cz(a.clone(), b.clone()),
            Gate::Swap(a, b) => Gate::Swap(a.clone(), b.clone()),
            Gate::Ccx(a, b, c) => Gate::Ccx(a.clone(), b.clone(), c.clone()),
            Gate::Measure(q, c) => Gate::Measure(q.clone(), c.clone()),
            Gate::Barrier(qs) => {
                let r = clone_qubits(qs);
                                Gate::Barrier(r)
            },
            Gate::Reset(q) => Gate::Reset(q.clone()),
            Gate::Custom { name, params, qubits } => {
                let p = clone_angles(params);
                let r = clone_qubits(qubits);
                Gate::Custom { name: name.clone(), params: p, qubits: r }
            },
        }
    }
}

} // verus!

verus! {

/// Moves the `i`-th gate out of `gates`, leaving an empty barrier in its place.
pub fn take_gate(gates: &mut Vec<Gate>, i: usize) -> (g: Gate)
    requires
        i < old(gates)@.len(),
    ensures
        g == old(gates)@[i as int],
        final(gates)@.len() == old(gates)@.len(),
        forall|j: int| 0 <= j < old(gates)@.len() && j != i ==> final(gates)@[j] == old(gates)@[j],
{
    let mut g = Gate::Barrier(Vec::new());
    std::mem::swap(&mut g, &mut gates[i]);
    g
}

} // verus!
