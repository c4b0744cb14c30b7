use vstd::prelude::*;
use crate::angle::{is_negligible, spec_negligible};
use crate::circuit::Circuit;
use crate::gate::{Gate, SpecGate, take_gate};
use crate::passes::report::{PassReport, removed_count, same_frame};
use crate::text::{count_message, spec_decimal};

verus! {

/// Removes gates that are provably identity operations: Rx, Ry, Rz and U1 by an angle
/// of magnitude below 1e-10.
pub struct IdentityElimination;

/// A rotation by a negligible angle.
pub open spec fn spec_is_identity(g: SpecGate) -> bool {
    match g {
        SpecGate::Rz(a, _) | SpecGate::Rx(a, _) | SpecGate::Ry(a, _) | SpecGate::U1(a, _) => spec_negligible(a),
        _ => false,
    }
}

/// `gs` without its identity gates, in order.
pub open spec fn without_identities(gs: Seq<Gate>) -> Seq<Gate>
    decreases gs.len(),
{
    if gs.len() == 0 {
        gs
    } else {
        let r = without_identities(gs.drop_last());
        if spec_is_identity(gs.last()@) { r } else { r.push(gs.last()) }
    }
}

pub fn is_identity(g: &Gate) -> (b: bool)
    ensures
        b == spec_is_identity(g@),
{
    match g {
        Gate::Rz(a, _) | Gate::Rx(a, _) | Gate::Ry(a, _) | Gate::U1(a, _) => is_negligible(*a),
        _ => false,
    }
}

/// The gates of `gates` that are not identities, in order.
pub fn remove_identities(gates: Vec<Gate>) -> (out: Vec<Gate>)
    ensures
        out@ == without_identities(gates@),
{
    let ghost orig = gates@;
    let mut gates = gates;
    let mut out: Vec<Gate> = Vec::new();
    let n = gates.len();
    let mut i: usize = 0;
    while i < n
        invariant
            n == orig.len(),
            i <= n,
            gates@.len() == n,
            forall|j: int| i <= j < n ==> gates@[j] == orig[j],
            out@ == without_identities(orig.subrange(0, i as int)),
        decreases n - i,
    {
        let g = take_gate(&mut gates, i);
        proof {
            assert(orig.subrange(0, i + 1).drop_last() =~= orig.subrange(0, i as int));
        }
        if !is_identity(&g) {
            out.push(g);
        }
        i += 1;
    }
    proof {
        assert(orig.subrange(0, n as int) =~= orig);
    }
    out
}

impl IdentityElimination {
    pub fn name(&self) -> (s: &str)
        ensures
            s@ == "identity_elimination"@,
    {
        "identity_elimination"
    }

    pub fn run(&self, circuit: Circuit) -> (r: (Circuit, PassReport))
        ensures
            r.0.gates@ == without_identities(circuit.gates@),
            same_frame(circuit, r.0),
            r.1.pass_name@ == "identity_elimination"@,
            r.1.gates_removed == removed_count(circuit, r.0),
            r.1.reason@ == "removed "@ + spec_decimal(r.1.gates_removed as int) + " identity gate(s)"@,
    {
        let before = circuit.gate_count();
        let Circuit { name, qregs, cregs, gates, metadata } = circuit;
        let out = remove_identities(gates);
        let c = Circuit { name, qregs, cregs, gates: out, metadata };
        let after = c.gate_count();
        let removed = (before as i128 - after as i128) as i64;
        let reason = count_message("removed ", removed, " identity gate(s)");
        let report = PassReport { pass_name: String::from_str("identity_elimination"), gates_removed: removed, reason };
        (c, report)
    }
}

/// Identity elimination leaves no identity gate, keeps every other gate, and removing
/// identities a second time changes nothing.
pub proof fn lemma_without_identities(gs: Seq<Gate>)
    ensures
        forall|i: int| 0 <= i < without_identities(gs).len() ==> !spec_is_identity(#[trigger] without_identities(gs)[i]@),
        without_identities(without_identities(gs)) == without_identities(gs),
        without_identities(gs).len() <= gs.len(),
        forall|i: int| 0 <= i < gs.len() && !spec_is_identity(gs[i]@) ==> without_identities(gs).contains(#[trigger] gs[i]),
    decreases gs.len(),
{
    if gs.len() > 0 {
        let t = gs.drop_last();
        lemma_without_identities(t);
        let r = without_identities(t);
        let g = gs.last();
        if !spec_is_identity(g@) {
            let rg = r.push(g);
            assert(rg.drop_last() =~= r);
            assert(without_identities(rg) == without_identities(r).push(g));
            assert forall|i: int| 0 <= i < gs.len() && !spec_is_identity(gs[i]@) implies rg.contains(#[trigger] gs[i]) by {
                if i < t.len() {
                    assert(t[i] == gs[i]);
                    let k = choose|k: int| 0 <= k < r.len() && r[k] == t[i];
                    assert(rg[k] == gs[i]);
                } else {
                    assert(rg[r.len() as int] == gs[i]);
                }
            }
        } else {
            assert forall|i: int| 0 <= i < gs.len() && !spec_is_identity(gs[i]@) implies r.contains(#[trigger] gs[i]) by {
                assert(i < t.len());
                assert(t[i] == gs[i]);
            }
        }
    }
}

} // verus!
