use qforge::circuit::{Circuit, RegisterMap};
use qforge::gate::Gate;
use qforge::qubit::{CbitRef, QubitRef};

fn q(i: usize) -> QubitRef {
    QubitRef::new("q", i)
}

#[test]
fn new_circuit_is_empty() {
    let c = Circuit::new("bell");
    assert_eq!(c.name, "bell");
    assert_eq!(c.qubit_count(), 0);
    assert_eq!(c.gate_count(), 0);
    assert_eq!(c.depth(), 0);
    assert!(c.metadata.source.is_none());
}

#[test]
fn counts_follow_registers_and_gates() {
    let mut c = Circuit::new("c");
    c.qregs.insert("q", 3);
    c.qregs.insert("a", 2);
    c.cregs.insert("c", 3);
    c.push(Gate::H(q(0)));
    c.push(Gate::Cx(q(0), q(1)));
    c.push(Gate::Barrier(vec![q(0), q(1)]));
    c.push(Gate::Swap(q(1), q(2)));
    c.push(Gate::Measure(q(2), CbitRef::new("c", 2)));
    assert_eq!(c.qubit_count(), 5);
    assert_eq!(c.gate_count(), 4);
    assert_eq!(c.two_qubit_gate_count(), 2);
    assert_eq!(c.depth(), 4);
}

#[test]
fn register_insert_keeps_first_place() {
    let mut m = RegisterMap::new();
    m.insert("q", 2);
    m.insert("r", 4);
    m.insert("q", 7);
    assert_eq!(m.len(), 2);
    assert_eq!(m.entry(0), ("q", 7));
    assert_eq!(m.entry(1), ("r", 4));
    assert_eq!(m.get("q"), Some(7));
    assert_eq!(m.get("x"), None);
    assert!(m.contains_key("r"));
    assert_eq!(m.total(), 11);
    let copy = m.clone();
    assert_eq!(copy.entry(1), ("r", 4));
}

#[test]
fn gate_names_and_qubits() {
    let g = Gate::Ccx(q(0), q(1), q(2));
    assert_eq!(g.name(), "ccx");
    assert_eq!(g.qubit_count(), 3);
    assert!(!g.is_two_qubit());
    assert!(Gate::Cz(q(0), q(1)).is_two_qubit());
    assert!(Gate::Measure(q(0), CbitRef::new("c", 0)).is_measurement());
    let qs = Gate::Custom { name: "mygate".to_string(), params: vec![1], qubits: vec![q(4), q(5)] }.gate_qubits();
    assert_eq!(qs.len(), 2);
    assert_eq!(qs[1].index, 5);
    assert_eq!(Gate::Custom { name: "mygate".to_string(), params: vec![], qubits: vec![] }.name(), "mygate");
}

#[test]
fn qubit_refs_compare_by_register_and_index() {
    assert!(q(1).same_as(&QubitRef::new("q", 1)));
    assert!(!q(1).same_as(&QubitRef::new("r", 1)));
    assert!(q(1) == QubitRef::new("q", 1));
    assert!(CbitRef::new("c", 0) != CbitRef::new("c", 1));
}

#[test]
fn qubit_ref_text() {
    assert_eq!(QubitRef::new("anc", 12).to_string(), "anc[12]");
}
