use qforge::dag::compute_depth;
use qforge::gate::Gate;
use qforge::qubit::QubitRef;

fn q(i: usize) -> QubitRef {
    QubitRef::new("q", i)
}

#[test]
fn empty_circuit_depth_zero() {
    assert_eq!(compute_depth(&[]), 0);
}

#[test]
fn single_gate_depth_one() {
    assert_eq!(compute_depth(&[Gate::H(q(0))]), 1);
}

#[test]
fn parallel_gates_depth_one() {
    // H on q0 and H on q1 are independent: depth 1, not 2.
    let gates = vec![Gate::H(q(0)), Gate::H(q(1))];
    assert_eq!(compute_depth(&gates), 1);
}

#[test]
fn serial_gates_same_qubit() {
    // H then X on the same qubit must run one after the other: depth 2.
    let gates = vec![Gate::H(q(0)), Gate::X(q(0))];
    assert_eq!(compute_depth(&gates), 2);
}

#[test]
fn cx_depends_on_both_qubits() {
    // H q0 (layer 1), H q1 (layer 1), CX q0 q1 (layer 2)
    let gates = vec![Gate::H(q(0)), Gate::H(q(1)), Gate::Cx(q(0), q(1))];
    assert_eq!(compute_depth(&gates), 2);
}

#[test]
fn bell_state_depth() {
    let gates = vec![Gate::H(q(0)), Gate::Cx(q(0), q(1))];
    assert_eq!(compute_depth(&gates), 2);
}

#[test]
fn barriers_ignored_in_depth() {
    let gates = vec![Gate::H(q(0)), Gate::Barrier(vec![q(0), q(1)]), Gate::H(q(1))];
    // Barriers do not count: H q0 and H q1 are independent, depth 1.
    assert_eq!(compute_depth(&gates), 1);
}

#[test]
fn ghz_depth() {
    // CX q0 q1 and CX q0 q2 run one after the other through q0: depth 3.
    let gates = vec![Gate::H(q(0)), Gate::Cx(q(0), q(1)), Gate::Cx(q(0), q(2))];
    assert_eq!(compute_depth(&gates), 3);
}

#[test]
fn depth_never_exceeds_gate_count() {
    let gates = vec![
        Gate::H(q(0)),
        Gate::X(q(0)),
        Gate::Cx(q(0), q(1)),
        Gate::Measure(q(1), qforge::qubit::CbitRef::new("c", 0)),
    ];
    let d = compute_depth(&gates);
    assert_eq!(d, 4);
    assert!(d <= gates.len());
}

#[test]
fn custom_gate_depends_on_all_its_qubits() {
    let gates = vec![
        Gate::H(q(2)),
        Gate::Custom { name: "foo".to_string(), params: vec![], qubits: vec![q(0), q(1), q(2)] },
        Gate::X(q(0)),
    ];
    assert_eq!(compute_depth(&gates), 3);
}
