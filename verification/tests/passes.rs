use qforge::angle::{FloatOp, FRAC_PI_2, PI};
use qforge::circuit::Circuit;
use qforge::gate::Gate;
use qforge::passes::cancellation::{are_inverse, GateCancellation};
use qforge::passes::commutation::{commutes, CommutationAnalysis};
use qforge::passes::decompose::NativeGateDecomposition;
use qforge::passes::fusion::GateFusion;
use qforge::passes::identity::IdentityElimination;
use qforge::passes::manager::{PassKind, PassManager};
use qforge::passes::rotation::RotationMerging;
use qforge::qubit::{CbitRef, QubitRef};

fn arith(op: FloatOp, a: u64, b: u64) -> u64 {
    let x = f64::from_bits(a);
    let y = f64::from_bits(b);
    let r = match op {
        FloatOp::Add => x + y,
        FloatOp::Sub => x - y,
        FloatOp::Mul => x * y,
        FloatOp::Div => x / y,
        FloatOp::Pow => x.powf(y),
        FloatOp::Sin => x.sin(),
        FloatOp::Cos => x.cos(),
        FloatOp::Tan => x.tan(),
        FloatOp::Exp => x.exp(),
        FloatOp::Ln => x.ln(),
        FloatOp::Sqrt => x.sqrt(),
        FloatOp::FromInt => a as i64 as f64,
    };
    r.to_bits()
}

fn f(x: f64) -> u64 {
    x.to_bits()
}

fn q(i: usize) -> QubitRef {
    QubitRef::new("q", i)
}

fn circuit(gates: Vec<Gate>) -> Circuit {
    let mut c = Circuit::new("t");
    c.qregs.insert("q", 3);
    for g in gates {
        c.push(g);
    }
    c
}

fn no_fusion(_: &Vec<Gate>) -> Option<Gate> {
    None
}

#[test]
fn identity_elimination_removes_zero_rotations() {
    let c = circuit(vec![Gate::Rz(f(0.0), q(0)), Gate::H(q(0)), Gate::Rx(f(1e-12), q(1)), Gate::Ry(f(0.5), q(1))]);
    let (out, report) = IdentityElimination.run(c);
    assert_eq!(out.gates, vec![Gate::H(q(0)), Gate::Ry(f(0.5), q(1))]);
    assert_eq!(report.pass_name, "identity_elimination");
    assert_eq!(report.gates_removed, 2);
    assert_eq!(report.reason, "removed 2 identity gate(s)");
}

#[test]
fn cancellation_removes_adjacent_inverse_pairs() {
    let c = circuit(vec![
        Gate::H(q(0)),
        Gate::H(q(0)),
        Gate::Cx(q(0), q(1)),
        Gate::Cx(q(0), q(1)),
        Gate::S(q(2)),
        Gate::Sdg(q(2)),
        Gate::X(q(1)),
    ]);
    let (out, report) = GateCancellation.run(c, &arith);
    assert_eq!(out.gates, vec![Gate::X(q(1))]);
    assert_eq!(report.gates_removed, 6);
    assert_eq!(report.reason, "cancelled 3 inverse gate pair(s)");
}

#[test]
fn cancellation_reaches_nested_pairs() {
    // X H H X: the inner pair goes first, then the outer one meets.
    let c = circuit(vec![Gate::X(q(0)), Gate::H(q(0)), Gate::H(q(0)), Gate::X(q(0))]);
    let (out, _) = GateCancellation.run(c, &arith);
    assert!(out.gates.is_empty());
}

#[test]
fn opposite_rotations_are_inverse() {
    assert!(are_inverse(&arith, &Gate::Rz(f(0.3), q(0)), &Gate::Rz(f(-0.3), q(0))));
    assert!(!are_inverse(&arith, &Gate::Rz(f(0.3), q(0)), &Gate::Rz(f(0.3), q(0))));
    assert!(!are_inverse(&arith, &Gate::H(q(0)), &Gate::H(q(1))));
    assert!(are_inverse(&arith, &Gate::T(q(1)), &Gate::Tdg(q(1))));
}

#[test]
fn rotation_merging_adds_angles() {
    let c = circuit(vec![Gate::Rz(f(0.25), q(0)), Gate::Rz(f(0.5), q(0)), Gate::Rx(f(1.0), q(1)), Gate::Rx(f(-1.0), q(1))]);
    let (out, report) = RotationMerging.run(c, &arith);
    assert_eq!(out.gates, vec![Gate::Rz(f(0.75), q(0))]);
    assert_eq!(report.gates_removed, 3);
}

#[test]
fn commutation_checks() {
    assert!(commutes(&Gate::H(q(0)), &Gate::X(q(1))));
    assert!(commutes(&Gate::Z(q(0)), &Gate::Cx(q(0), q(1))));
    assert!(commutes(&Gate::X(q(1)), &Gate::Cx(q(0), q(1))));
    assert!(!commutes(&Gate::H(q(0)), &Gate::Cx(q(0), q(1))));
}

#[test]
fn commutation_exposes_distant_pairs() {
    let c = circuit(vec![Gate::Z(q(0)), Gate::Cx(q(0), q(1)), Gate::Z(q(0))]);
    let (out, report) = CommutationAnalysis.run(c, &arith);
    assert_eq!(out.gates, vec![Gate::Cx(q(0), q(1))]);
    assert_eq!(report.gates_removed, 2);
}

#[test]
fn decomposition_gives_native_gates() {
    let c = circuit(vec![Gate::H(q(0)), Gate::Swap(q(0), q(1)), Gate::Measure(q(0), CbitRef::new("c", 0))]);
    let (out, report) = NativeGateDecomposition.run(c, &arith);
    assert_eq!(
        out.gates,
        vec![
            Gate::Rz(FRAC_PI_2, q(0)),
            Gate::Sx(q(0)),
            Gate::Rz(FRAC_PI_2, q(0)),
            Gate::Cx(q(0), q(1)),
            Gate::Cx(q(1), q(0)),
            Gate::Cx(q(0), q(1)),
            Gate::Measure(q(0), CbitRef::new("c", 0)),
        ]
    );
    assert_eq!(report.pass_name, "native_gate_decomposition");
    assert_eq!(report.gates_removed, -4);
    for g in &out.gates {
        assert!(matches!(g, Gate::Rz(_, _) | Gate::Sx(_) | Gate::Cx(_, _) | Gate::X(_) | Gate::Measure(_, _)));
    }
}

#[test]
fn decomposition_of_y_and_z() {
    let c = circuit(vec![Gate::Y(q(0)), Gate::Z(q(1))]);
    let (out, _) = NativeGateDecomposition.run(c, &arith);
    assert_eq!(out.gates, vec![Gate::Rz(PI, q(0)), Gate::X(q(0)), Gate::Rz(PI, q(1))]);
}

#[test]
fn fusion_collapses_runs_through_the_given_fuser() {
    let fuse = |run: &Vec<Gate>| -> Option<Gate> {
        match &run[0] {
            Gate::H(q0) => Some(Gate::U3(run.len() as u64, 0, 0, q0.clone())),
            _ => None,
        }
    };
    let c = circuit(vec![Gate::H(q(0)), Gate::X(q(0)), Gate::T(q(0)), Gate::Cx(q(0), q(1)), Gate::X(q(1)), Gate::H(q(2))]);
    let (out, report) = GateFusion.run(c, &fuse);
    assert_eq!(
        out.gates,
        vec![Gate::U3(3, 0, 0, q(0)), Gate::Cx(q(0), q(1)), Gate::X(q(1)), Gate::H(q(2))]
    );
    assert_eq!(report.gates_removed, 2);
}

#[test]
fn fusion_drops_runs_the_fuser_refuses() {
    let c = circuit(vec![Gate::X(q(0)), Gate::X(q(0)), Gate::H(q(1))]);
    let (out, _) = GateFusion.run(c, &no_fusion);
    assert_eq!(out.gates, vec![Gate::H(q(1))]);
}

#[test]
fn pass_manager_default_is_empty() {
    let pm = PassManager::default();
    assert!(pm.passes.is_empty());
    assert_eq!(pm.max_iterations, 10);
}

#[test]
fn pass_manager_runs_to_a_fixed_point() {
    let mut pm = PassManager::new();
    assert_eq!(pm.max_iterations, 10);
    pm.add_pass(PassKind::IdentityElimination).add_pass(PassKind::GateCancellation).add_pass(PassKind::RotationMerging);
    let c = circuit(vec![
        Gate::Rz(f(0.0), q(0)),
        Gate::H(q(0)),
        Gate::H(q(0)),
        Gate::Rz(f(0.2), q(1)),
        Gate::Rz(f(-0.2), q(1)),
        Gate::Cx(q(0), q(1)),
    ]);
    let (out, report) = pm.run(c, &arith, &no_fusion);
    assert_eq!(out.gates, vec![Gate::Cx(q(0), q(1))]);
    assert_eq!(report.input_gates, 6);
    assert_eq!(report.output_gates, 1);
    assert_eq!(report.input_2q, 1);
    assert_eq!(report.output_2q, 1);
    assert_eq!(report.time_ms, 0);
    assert!(report.passes.len() >= 3);
    assert_eq!(report.passes[0].name, "identity_elimination");
    assert_eq!(report.passes[0].gates_removed, 1);
}

#[test]
fn pass_manager_log_adds_up_to_the_reduction() {
    let mut pm = PassManager::new();
    pm.add_pass(PassKind::IdentityElimination)
        .add_pass(PassKind::GateCancellation)
        .add_pass(PassKind::RotationMerging)
        .add_pass(PassKind::CommutationAnalysis);
    let c = circuit(vec![
        Gate::Rz(f(0.0), q(0)),
        Gate::Z(q(0)),
        Gate::Cx(q(0), q(1)),
        Gate::Z(q(0)),
        Gate::X(q(1)),
        Gate::X(q(1)),
        Gate::H(q(2)),
    ]);
    let (_, report) = pm.run(c, &arith, &no_fusion);
    let total: i64 = report.passes.iter().map(|p| p.gates_removed).sum();
    assert_eq!(total, report.input_gates as i64 - report.output_gates as i64);
    assert_eq!(report.output_gates, 2);
}

#[test]
fn cancellation_only_removes_and_is_stable() {
    let gates = vec![
        Gate::H(q(0)),
        Gate::T(q(1)),
        Gate::X(q(0)),
        Gate::X(q(0)),
        Gate::Tdg(q(1)),
        Gate::H(q(0)),
        Gate::S(q(2)),
    ];
    let (once, _) = GateCancellation.run(circuit(gates), &arith);
    assert_eq!(once.gates, vec![Gate::S(q(2))]);
    let (twice, report) = GateCancellation.run(circuit(once.gates.clone()), &arith);
    assert_eq!(twice.gates, once.gates);
    assert_eq!(report.gates_removed, 0);
}

#[test]
fn commutation_only_removes_and_is_stable() {
    let gates = vec![
        Gate::X(q(1)),
        Gate::Cx(q(0), q(1)),
        Gate::H(q(2)),
        Gate::X(q(1)),
        Gate::Y(q(0)),
    ];
    let (once, report) = CommutationAnalysis.run(circuit(gates), &arith);
    assert_eq!(once.gates, vec![Gate::Cx(q(0), q(1)), Gate::H(q(2)), Gate::Y(q(0))]);
    assert_eq!(report.gates_removed, 2);
    let (twice, again) = CommutationAnalysis.run(circuit(once.gates.clone()), &arith);
    assert_eq!(twice.gates, once.gates);
    assert_eq!(again.gates_removed, 0);
}

#[test]
fn commutation_rules_from_the_docs() {
    assert!(commutes(&Gate::Rz(f(0.3), q(0)), &Gate::Cx(q(0), q(1))));
    assert!(commutes(&Gate::Cx(q(0), q(1)), &Gate::Rz(f(0.3), q(0))));
    assert!(commutes(&Gate::Rx(f(0.3), q(1)), &Gate::Cx(q(0), q(1))));
    assert!(commutes(&Gate::S(q(0)), &Gate::T(q(0))));
    assert!(commutes(&Gate::Cx(q(0), q(1)), &Gate::Cx(q(2), q(3))));
    assert!(!commutes(&Gate::X(q(0)), &Gate::Cx(q(0), q(1))));
    assert!(commutes(&Gate::T(q(0)), &Gate::S(q(0))));
    assert!(commutes(&Gate::Rz(f(0.3), q(0)), &Gate::T(q(0))));
    assert!(!commutes(&Gate::Cx(q(0), q(1)), &Gate::Cx(q(1), q(0))));
    assert!(commutes(&Gate::Cx(q(0), q(1)), &Gate::Cx(q(0), q(1))));
    assert!(!commutes(&Gate::U3(f(0.1), 0, 0, q(0)), &Gate::U3(f(0.2), 0, 0, q(0))));
}

#[test]
fn commutation_keeps_a_swap_made_of_three_cx() {
    let swap = vec![Gate::Cx(q(0), q(1)), Gate::Cx(q(1), q(0)), Gate::Cx(q(0), q(1))];
    let (out, report) = CommutationAnalysis.run(circuit(swap.clone()), &arith);
    assert_eq!(out.gates, swap);
    assert_eq!(report.gates_removed, 0);
}

#[test]
fn decomposition_of_rotations_and_u3_is_native_and_in_time_order() {
    let c = circuit(vec![
        Gate::Rx(f(0.5), q(0)),
        Gate::Ry(f(0.25), q(1)),
        Gate::Sxdg(q(2)),
        Gate::U3(f(0.1), f(0.2), f(0.3), q(0)),
    ]);
    let (out, _) = NativeGateDecomposition.run(c, &arith);
    assert_eq!(
        out.gates,
        vec![
            Gate::Rz(FRAC_PI_2, q(0)),
            Gate::Sx(q(0)),
            Gate::Rz(FRAC_PI_2, q(0)),
            Gate::Rz(f(0.5), q(0)),
            Gate::Rz(FRAC_PI_2, q(0)),
            Gate::Sx(q(0)),
            Gate::Rz(FRAC_PI_2, q(0)),
            Gate::Sx(q(1)),
            Gate::Rz(f(0.25), q(1)),
            Gate::Rz(PI, q(1)),
            Gate::Sx(q(1)),
            Gate::Rz(PI, q(1)),
            Gate::Rz(PI, q(2)),
            Gate::Sx(q(2)),
            Gate::Rz(PI, q(2)),
            Gate::Rz(f(0.3), q(0)),
            Gate::Sx(q(0)),
            Gate::Rz(f(0.1 + std::f64::consts::PI), q(0)),
            Gate::Sx(q(0)),
            Gate::Rz(f(0.2 + std::f64::consts::PI), q(0)),
        ]
    );
    for g in &out.gates {
        assert!(matches!(g, Gate::Rz(_, _) | Gate::Sx(_) | Gate::Cx(_, _) | Gate::X(_)));
    }
}
