use qforge::passes::manager::PassKind;
use qforge::pipeline::{default_qubits, flag, has_flag, native_pipeline, optimization_pipeline, strategies, target_topology, Strategy};
use qforge::routing::topology::HardwareTopology;
use qforge::text::count_message;

fn args(xs: &[&str]) -> Vec<String> {
    xs.iter().map(|s| s.to_string()).collect()
}

#[test]
fn flags_take_the_following_argument() {
    let a = args(&["c.qasm", "--target", "grid", "--qubits", "9", "--native"]);
    assert_eq!(flag(&a, "--target"), Some("grid"));
    assert_eq!(flag(&a, "--qubits"), Some("9"));
    assert_eq!(flag(&a, "--native"), None);
    assert_eq!(flag(&a, "--shots"), None);
    assert!(has_flag(&a, "--native"));
    assert!(!has_flag(&a, "--html"));
}

#[test]
fn pipelines_list_their_passes() {
    let pm = optimization_pipeline();
    assert_eq!(pm.passes.len(), 7);
    assert_eq!(pm.passes[3], PassKind::CommutationAnalysis);
    assert_eq!(pm.passes[6], PassKind::GateCancellation);
    let nm = native_pipeline();
    assert_eq!(nm.passes, vec![PassKind::NativeGateDecomposition, PassKind::GateFusion, PassKind::RotationMerging, PassKind::GateCancellation]);
}

#[test]
fn targets_pick_their_devices() {
    assert_eq!(target_topology("grid", 20).qubit_count, 9);
    assert_eq!(target_topology("heavy-hex", 7).name, "heavy-hex-7");
    assert_eq!(target_topology("anything", 6).name, "linear-6");
    assert_eq!(default_qubits(3), 5);
    assert_eq!(default_qubits(12), 12);
}

#[test]
fn decimal_text() {
    assert_eq!(count_message("removed ", -42, " gate(s)"), "removed -42 gate(s)");
    assert_eq!(count_message("merged ", 3, " rotation(s)"), "merged 3 rotation(s)");
    assert_eq!(count_message("fused ", 0, ""), "fused 0");
    assert_eq!(count_message("", i64::MIN, ""), "-9223372036854775808");
    assert_eq!(count_message("", i64::MAX, "!"), "9223372036854775807!");
    assert_eq!(HardwareTopology::linear(1234567).name, "linear-1234567");
    assert_eq!(HardwareTopology::linear(10).name, "linear-10");
    assert_eq!(HardwareTopology::grid(3, 4).name, "grid-3x4");
}

#[test]
fn strategies_in_order_with_their_passes() {
    let s = strategies();
    let names: Vec<&str> = s.iter().map(|x| x.name()).collect();
    assert_eq!(names, vec!["aggressive", "balanced", "light", "commutation_first"]);
    assert_eq!(Strategy::Aggressive.pipeline().passes, optimization_pipeline().passes);
    assert_eq!(Strategy::Light.pipeline().passes, vec![PassKind::GateCancellation, PassKind::IdentityElimination]);
    assert_eq!(
        Strategy::CommutationFirst.pipeline().passes,
        vec![PassKind::CommutationAnalysis, PassKind::GateCancellation, PassKind::RotationMerging, PassKind::GateCancellation]
    );
    assert_eq!(Strategy::Balanced.pipeline().passes.len(), 4);
    assert_eq!(Strategy::Balanced.pipeline().max_iterations, 10);
}
