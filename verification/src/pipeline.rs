use vstd::prelude::*;
use crate::passes::manager::{PassKind, PassManager};
use crate::routing::topology::{HardwareTopology, grid_edges, heavy_hex_edges, ibm_native_names, linear_edges, string_views};
use crate::text::spec_decimal;

verus! {

/// The views of a list of strings.
pub open spec fn texts(args: Seq<String>) -> Seq<Seq<char>> {
    args.map_values(|s: String| s@)
}

/// The position, from `i` on, of the first `name` that has an argument after it.
pub open spec fn flag_position(args: Seq<Seq<char>>, name: Seq<char>, i: int) -> Option<int>
    decreases args.len() - i,
{
    if i < 0 || i + 1 >= args.len() {
        None
    } else if args[i] == name {
        Some(i)
    } else {
        flag_position(args, name, i + 1)
    }
}

/// The argument after the first `name` that has one.
pub fn flag<'a>(args: &'a [String], name: &str) -> (r: Option<&'a str>)
    ensures
        match flag_position(texts(args@), name@, 0) {
            Some(i) => r matches Some(v) && v@ == args@[i + 1]@,
            None => r is None,
        },
{
    let target = String::from_str(name);
    let n = args.len();
    if n == 0 {
        return None;
    }
    let mut i: usize = 0;
    while i < n - 1
        invariant
            n == args@.len(),
            n >= 1,
            i <= args@.len(),
            target@ == name@,
            flag_position(texts(args@), name@, 0) == flag_position(texts(args@), name@, i as int),
        decreases args@.len() - i,
    {
        if args[i] == target {
            return Some(args[i + 1].as_str());
        }
        i += 1;
    }
    None
}

/// Whether some argument is `name`.
pub fn has_flag(args: &[String], name: &str) -> (b: bool)
    ensures
        b == texts(args@).contains(name@),
{
    let target = String::from_str(name);
    let mut i: usize = 0;
    while i < args.len()
        invariant
            i <= args@.len(),
            target@ == name@,
            forall|j: int| 0 <= j < i ==> args@[j]@ != name@,
        decreases args@.len() - i,
    {
        if args[i] == target {
            proof { assert(texts(args@)[i as int] == name@); }
            return true;
        }
        i += 1;
    }
    proof {
        if texts(args@).contains(name@) {
            let j = choose|j: int| 0 <= j < texts(args@).len() && texts(args@)[j] == name@;
            assert(args@[j]@ == name@);
        }
    }
    false
}

/// The passes that optimize a circuit before routing.
pub open spec fn optimization_passes() -> Seq<PassKind> {
    seq![
        PassKind::IdentityElimination,
        PassKind::GateCancellation,
        PassKind::RotationMerging,
        PassKind::CommutationAnalysis,
        PassKind::GateCancellation,
        PassKind::RotationMerging,
        PassKind::GateCancellation,
    ]
}

/// The passes that bring an optimized circuit to IBM native gates.
pub open spec fn native_passes() -> Seq<PassKind> {
    seq![
        PassKind::NativeGateDecomposition,
        PassKind::GateFusion,
        PassKind::RotationMerging,
        PassKind::GateCancellation,
    ]
}

/// The pass manager that optimizes a circuit before routing.
pub fn optimization_pipeline() -> (pm: PassManager)
    ensures
        pm.passes@ == optimization_passes(),
        pm.max_iterations == 10,
{
    let mut pm = PassManager::new();
    pm.add_pass(PassKind::IdentityElimination)
        .add_pass(PassKind::GateCancellation)
        .add_pass(PassKind::RotationMerging)
        .add_pass(PassKind::CommutationAnalysis)
        .add_pass(PassKind::GateCancellation)
        .add_pass(PassKind::RotationMerging)
        .add_pass(PassKind::GateCancellation);
    pm
}

/// The pass manager that decomposes to IBM native gates.
pub fn native_pipeline() -> (pm: PassManager)
    ensures
        pm.passes@ == native_passes(),
        pm.max_iterations == 10,
{
    let mut pm = PassManager::new();
    pm.add_pass(PassKind::NativeGateDecomposition)
        .add_pass(PassKind::GateFusion)
        .add_pass(PassKind::RotationMerging)
        .add_pass(PassKind::GateCancellation);
    pm
}

/// The pass orderings compared against a noise model when choosing how to compile.
#[derive(Clone, Copy, Debug, PartialEq, Eq, Structural)]
pub enum Strategy {
    Aggressive,
    Balanced,
    Light,
    CommutationFirst,
}

/// A strategy's name.
pub open spec fn strategy_name(s: Strategy) -> Seq<char> {
    match s {
        Strategy::Aggressive => "aggressive"@,
        Strategy::Balanced => "balanced"@,
        Strategy::Light => "light"@,
        Strategy::CommutationFirst => "commutation_first"@,
    }
}

/// The passes a strategy runs, in order.
pub open spec fn strategy_passes(s: Strategy) -> Seq<PassKind> {
    match s {
        Strategy::Aggressive => optimization_passes(),
        Strategy::Balanced => seq![
            PassKind::IdentityElimination,
            PassKind::GateCancellation,
            PassKind::RotationMerging,
            PassKind::GateCancellation,
        ],
        Strategy::Light => seq![PassKind::GateCancellation, PassKind::IdentityElimination],
        Strategy::CommutationFirst => seq![
            PassKind::CommutationAnalysis,
            PassKind::GateCancellation,
            PassKind::RotationMerging,
            PassKind::GateCancellation,
        ],
    }
}

/// The strategies, in the order they are tried.
pub fn strategies() -> (v: Vec<Strategy>)
    ensures
        v@ == seq![Strategy::Aggressive, Strategy::Balanced, Strategy::Light, Strategy::CommutationFirst],
{
    vec![Strategy::Aggressive, Strategy::Balanced, Strategy::Light, Strategy::CommutationFirst]
}

impl Strategy {
    pub fn name(&self) -> (r: &'static str)
        ensures
            r@ == strategy_name(*self),
    {
        match self {
            Strategy::Aggressive => "aggressive",
            Strategy::Balanced => "balanced",
            Strategy::Light => "light",
            Strategy::CommutationFirst => "commutation_first",
        }
    }

    /// A pass manager running this strategy's passes.
    pub fn pipeline(&self) -> (pm: PassManager)
        ensures
            pm.passes@ == strategy_passes(*self),
            pm.max_iterations == 10,
    {
        match self {
            Strategy::Aggressive => optimization_pipeline(),
            Strategy::Balanced => {
                let mut pm = PassManager::new();
                pm.add_pass(PassKind::IdentityElimination)
                    .add_pass(PassKind::GateCancellation)
                    .add_pass(PassKind::RotationMerging)
                    .add_pass(PassKind::GateCancellation);
                pm
            },
            Strategy::Light => {
                let mut pm = PassManager::new();
                pm.add_pass(PassKind::GateCancellation).add_pass(PassKind::IdentityElimination);
                pm
            },
            Strategy::CommutationFirst => {
                let mut pm = PassManager::new();
                pm.add_pass(PassKind::CommutationAnalysis)
                    .add_pass(PassKind::GateCancellation)
                    .add_pass(PassKind::RotationMerging)
                    .add_pass(PassKind::GateCancellation);
                pm
            },
        }
    }
}

/// The qubits to route onto when none are asked for: the circuit's, and at least 5.
pub fn default_qubits(circuit_qubits: usize) -> (n: usize)
    ensures
        n == if circuit_qubits >= 5 { circuit_qubits } else { 5 },
{
    if circuit_qubits >= 5 { circuit_qubits } else { 5 }
}

/// The device a target name stands for: a 3x3 grid for "grid", a heavy-hex device of
/// `qubits` qubits for "heavy-hex", and otherwise a line of `qubits` qubits.
pub fn target_topology(name: &str, qubits: usize) -> (t: HardwareTopology)
    requires
        name@ != "grid"@ && name@ != "heavy-hex"@ ==> qubits >= 1,
    ensures
        name@ == "grid"@ ==> t.qubit_count == 9 && t.coupling_map@ == grid_edges(3, 3, 3)
            && t.name@ == "grid-"@ + spec_decimal(3) + "x"@ + spec_decimal(3),
        name@ == "heavy-hex"@ ==> t.qubit_count == qubits && t.coupling_map@ == heavy_hex_edges(qubits as nat, 0)
            && t.name@ == "heavy-hex-"@ + spec_decimal(qubits as int),
        name@ != "grid"@ && name@ != "heavy-hex"@ ==> t.qubit_count == qubits && t.coupling_map@ == linear_edges(qubits as nat)
            && t.name@ == "linear-"@ + spec_decimal(qubits as int),
        string_views(t.native_gates@) == ibm_native_names(),
        t.gate_duration@.len() == 0,
{
    let s = String::from_str(name);
    proof {
        reveal_strlit("grid");
        reveal_strlit("heavy-hex");
        assert("grid"@ != "heavy-hex"@) by {
            assert("grid"@.len() != "heavy-hex"@.len());
        }
    }
    if s == String::from_str("grid") {
        HardwareTopology::grid(3, 3)
    } else if s == String::from_str("heavy-hex") {
        HardwareTopology::heavy_hex(qubits)
    } else {
        HardwareTopology::linear(qubits)
    }
}

} // verus!
