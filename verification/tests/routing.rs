use qforge::circuit::Circuit;
use qforge::gate::Gate;
use qforge::qubit::{CbitRef, QubitRef};
use qforge::routing::allocator::{allocate_qubits, build_logical_index, logical_index, try_allocate_qubits, two_qubit_logical_indices};
use qforge::routing::sabre::{route, shortest_path};
use qforge::routing::topology::{CouplingEdge, HardwareTopology};

fn q(i: usize) -> QubitRef {
    QubitRef::new("q", i)
}

fn p(i: usize) -> QubitRef {
    QubitRef::new("q", i)
}

#[test]
fn linear_topology_couples_neighbours() {
    let t = HardwareTopology::linear(5);
    assert_eq!(t.name, "linear-5");
    assert_eq!(t.qubit_count, 5);
    assert_eq!(t.coupling_map.len(), 4);
    assert_eq!(t.coupling_map[2], CouplingEdge { source: 2, target: 3 });
    assert!(t.are_adjacent(1, 2));
    assert!(t.are_adjacent(2, 1));
    assert!(!t.are_adjacent(0, 2));
    assert_eq!(t.neighbours(2), vec![1, 3]);
    assert_eq!(t.native_gates, vec!["cx".to_string(), "rz".to_string(), "sx".to_string(), "x".to_string()]);
}

#[test]
fn grid_topology_shape() {
    let t = HardwareTopology::grid(3, 3);
    assert_eq!(t.name, "grid-3x3");
    assert_eq!(t.qubit_count, 9);
    assert_eq!(t.coupling_map.len(), 12);
    assert!(t.are_adjacent(4, 1));
    assert!(t.are_adjacent(4, 7));
    assert!(!t.are_adjacent(2, 3));
    assert_eq!(t.neighbours(4).len(), 4);
}

#[test]
fn heavy_hex_is_connected_line_with_name() {
    let t = HardwareTopology::heavy_hex(7);
    assert_eq!(t.name, "heavy-hex-7");
    assert_eq!(t.qubit_count, 7);
    for i in 0..7 {
        assert!(t.distance(0, i) < usize::MAX);
    }
}

#[test]
fn distances_are_shortest_paths() {
    let t = HardwareTopology::linear(5);
    assert_eq!(t.distance(0, 0), 0);
    assert_eq!(t.distance(0, 4), 4);
    assert_eq!(t.distance(3, 1), 2);
    let g = HardwareTopology::grid(3, 3);
    assert_eq!(g.distance(0, 8), 4);
    let m = g.distance_matrix();
    assert_eq!(m.len(), 9);
    assert_eq!(m[2][6], 4);
    assert_eq!(m[4][4], 0);
}

#[test]
fn disconnected_qubits_have_no_distance() {
    let t = HardwareTopology {
        name: "split".to_string(),
        qubit_count: 4,
        coupling_map: vec![CouplingEdge { source: 0, target: 1 }, CouplingEdge { source: 2, target: 3 }],
        native_gates: vec![],
        gate_duration: vec![],
    };
    assert_eq!(t.distance(0, 3), usize::MAX);
    assert_eq!(shortest_path(&t, 0, 3), vec![0]);
}

#[test]
fn shortest_path_follows_breadth_first_search() {
    let t = HardwareTopology::linear(5);
    assert_eq!(shortest_path(&t, 0, 3), vec![0, 1, 2, 3]);
    assert_eq!(shortest_path(&t, 4, 2), vec![4, 3, 2]);
    assert_eq!(shortest_path(&t, 2, 2), vec![2]);
    let g = HardwareTopology::grid(2, 2);
    // 0-1, 0-2, 1-3, 2-3: from 0 the first to discover 3 is 1.
    assert_eq!(shortest_path(&g, 0, 3), vec![0, 1, 3]);
}

fn ghz(n: usize) -> Circuit {
    let mut c = Circuit::new("ghz");
    c.qregs.insert("q", n);
    c.cregs.insert("c", n);
    c.push(Gate::H(q(0)));
    for i in 1..n {
        c.push(Gate::Cx(q(0), q(i)));
    }
    c
}

#[test]
fn logical_index_follows_register_order() {
    let mut c = Circuit::new("two");
    c.qregs.insert("a", 2);
    c.qregs.insert("b", 3);
    let keys = build_logical_index(&c);
    assert_eq!(keys.len(), 5);
    assert_eq!(logical_index(&keys, &QubitRef::new("b", 1)), Some(3));
    assert_eq!(logical_index(&keys, &QubitRef::new("a", 0)), Some(0));
    assert_eq!(logical_index(&keys, &QubitRef::new("c", 0)), None);
    assert_eq!(two_qubit_logical_indices(&Gate::Cx(QubitRef::new("b", 2), QubitRef::new("a", 1)), &keys), Some((4, 1)));
    assert_eq!(two_qubit_logical_indices(&Gate::H(QubitRef::new("a", 1)), &keys), None);
    assert_eq!(two_qubit_logical_indices(&Gate::Ccx(QubitRef::new("a", 0), QubitRef::new("a", 1), QubitRef::new("z", 0)), &keys), None);
}

#[test]
fn allocation_places_busiest_pair_on_a_coupling() {
    let mut c = Circuit::new("alloc");
    c.qregs.insert("q", 3);
    c.push(Gate::Cx(q(0), q(2)));
    c.push(Gate::Cx(q(2), q(0)));
    c.push(Gate::Cx(q(1), q(2)));
    let t = HardwareTopology::linear(4);
    let m = allocate_qubits(&c, &t);
    // (0, 2) interacts twice: it takes the first coupling 0-1; then 1 goes next to 2's qubit.
    assert_eq!(m, vec![0, 2, 1]);
}

#[test]
fn allocation_fills_idle_qubits_with_free_ones() {
    let mut c = Circuit::new("idle");
    c.qregs.insert("q", 3);
    c.push(Gate::H(q(0)));
    let t = HardwareTopology::linear(3);
    assert_eq!(allocate_qubits(&c, &t), vec![0, 1, 2]);
}

#[test]
fn routing_inserts_swaps_for_distant_qubits() {
    let c = ghz(3);
    let t = HardwareTopology::linear(3);
    let (routed, report) = route(&c, &t, &[0, 1, 2]);
    // H and CX(0,1) stay as they are; CX(0,2) needs one SWAP on 0-1 first.
    assert_eq!(
        routed.gates,
        vec![
            Gate::H(p(0)),
            Gate::Cx(p(0), p(1)),
            Gate::Swap(p(0), p(1)),
            Gate::Cx(p(1), p(2)),
        ]
    );
    assert_eq!(report.swaps_inserted, 1);
    assert_eq!(report.swap_cost_in_cx, 3);
    assert_eq!(report.initial_mapping, vec![0, 1, 2]);
    assert_eq!(report.final_gate_count, 4);
    assert_eq!(routed.qregs.entry(0), ("q", 3));
    assert_eq!(routed.cregs.entry(0), ("c", 3));
    assert_eq!(routed.name, "ghz");
}

#[test]
fn routing_keeps_barriers_and_remaps_the_rest() {
    let mut c = Circuit::new("m");
    c.qregs.insert("q", 2);
    c.cregs.insert("c", 2);
    c.push(Gate::Barrier(vec![q(0), q(1)]));
    c.push(Gate::X(q(1)));
    c.push(Gate::Measure(q(0), CbitRef::new("c", 0)));
    let t = HardwareTopology::linear(4);
    let (routed, report) = route(&c, &t, &[3, 2]);
    assert_eq!(
        routed.gates,
        vec![Gate::Barrier(vec![q(0), q(1)]), Gate::X(p(2)), Gate::Measure(p(3), CbitRef::new("c", 0))]
    );
    assert_eq!(report.swaps_inserted, 0);
    assert_eq!(report.final_gate_count, 2);
}

#[test]
fn routing_ghz_on_a_line_couples_every_cx() {
    let c = ghz(5);
    let t = HardwareTopology::linear(5);
    let (routed, report) = route(&c, &t, &[0, 1, 2, 3, 4]);
    for g in &routed.gates {
        if let Gate::Cx(a, b) = g {
            assert!(t.are_adjacent(a.index, b.index));
        }
    }
    assert_eq!(report.swap_cost_in_cx, 3 * report.swaps_inserted);
}

#[test]
fn allocation_gives_distinct_qubits_below_the_count() {
    let mut c = Circuit::new("mix");
    c.qregs.insert("q", 6);
    c.push(Gate::Cx(q(0), q(5)));
    c.push(Gate::Cz(q(3), q(4)));
    c.push(Gate::Swap(q(1), q(4)));
    c.push(Gate::Cx(q(0), q(5)));
    let t = HardwareTopology::grid(3, 3);
    let m = allocate_qubits(&c, &t);
    assert_eq!(m.len(), 6);
    for (i, a) in m.iter().enumerate() {
        assert!(*a < 9);
        for b in &m[i + 1..] {
            assert_ne!(a, b);
        }
    }
}

#[test]
fn allocating_then_routing_couples_every_cx_and_cz() {
    let mut c = Circuit::new("spread");
    c.qregs.insert("q", 5);
    c.push(Gate::Cx(q(0), q(4)));
    c.push(Gate::Cz(q(1), q(3)));
    c.push(Gate::Cx(q(2), q(0)));
    c.push(Gate::Cz(q(4), q(1)));
    let t = HardwareTopology::linear(5);
    let m = allocate_qubits(&c, &t);
    let (routed, _) = route(&c, &t, &m);
    for g in &routed.gates {
        match g {
            Gate::Cx(a, b) | Gate::Cz(a, b) => assert!(t.are_adjacent(a.index, b.index)),
            _ => {}
        }
    }
}

#[test]
fn grid_and_heavy_hex_are_connected() {
    for t in [HardwareTopology::grid(3, 3), HardwareTopology::grid(2, 4), HardwareTopology::heavy_hex(7), HardwareTopology::linear(5)] {
        let m = t.distance_matrix();
        for a in 0..t.qubit_count {
            for b in 0..t.qubit_count {
                assert!(m[a][b] < t.qubit_count);
            }
        }
        for e in &t.coupling_map {
            assert_ne!(e.source, e.target);
            assert!(e.source < t.qubit_count && e.target < t.qubit_count);
        }
    }
}

#[test]
fn heavy_hex_has_a_chain_and_bridges_without_repeats() {
    let h = HardwareTopology::heavy_hex(7);
    assert_eq!(
        h.coupling_map,
        vec![
            CouplingEdge { source: 0, target: 1 },
            CouplingEdge { source: 1, target: 2 },
            CouplingEdge { source: 0, target: 3 },
            CouplingEdge { source: 2, target: 3 },
            CouplingEdge { source: 3, target: 4 },
            CouplingEdge { source: 2, target: 5 },
            CouplingEdge { source: 4, target: 5 },
            CouplingEdge { source: 5, target: 6 },
        ]
    );
    for (i, e) in h.coupling_map.iter().enumerate() {
        for f in &h.coupling_map[i + 1..] {
            assert!(!(e.source == f.source && e.target == f.target));
            assert!(!(e.source == f.target && e.target == f.source));
        }
    }
    let mut nbs = h.neighbours(2);
    nbs.sort();
    assert_eq!(nbs, vec![1, 3, 5]);
    let mut nbs = h.neighbours(5);
    nbs.sort();
    assert_eq!(nbs, vec![2, 4, 6]);
}

#[test]
fn grid_distance_is_rows_plus_columns() {
    let t = HardwareTopology::grid(3, 3);
    assert_eq!(t.distance(0, 8), 4);
    assert_eq!(t.distance(2, 6), 4);
    assert_eq!(t.distance(4, 1), 1);
    let g = HardwareTopology::grid(3, 4);
    for a in 0..12usize {
        for b in 0..12usize {
            let (ra, ca, rb, cb) = (a / 4, a % 4, b / 4, b % 4);
            assert_eq!(g.distance(a, b), ra.abs_diff(rb) + ca.abs_diff(cb));
        }
    }
}

#[test]
fn grid_couples_cells_one_step_apart() {
    let g = HardwareTopology::grid(3, 4);
    for a in 0..12usize {
        let mut neighbours = 0;
        for b in 0..12usize {
            let gap = (a / 4).abs_diff(b / 4) + (a % 4).abs_diff(b % 4);
            assert_eq!(g.are_adjacent(a, b), gap == 1);
            if gap == 1 {
                neighbours += 1;
            }
        }
        assert!(neighbours <= 4);
    }
}

#[test]
fn routing_a_distance_two_cx_takes_one_swap() {
    let mut c = Circuit::new("far");
    c.qregs.insert("q", 3);
    c.push(Gate::Cx(q(0), q(2)));
    let t = HardwareTopology::linear(3);
    let (routed, report) = route(&c, &t, &[0, 1, 2]);
    assert_eq!(report.swaps_inserted, 1);
    assert_eq!(report.swap_cost_in_cx, 3);
    assert_eq!(routed.gates, vec![Gate::Swap(p(0), p(1)), Gate::Cx(p(1), p(2))]);
}

#[test]
fn checked_allocation_refuses_repeated_operands_and_self_loops() {
    let mut c = Circuit::new("ok");
    c.qregs.insert("q", 3);
    c.push(Gate::Cx(q(0), q(2)));
    let t = HardwareTopology::linear(3);
    assert_eq!(try_allocate_qubits(&c, &t), Some(allocate_qubits(&c, &t)));
    let mut bad = Circuit::new("bad");
    bad.qregs.insert("q", 3);
    bad.push(Gate::Swap(q(1), q(1)));
    assert_eq!(try_allocate_qubits(&bad, &t), None);
    let loops = HardwareTopology {
        name: "loop".to_string(),
        qubit_count: 3,
        coupling_map: vec![CouplingEdge { source: 1, target: 1 }],
        native_gates: vec![],
        gate_duration: vec![],
    };
    assert_eq!(try_allocate_qubits(&c, &loops), None);
    assert_eq!(try_allocate_qubits(&c, &HardwareTopology::linear(2)), None);
}
