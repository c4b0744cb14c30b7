use vstd::prelude::*;
use crate::circuit::{count_non_barrier, lemma_counts_bounded};
use crate::gate::{Gate, SpecGate, gates_view, keys_of};
use crate::qubit::{BitKey, QubitRef};

verus! {

/// The layer of the last gate placed on each qubit so far.
pub type LayerMap = Map<BitKey, nat>;

/// The layer of the last gate on qubit `k`, 0 before any.
pub open spec fn layer_of(m: LayerMap, k: BitKey) -> nat {
    if m.contains_key(k) { m[k] } else { 0 }
}

/// The highest layer among the qubits `ks`.
pub open spec fn max_layer(m: LayerMap, ks: Seq<BitKey>) -> nat
    decreases ks.len(),
{
    if ks.len() == 0 {
        0
    } else {
        let a = max_layer(m, ks.drop_last());
        let b = layer_of(m, ks.last());
        if a >= b { a } else { b }
    }
}

/// `m` with each qubit of `ks` placed at layer `l`.
pub open spec fn assign(m: LayerMap, ks: Seq<BitKey>, l: nat) -> LayerMap
    decreases ks.len(),
{
    if ks.len() == 0 {
        m
    } else {
        assign(m, ks.drop_last(), l).insert(ks.last(), l)
    }
}

/// As-soon-as-possible layering of `gs`: each gate goes one layer after the latest
/// earlier gate that shares a qubit with it; barriers and gates on no qubit take no layer.
/// Yields the layer of each qubit's last gate and the highest layer used.
pub open spec fn schedule(gs: Seq<SpecGate>) -> (LayerMap, nat)
    decreases gs.len(),
{
    if gs.len() == 0 {
        (Map::empty(), 0)
    } else {
        let (m, d) = schedule(gs.drop_last());
        let g = gs.last();
        if g is Barrier || g.qubits().len() == 0 {
            (m, d)
        } else {
            let l = max_layer(m, g.qubits()) + 1;
            (assign(m, g.qubits(), l), if l > d { l } else { d })
        }
    }
}

/// Circuit depth: the number of layers in the as-soon-as-possible layering.
pub open spec fn spec_depth(gs: Seq<SpecGate>) -> nat {
    schedule(gs).1
}

proof fn lemma_max_layer_bound(m: LayerMap, ks: Seq<BitKey>, b: nat)
    requires
        forall|k: BitKey| m.contains_key(k) ==> m[k] <= b,
    ensures
        max_layer(m, ks) <= b,
    decreases ks.len(),
{
    if ks.len() > 0 {
        lemma_max_layer_bound(m, ks.drop_last(), b);
    }
}

proof fn lemma_assign_bound(m: LayerMap, ks: Seq<BitKey>, l: nat, b: nat)
    requires
        forall|k: BitKey| m.contains_key(k) ==> m[k] <= b,
        l <= b,
    ensures
        forall|k: BitKey| assign(m, ks, l).contains_key(k) ==> assign(m, ks, l)[k] <= b,
    decreases ks.len(),
{
    if ks.len() > 0 {
        lemma_assign_bound(m, ks.drop_last(), l, b);
        let a = assign(m, ks.drop_last(), l);
        assert forall|k: BitKey| assign(m, ks, l).contains_key(k) implies assign(m, ks, l)[k] <= b by {
            if k != ks.last() {
                assert(a.contains_key(k));
            }
        }
    }
}

/// No qubit's layer, and not the depth, exceeds the number of gates, barriers not counted.
pub proof fn lemma_schedule_bound(gs: Seq<SpecGate>)
    ensures
        schedule(gs).1 <= count_non_barrier(gs),
        schedule(gs).1 <= gs.len(),
        forall|k: BitKey| schedule(gs).0.contains_key(k) ==> schedule(gs).0[k] <= schedule(gs).1,
    decreases gs.len(),
{
    lemma_counts_bounded(gs);
    if gs.len() > 0 {
        let t = gs.drop_last();
        lemma_schedule_bound(t);
        let (m, d) = schedule(t);
        let g = gs.last();
        if !(g is Barrier || g.qubits().len() == 0) {
            lemma_max_layer_bound(m, g.qubits(), d);
            let l = max_layer(m, g.qubits()) + 1;
            let nd = if l > d { l } else { d };
            lemma_assign_bound(m, g.qubits(), l, nd);
        }
    }
}

/// Layers kept per qubit: `keys[i]` was last placed at layer `layers[i]`.
spec fn table_matches(keys: Seq<QubitRef>, layers: Seq<usize>, m: LayerMap) -> bool {
    &&& keys.len() == layers.len()
    &&& forall|i: int, j: int| 0 <= i < keys.len() && 0 <= j < keys.len() && i != j ==> #[trigger] keys[i]@ != #[trigger] keys[j]@
    &&& forall|i: int| 0 <= i < keys.len() ==> m.contains_key(#[trigger] keys[i]@) && m[keys[i]@] == layers[i] as nat
    &&& forall|k: BitKey| m.contains_key(k) ==> exists|i: int| 0 <= i < keys.len() && #[trigger] keys[i]@ == k
}

fn find_key(keys: &Vec<QubitRef>, q: &QubitRef) -> (r: Option<usize>)
    ensures
        r matches Some(i) ==> i < keys@.len() && keys@[i as int]@ == q@,
        r is None ==> forall|i: int| 0 <= i < keys@.len() ==> keys@[i]@ != q@,
{
    let mut i: usize = 0;
    while i < keys.len()
        invariant
            i <= keys.len(),
            forall|j: int| 0 <= j < i ==> keys@[j]@ != q@,
        decreases keys.len() - i,
    {
        if keys[i].same_as(q) {
            return Some(i);
        }
        i += 1;
    }
    None
}

/// Computes circuit depth by critical-path analysis of the dependency graph of gates.
/// Depth = length of the longest chain of gates with data dependencies.
pub fn compute_depth(gates: &[Gate]) -> (d: usize)
    ensures
        d == spec_depth(gates_view(gates@)),
{
    let mut keys: Vec<QubitRef> = Vec::new();
    let mut layers: Vec<usize> = Vec::new();
    let mut max_depth: usize = 0;
    let mut i: usize = 0;
    proof {
        assert(gates_view(gates@.subrange(0, 0)) =~= Seq::<SpecGate>::empty());
    }
    while i < gates.len()
        invariant
            i <= gates@.len(),
            table_matches(keys@, layers@, schedule(gates_view(gates@.subrange(0, i as int))).0),
            max_depth == schedule(gates_view(gates@.subrange(0, i as int))).1,
        decreases gates@.len() - i,
    {
        let ghost prev = gates_view(gates@.subrange(0, i as int));
        let ghost cur = gates_view(gates@.subrange(0, i + 1));
        proof {
            assert(cur.drop_last() =~= prev);
            assert(cur.last() == gates@[i as int]@);
            lemma_schedule_bound(prev);
        }
        let ghost m = schedule(prev).0;
        let gate = &gates[i];
        let is_barrier = match gate {
            Gate::Barrier(_) => true,
            _ => false,
        };
        if !is_barrier {
            let qs = gate.gate_qubits();
            if qs.len() > 0 {
                // This gate goes one layer after the latest of its qubits' gates.
                let mut earliest: usize = 0;
                let mut j: usize = 0;
                while j < qs.len()
                    invariant
                        j <= qs@.len(),
                        table_matches(keys@, layers@, m),
                        earliest == max_layer(m, keys_of(qs@).subrange(0, j as int)),
                        forall|k: BitKey| m.contains_key(k) ==> m[k] <= max_depth,
                        max_depth == schedule(prev).1,
                    decreases qs@.len() - j,
                {
                    proof {
                        assert(keys_of(qs@).subrange(0, j + 1).drop_last() =~= keys_of(qs@).subrange(0, j as int));
                        lemma_max_layer_bound(m, keys_of(qs@).subrange(0, j + 1), max_depth as nat);
                    }
                    match find_key(&keys, &qs[j]) {
                        Some(p) => {
                            if layers[p] > earliest {
                                earliest = layers[p];
                            }
                        },
                        None => {},
                    }
                    j += 1;
                }
                proof {
                    assert(keys_of(qs@).subrange(0, j as int) =~= keys_of(qs@));
                    lemma_schedule_bound(prev);
                    lemma_max_layer_bound(m, keys_of(qs@), max_depth as nat);
                    assert(max_depth <= i);
                }
                let layer = earliest + 1;
                let ghost l = layer as nat;
                let mut k: usize = 0;
                while k < qs.len()
                    invariant
                        k <= qs@.len(),
                        layer == l,
                        table_matches(keys@, layers@, assign(m, keys_of(qs@).subrange(0, k as int), l)),
                    decreases qs@.len() - k,
                {
                    let ghost before = assign(m, keys_of(qs@).subrange(0, k as int), l);
                    proof {
                        assert(keys_of(qs@).subrange(0, k + 1).drop_last() =~= keys_of(qs@).subrange(0, k as int));
                    }
                    let ghost after = assign(m, keys_of(qs@).subrange(0, k + 1), l);
                    match find_key(&keys, &qs[k]) {
                        Some(p) => {
                            layers.set(p, layer);
                            proof {
                                assert forall|k2: BitKey| after.contains_key(k2) implies exists|i2: int| 0 <= i2 < keys@.len() && #[trigger] keys@[i2]@ == k2 by {
                                    if k2 != qs@[k as int]@ {
                                        assert(before.contains_key(k2));
                                    }
                                }
                            }
                        },
                        None => {
                            let ghost old_keys = keys@;
                            keys.push(qs[k].clone());
                            layers.push(layer);
                            proof {
                                let n = keys@.len() - 1;
                                assert(keys@[n]@ == qs@[k as int]@);
                                assert forall|k2: BitKey| after.contains_key(k2) implies exists|i2: int| 0 <= i2 < keys@.len() && #[trigger] keys@[i2]@ == k2 by {
                                    if k2 != qs@[k as int]@ {
                                        assert(before.contains_key(k2));
                                        let i3 = choose|i3: int| 0 <= i3 < old_keys.len() && #[trigger] old_keys[i3]@ == k2;
                                        assert(keys@[i3] == old_keys[i3]);
                                        assert(keys@[i3]@ == k2);
                                    } else {
                                        assert(keys@[n]@ == k2);
                                    }
                                }
                            }
                        },
                    }
                    k += 1;
                }
                proof {
                    assert(keys_of(qs@).subrange(0, k as int) =~= keys_of(qs@));
                }
                if layer > max_depth {
                    max_depth = layer;
                }
            }
        }
        i += 1;
    }
    proof {
        assert(gates@.subrange(0, i as int) =~= gates@);
    }
    max_depth
}

} // verus!
