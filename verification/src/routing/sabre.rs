use vstd::prelude::*;
use vstd::set_lib::lemma_len_subset;
use crate::circuit::{Circuit, count_non_barrier, names_distinct, total_size};
use crate::gate::{Gate, SpecGate, gates_view, keys_of};
use crate::routing::report::RoutingReport;
use crate::qubit::{BitKey, QubitRef};
use crate::routing::allocator::{
    allocation, build_logical_index, index_in, keys_distinct, lemma_allocation_valid, logical_index, logical_keys, no_self_loops,
    pairs_distinct,
};
use crate::routing::topology::{
    CouplingEdge, HardwareTopology, add_new, adjacent, adjacent_to, bfs_order, bfs_path, edge_joins, expand, first_adjacent,
    grid_edges, grid_gap, heavy_hex_edges, level, linear_edges, neighbour_seq, reach, tree_path, universe,
    lemma_add_new, lemma_bfs_order, lemma_expand, lemma_first_adjacent, lemma_grid_distance, lemma_grid_edges_within,
    lemma_heavy_hex_adjacent, lemma_linear_adjacent,
    lemma_linear_reach, lemma_neighbour_seq, lemma_reach_in_universe, lemma_reach_layer, lemma_reach_monotone,
    lemma_reach_stable, lemma_reach_sub,
};

verus! {

broadcast use {vstd::set::group_set_axioms, vstd::seq_lib::group_seq_properties, vstd::seq_lib::seq_to_set_is_finite};

/// Every coupling joins qubits below `n`.
pub open spec fn edges_within(edges: Seq<CouplingEdge>, n: nat) -> bool {
    forall|i: int| 0 <= i < edges.len() ==> (#[trigger] edges[i]).source < n && edges[i].target < n
}

pub proof fn lemma_reach_within(edges: Seq<CouplingEdge>, src: usize, n: nat, k: nat)
    requires
        edges_within(edges, n),
        src < n,
    ensures
        forall|x: usize| reach(edges, src, k).contains(x) ==> x < n,
{
    lemma_reach_in_universe(edges, src, k);
    assert forall|x: usize| reach(edges, src, k).contains(x) implies x < n by {
        let u = universe(edges, src);
        assert(u.to_set().contains(x));
        let i = choose|i: int| 0 <= i < u.len() && u[i] == x;
        if i > 0 && i < 1 + edges.len() {
            assert(edges[i - 1].source == x);
        } else if i >= 1 + edges.len() {
            assert(edges[i - 1 - edges.len()].target == x);
        }
    }
}

/// The number of couplings between `src` and `v`, for a `v` it reaches.
pub open spec fn level_of(edges: Seq<CouplingEdge>, src: usize, v: usize) -> nat {
    choose|k: nat| #[trigger] reach(edges, src, k).contains(v) && (k > 0 ==> !reach(edges, src, (k - 1) as nat).contains(v))
}

/// Each discovered qubit's recorded predecessor is the first qubit of the level before
/// its own that is coupled to it; `src` has none, and undiscovered qubits have none.
spec fn tree_facts(edges: Seq<CouplingEdge>, src: usize, n: nat, visited: Seq<bool>, prev: Seq<Option<usize>>) -> bool {
    &&& visited.len() == n
    &&& prev.len() == n
    &&& forall|v: int| 0 <= v < n && visited[v] && v != src
        ==> #[trigger] prev[v] == first_adjacent(edges, bfs_order(edges, src, (level_of(edges, src, v as usize) - 1) as nat), v as usize)
    &&& src < n ==> prev[src as int] is None
    &&& forall|v: int| 0 <= v < n && !visited[v] ==> prev[v] is None
}

proof fn lemma_level_of(edges: Seq<CouplingEdge>, src: usize, v: usize, k: nat)
    requires
        reach(edges, src, k).contains(v),
        k > 0 ==> !reach(edges, src, (k - 1) as nat).contains(v),
    ensures
        level_of(edges, src, v) == k,
        reach(edges, src, level_of(edges, src, v)).contains(v),
{
    let l = level_of(edges, src, v);
    lemma_level_unique(edges, src, v, l, k);
}

/// The level of a qubit is determined: it is the first step that reaches it.
proof fn lemma_level_unique(edges: Seq<CouplingEdge>, src: usize, v: usize, a: nat, b: nat)
    requires
        reach(edges, src, a).contains(v),
        a > 0 ==> !reach(edges, src, (a - 1) as nat).contains(v),
        reach(edges, src, b).contains(v),
        b > 0 ==> !reach(edges, src, (b - 1) as nat).contains(v),
    ensures
        a == b,
{
    if a < b {
        lemma_reach_monotone(edges, src, a, (b - 1) as nat);
    } else if b < a {
        lemma_reach_monotone(edges, src, b, (a - 1) as nat);
    }
}

/// The first qubit of a level coupled to a qubit of the next level exists and lies in that level.
proof fn lemma_parent(edges: Seq<CouplingEdge>, src: usize, v: usize, k: nat)
    requires
        reach(edges, src, k + 1).contains(v),
        !reach(edges, src, k).contains(v),
    ensures
        first_adjacent(edges, bfs_order(edges, src, k), v) matches Some(u)
            && reach(edges, src, k).contains(u)
            && (k > 0 ==> !reach(edges, src, (k - 1) as nat).contains(u))
            && adjacent(edges, u, v),
{
    lemma_reach_layer(edges, src, k);
    lemma_bfs_order(edges, src, k);
    let o = bfs_order(edges, src, k);
    assert(adjacent_to(edges, level(edges, src, k)).contains(v));
    let y = choose|y: usize| level(edges, src, k).contains(y) && #[trigger] adjacent(edges, y, v);
    assert(o.to_set().contains(y));
    let a0 = choose|i: int| 0 <= i < o.len() && o[i] == y;
    lemma_first_index(edges, o, v, a0);
}

/// Some qubit of `us` coupled to `v` makes `first_adjacent` one of `us`, coupled to `v`.
proof fn lemma_first_index(edges: Seq<CouplingEdge>, us: Seq<usize>, v: usize, a: int)
    requires
        0 <= a < us.len(),
        adjacent(edges, us[a], v),
    ensures
        first_adjacent(edges, us, v) matches Some(u) && us.contains(u) && adjacent(edges, u, v),
    decreases a,
{
    if !adjacent(edges, us[0], v) {
        let t = us.drop_first();
        assert(t[a - 1] == us[a]);
        lemma_first_index(edges, t, v, a - 1);
        let u = first_adjacent(edges, t, v)->0;
        let i = choose|i: int| 0 <= i < t.len() && t[i] == u;
        assert(us[i + 1] == u);
    } else {
        assert(us[0] == us[0]);
    }
}

proof fn lemma_prefix_step(us: Seq<usize>, a: int)
    requires
        0 <= a < us.len(),
    ensures
        us.subrange(0, a + 1).drop_last() == us.subrange(0, a),
        us.subrange(0, a + 1).last() == us[a],
{
    assert(us.subrange(0, a + 1).drop_last() =~= us.subrange(0, a));
}

/// One level of breadth-first search: discovers the qubits one coupling away from the
/// qubits `frontier` (level `d`), recording for each the first qubit that discovered it.
fn bfs_level(
    topology: &HardwareTopology,
    src: usize,
    frontier: &Vec<usize>,
    visited: &mut Vec<bool>,
    prev: &mut Vec<Option<usize>>,
    Ghost(d): Ghost<nat>,
) -> (next: Vec<usize>)
    requires
        src < topology.qubit_count,
        edges_within(topology.coupling_map@, topology.qubit_count as nat),
        tree_facts(topology.coupling_map@, src, topology.qubit_count as nat, old(visited)@, old(prev)@),
        forall|v: int| 0 <= v < topology.qubit_count ==> (old(visited)@[v] <==> reach(topology.coupling_map@, src, d).contains(v as usize)),
        frontier@ == bfs_order(topology.coupling_map@, src, d),
    ensures
        next@ == bfs_order(topology.coupling_map@, src, d + 1),
        tree_facts(topology.coupling_map@, src, topology.qubit_count as nat, final(visited)@, final(prev)@),
        forall|v: int| 0 <= v < topology.qubit_count ==> (final(visited)@[v] <==> reach(topology.coupling_map@, src, d + 1).contains(v as usize)),
{
    let ghost edges = topology.coupling_map@;
    let n = topology.qubit_count;
    let ghost r = reach(edges, src, d);
    proof {
        lemma_reach_layer(edges, src, d);
        lemma_reach_within(edges, src, n as nat, d);
        lemma_reach_within(edges, src, n as nat, d + 1);
        lemma_reach_monotone(edges, src, d, d + 1);
        lemma_bfs_order(edges, src, d);
        lemma_expand(edges, r, frontier@);
    }
    let mut next: Vec<usize> = Vec::new();
    let mut a: usize = 0;
    while a < frontier.len()
        invariant
            edges == topology.coupling_map@,
            n == topology.qubit_count,
            src < n,
            edges_within(edges, n as nat),
            r == reach(edges, src, d),
            a <= frontier@.len(),
            frontier@ == bfs_order(edges, src, d),
            frontier@.to_set() == level(edges, src, d),
            reach(edges, src, d + 1) == r.union(adjacent_to(edges, level(edges, src, d))),
            forall|x: usize| #[trigger] reach(edges, src, d + 1).contains(x) ==> x < n,
            forall|x: usize| #[trigger] r.contains(x) ==> x < n,
            r.subset_of(reach(edges, src, d + 1)),
            next@ == expand(edges, r, frontier@.subrange(0, a as int)),
            tree_facts(edges, src, n as nat, visited@, prev@),
            forall|v: int| 0 <= v < n ==> (visited@[v] <==> (r.contains(v as usize) || next@.contains(v as usize))),
        decreases frontier@.len() - a,
    {
        let node = frontier[a];
        let nbs = topology.neighbours(node);
        let ghost pre = frontier@.subrange(0, a as int);
        proof {
            lemma_neighbour_seq(edges, node);
            lemma_expand(edges, r, pre);
            assert(frontier@.to_set().contains(node));
            lemma_prefix_step(frontier@, a as int);
        }
        let mut b: usize = 0;
        while b < nbs.len()
            invariant
                edges == topology.coupling_map@,
                n == topology.qubit_count,
                src < n,
                edges_within(edges, n as nat),
                r == reach(edges, src, d),
                a < frontier@.len(),
                node == frontier@[a as int],
                pre == frontier@.subrange(0, a as int),
                frontier@ == bfs_order(edges, src, d),
                level(edges, src, d).contains(node),
                nbs@ == neighbour_seq(edges, node),
                forall|x: usize| nbs@.contains(x) <==> adjacent(edges, node, x),
                reach(edges, src, d + 1) == r.union(adjacent_to(edges, level(edges, src, d))),
                forall|x: usize| #[trigger] reach(edges, src, d + 1).contains(x) ==> x < n,
                forall|x: usize| #[trigger] expand(edges, r, pre).contains(x)
                    <==> (!r.contains(x) && exists|j: int| 0 <= j < pre.len() && #[trigger] adjacent(edges, pre[j], x)),
                next@ == add_new(expand(edges, r, pre), nbs@.subrange(0, b as int), r),
                tree_facts(edges, src, n as nat, visited@, prev@),
                forall|v: int| 0 <= v < n ==> (visited@[v] <==> (r.contains(v as usize) || next@.contains(v as usize))),
                b <= nbs@.len(),
            decreases nbs@.len() - b,
        {
            let nb = nbs[b];
            proof {
                assert(nbs@.contains(nb));
                assert(adjacent(edges, node, nb));
                assert(adjacent_to(edges, level(edges, src, d)).contains(nb));
                assert(reach(edges, src, d + 1).contains(nb));
                assert(nbs@.subrange(0, b + 1).drop_last() =~= nbs@.subrange(0, b as int));
                assert(nbs@.subrange(0, b + 1).last() == nb);
            }
            if !visited[nb] {
                proof {
                    assert(!r.contains(nb));
                    assert(!next@.contains(nb));
                    lemma_add_new(expand(edges, r, pre), nbs@.subrange(0, b as int), r);
                    assert(!expand(edges, r, pre).contains(nb));
                    assert forall|j: int| 0 <= j < a implies !adjacent(edges, #[trigger] frontier@[j], nb) by {
                        assert(pre[j] == frontier@[j]);
                        if adjacent(edges, frontier@[j], nb) {
                            assert(adjacent(edges, pre[j], nb));
                        }
                    }
                    lemma_first_adjacent(edges, frontier@, nb, a as int);
                    lemma_level_of(edges, src, nb, d + 1);
                    assert(nb != src) by {
                        assert(reach(edges, src, 0).contains(src));
                        lemma_reach_monotone(edges, src, 0, d);
                    }
                }
                visited.set(nb, true);
                prev.set(nb, Some(node));
                let ghost old_next = next@;
                next.push(nb);
                proof {
                    assert forall|y: usize| next@.contains(y) <==> (old_next.contains(y) || y == nb) by {
                        if next@.contains(y) {
                            let i = choose|i: int| 0 <= i < next@.len() && next@[i] == y;
                            if i < old_next.len() {
                                assert(old_next[i] == y);
                            }
                        }
                        if old_next.contains(y) {
                            let i = choose|i: int| 0 <= i < old_next.len() && old_next[i] == y;
                            assert(next@[i] == y);
                        }
                        if y == nb {
                            assert(next@[old_next.len() as int] == y);
                        }
                    }
                }
            }
            b += 1;
        }
        proof {
            assert(nbs@.subrange(0, b as int) =~= nbs@);
            assert(frontier@.subrange(0, a + 1).drop_last() =~= pre);
            assert(frontier@.subrange(0, a + 1).last() == node);
        }
        a += 1;
    }
    proof {
        assert(frontier@.subrange(0, a as int) =~= frontier@);
        assert(next@ == bfs_order(edges, src, d + 1));
        lemma_bfs_order(edges, src, d + 1);
        assert forall|x: usize| (r.contains(x) || next@.contains(x)) <==> reach(edges, src, d + 1).contains(x) by {
            if next@.contains(x) {
                assert(next@.to_set().contains(x));
                assert(level(edges, src, d + 1).contains(x));
            }
            if reach(edges, src, d + 1).contains(x) && !r.contains(x) {
                assert(level(edges, src, d + 1).contains(x));
                assert(next@.to_set().contains(x));
            }
        }
    }
    next
}

/// Breadth-first search from `src`, level by level, until `dst` is discovered or no new
/// qubit is. Yields which qubits were discovered, their predecessors, and the last level.
fn bfs_tree(topology: &HardwareTopology, src: usize, dst: usize) -> (r: (Vec<bool>, Vec<Option<usize>>, Ghost<nat>))
    requires
        src < topology.qubit_count,
        dst < topology.qubit_count,
        src != dst,
        edges_within(topology.coupling_map@, topology.qubit_count as nat),
        topology.coupling_map@.len() < usize::MAX / 2,
    ensures
        tree_facts(topology.coupling_map@, src, topology.qubit_count as nat, r.0@, r.1@),
        forall|v: int| 0 <= v < topology.qubit_count ==> (r.0@[v] <==> reach(topology.coupling_map@, src, r.2@).contains(v as usize)),
        !r.0@[dst as int] ==> forall|k: nat| !(#[trigger] reach(topology.coupling_map@, src, k)).contains(dst),
{
    let ghost edges = topology.coupling_map@;
    let n = topology.qubit_count;
    let mut prev: Vec<Option<usize>> = Vec::new();
    let mut visited: Vec<bool> = Vec::new();
    let mut t: usize = 0;
    while t < n
        invariant
            t <= n,
            prev@.len() == t,
            visited@.len() == t,
            forall|v: int| 0 <= v < t ==> !visited@[v],
            forall|v: int| 0 <= v < t ==> prev@[v] is None,
        decreases n - t,
    {
        let ghost (p0, v0) = (prev@, visited@);
        prev.push(None);
        visited.push(false);
        proof {
            assert forall|v: int| 0 <= v < t + 1 implies !visited@[v] by {
                if v < t {
                    assert(visited@[v] == v0[v]);
                }
            }
            assert forall|v: int| 0 <= v < t + 1 implies prev@[v] is None by {
                if v < t {
                    assert(prev@[v] == p0[v]);
                }
            }
        }
        t += 1;
    }
    visited.set(src, true);
    proof {
        assert forall|v: int| 0 <= v < n && !visited@[v] implies prev@[v] is None by {
            assert(v != src);
        }
        assert forall|v: int| 0 <= v < n && visited@[v] implies v == src by {}
        assert(forall|v: int| 0 <= v < n && visited@[v] && v != src
            ==> #[trigger] prev@[v] == first_adjacent(edges, bfs_order(edges, src, (level_of(edges, src, v as usize) - 1) as nat), v as usize));
        assert(tree_facts(edges, src, n as nat, visited@, prev@));
    }
    let ghost u = universe(edges, src);
    let ghost mut all: Seq<usize> = seq![src];
    let mut frontier: Vec<usize> = Vec::new();
    frontier.push(src);
    let mut d: usize = 0;
    proof {
        u.lemma_cardinality_of_set();
        assert(frontier@ =~= bfs_order(edges, src, 0));
        assert(all.to_set() =~= reach(edges, src, 0));
        assert forall|v: int| 0 <= v < n implies (visited@[v] <==> v == src) by {}
    }
    let ghost mut dfin: nat = 0;
    loop
        invariant_except_break
            forall|v: int| 0 <= v < n ==> (visited@[v] <==> reach(edges, src, d as nat).contains(v as usize)),
            frontier@ == bfs_order(edges, src, d as nat),
            all.to_set() == reach(edges, src, d as nat),
            all.no_duplicates(),
            !reach(edges, src, d as nat).contains(dst),
            d < all.len(),
        invariant
            edges == topology.coupling_map@,
            n == topology.qubit_count,
            src < n,
            dst < n,
            src != dst,
            edges_within(edges, n as nat),
            edges.len() < usize::MAX / 2,
            u == universe(edges, src),
            u.to_set().len() <= u.len(),
            u.len() == 2 * edges.len() + 1,
            tree_facts(edges, src, n as nat, visited@, prev@),
        ensures
            forall|v: int| 0 <= v < n ==> (visited@[v] <==> reach(edges, src, dfin).contains(v as usize)),
            !visited@[dst as int] ==> forall|k: nat| !(#[trigger] reach(edges, src, k)).contains(dst),
        decreases u.len() - all.len(),
    {
        let ghost r = reach(edges, src, d as nat);
        let ghost all0 = all;
        let next = bfs_level(topology, src, &frontier, &mut visited, &mut prev, Ghost(d as nat));
        proof {
            lemma_bfs_order(edges, src, d as nat + 1);
            lemma_reach_in_universe(edges, src, d as nat + 1);
            lemma_reach_monotone(edges, src, d as nat, d as nat + 1);
            all = all0 + next@;
            assert forall|x: usize| all.to_set().contains(x) <==> reach(edges, src, d as nat + 1).contains(x) by {
                if all.to_set().contains(x) {
                    let i = choose|i: int| 0 <= i < all.len() && all[i] == x;
                    if i < all0.len() {
                        assert(all0[i] == x);
                        assert(all0.to_set().contains(x));
                    } else {
                        assert(next@[i - all0.len()] == x);
                        assert(next@.to_set().contains(x));
                    }
                }
                if reach(edges, src, d as nat + 1).contains(x) {
                    if r.contains(x) {
                        assert(all0.to_set().contains(x));
                        let i = choose|i: int| 0 <= i < all0.len() && all0[i] == x;
                        assert(all[i] == x);
                    } else {
                        assert(level(edges, src, d as nat + 1).contains(x));
                        assert(next@.to_set().contains(x));
                        let i = choose|i: int| 0 <= i < next@.len() && next@[i] == x;
                        assert(all[all0.len() + i] == x);
                    }
                }
            }
            assert(all.to_set() =~= reach(edges, src, d as nat + 1));
            assert(all.no_duplicates()) by {
                assert forall|i: int, j: int| 0 <= i < all.len() && 0 <= j < all.len() && i != j implies all[i] != all[j] by {
                    if i < all0.len() && j >= all0.len() {
                        assert(all0.to_set().contains(all[i]));
                        assert(next@.to_set().contains(all[j]));
                    } else if j < all0.len() && i >= all0.len() {
                        assert(all0.to_set().contains(all[j]));
                        assert(next@.to_set().contains(all[i]));
                    } else if i >= all0.len() && j >= all0.len() {
                        assert(all[i] == next@[i - all0.len()]);
                        assert(all[j] == next@[j - all0.len()]);
                    } else {
                        assert(all[i] == all0[i]);
                        assert(all[j] == all0[j]);
                    }
                }
            }
            lemma_len_subset(all.to_set(), u.to_set());
            all.unique_seq_to_set();
        }
        if visited[dst] {
            proof {
                dfin = d as nat + 1;
            }
            break;
        }
        if next.len() == 0 {
            proof {
                dfin = d as nat + 1;
                assert(reach(edges, src, d as nat + 1) =~= reach(edges, src, d as nat)) by {
                    assert forall|x: usize| reach(edges, src, d as nat + 1).contains(x) implies r.contains(x) by {
                        if !r.contains(x) {
                            assert(level(edges, src, d as nat + 1).contains(x));
                            assert(next@.to_set().contains(x));
                        }
                    }
                }
                assert forall|k: nat| !(#[trigger] reach(edges, src, k)).contains(dst) by {
                    if k <= d {
                        lemma_reach_monotone(edges, src, k, d as nat);
                    } else {
                        lemma_reach_stable(edges, src, d as nat, k);
                    }
                }
            }
            break;
        }
        frontier = next;
        d += 1;
    }
    (visited, prev, Ghost(dfin))
}

/// The path breadth-first search finds from `src` to `dst`, following for each qubit the
/// first qubit that discovered it.
#[verifier::spinoff_prover]
#[verifier::rlimit(40)]
pub fn shortest_path(topology: &HardwareTopology, src: usize, dst: usize) -> (path: Vec<usize>)
    requires
        src < topology.qubit_count,
        dst < topology.qubit_count,
        edges_within(topology.coupling_map@, topology.qubit_count as nat),
        topology.coupling_map@.len() < usize::MAX / 2,
    ensures
        path@ == bfs_path(topology.coupling_map@, src, dst),
{
    let ghost edges = topology.coupling_map@;
    let n = topology.qubit_count;
    if src == dst {
        proof {
            lemma_path_found(edges, src, src, 0);
            lemma_level_of(edges, src, src, 0);
        }
        let mut p: Vec<usize> = Vec::new();
        p.push(src);
        proof { assert(p@ =~= seq![src]); }
        return p;
    }
    let (visited, prev, Ghost(dfin)) = bfs_tree(topology, src, dst);
    // Follow the recorded predecessors back from `dst`.
    let ghost big_l = level_of(edges, src, dst);
    let mut rev: Vec<usize> = Vec::new();
    let mut cur = dst;
    let ghost mut tail: Seq<usize> = Seq::empty();
    proof {
        if visited@[dst as int] {
            assert(tree_path(edges, src, dst, big_l) =~= tree_path(edges, src, cur, level_of(edges, src, cur)) + tail);
        }
    }
    loop
        invariant
            edges == topology.coupling_map@,
            n == topology.qubit_count,
            src < n,
            dst < n,
            cur < n,
            src != dst,
            edges_within(edges, n as nat),
            tree_facts(edges, src, n as nat, visited@, prev@),
            forall|v: int| 0 <= v < n ==> (visited@[v] <==> reach(edges, src, dfin).contains(v as usize)),
            big_l == level_of(edges, src, dst),
            visited@[dst as int] ==> visited@[cur as int],
            visited@[dst as int] ==> tree_path(edges, src, dst, big_l) == tree_path(edges, src, cur, level_of(edges, src, cur)) + tail,
            !visited@[dst as int] ==> cur == dst && tail.len() == 0,
            rev@ == tail.reverse(),
        ensures
            visited@[dst as int] ==> cur == src,
            visited@[dst as int] ==> tree_path(edges, src, dst, big_l) == tree_path(edges, src, cur, level_of(edges, src, cur)) + tail,
            !visited@[dst as int] ==> cur == dst && tail.len() == 0,
            rev@ == tail.reverse(),
        decreases level_of(edges, src, cur),
    {
        match prev[cur] {
            Some(p) => {
                proof {
                    lemma_walk_step(edges, src, n as nat, visited@, prev@, dfin, cur, p);
                    assert(tree_path(edges, src, p, level_of(edges, src, p)).push(cur) + tail
                        =~= tree_path(edges, src, p, level_of(edges, src, p)) + seq![cur].add(tail));
                    assert(rev@.push(cur) =~= (seq![cur].add(tail)).reverse());
                    tail = seq![cur].add(tail);
                }
                rev.push(cur);
                cur = p;
            },
            None => {
                proof {
                    if visited@[dst as int] && cur != src {
                        lemma_first_level(edges, src, cur, dfin);
                        let lc = level_of(edges, src, cur);
                        if lc == 0 {
                            assert(reach(edges, src, 0).contains(cur));
                        } else {
                            lemma_parent(edges, src, cur, (lc - 1) as nat);
                        }
                    }
                }
                break;
            },
        }
    }
    let mut path: Vec<usize> = Vec::new();
    path.push(src);
    let mut i = rev.len();
    while i > 0
        invariant
            i <= rev@.len(),
            rev@ == tail.reverse(),
            path@ == seq![src] + tail.subrange(0, (rev@.len() - i) as int),
        decreases i,
    {
        i -= 1;
        path.push(rev[i]);
        proof {
            assert(tail[(rev@.len() - i - 1) as int] == rev@[i as int]);
            assert(path@ =~= seq![src] + tail.subrange(0, (rev@.len() - i) as int));
        }
    }
    proof {
        assert(tail.subrange(0, tail.len() as int) =~= tail);
        if visited@[dst as int] {
            lemma_level_of(edges, src, src, 0);
            assert(tree_path(edges, src, cur, 0) == seq![src]);
            lemma_path_found(edges, src, dst, dfin);
        } else {
            assert(tail =~= Seq::<usize>::empty());
        }
        assert(path@ =~= bfs_path(edges, src, dst));
    }
    path
}

/// Following one recorded predecessor: it is discovered, one level nearer `src`, and the
/// tree path to the current qubit extends the tree path to it.
proof fn lemma_walk_step(
    edges: Seq<CouplingEdge>,
    src: usize,
    n: nat,
    visited: Seq<bool>,
    prev: Seq<Option<usize>>,
    dfin: nat,
    cur: usize,
    p: usize,
)
    requires
        src < n,
        cur < n,
        edges_within(edges, n),
        tree_facts(edges, src, n, visited, prev),
        forall|v: int| 0 <= v < n ==> (visited[v] <==> reach(edges, src, dfin).contains(v as usize)),
        prev[cur as int] == Some(p),
    ensures
        p < n,
        visited[p as int],
        level_of(edges, src, p) < level_of(edges, src, cur),
        tree_path(edges, src, cur, level_of(edges, src, cur))
            == tree_path(edges, src, p, level_of(edges, src, p)).push(cur),
{
    let lc = level_of(edges, src, cur);
    assert(visited[cur as int]);
    assert(cur != src);
    assert(reach(edges, src, dfin).contains(cur));
    lemma_first_level(edges, src, cur, dfin);
    if lc == 0 {
        assert(reach(edges, src, 0).contains(cur));
    }
    lemma_parent(edges, src, cur, (lc - 1) as nat);
    lemma_reach_within(edges, src, n, (lc - 1) as nat);
    lemma_level_of(edges, src, p, (lc - 1) as nat);
    lemma_reach_monotone(edges, src, (lc - 1) as nat, dfin);
    assert(visited[p as int]);
}

/// For a qubit that some step reaches, the path is the tree path from its own level.
proof fn lemma_path_found(edges: Seq<CouplingEdge>, src: usize, dst: usize, k: nat)
    requires
        reach(edges, src, k).contains(dst),
    ensures
        bfs_path(edges, src, dst) == tree_path(edges, src, dst, level_of(edges, src, dst)),
{
    lemma_first_level(edges, src, dst, k);
    let l = level_of(edges, src, dst);
    assert forall|j: nat| j < l implies !(#[trigger] reach(edges, src, j)).contains(dst) by {
        lemma_reach_monotone(edges, src, j, (l - 1) as nat);
    }
    let d0 = choose|d0: nat| reach(edges, src, d0).contains(dst) && forall|j: nat| j < d0 ==> !(#[trigger] reach(edges, src, j)).contains(dst);
    assert(reach(edges, src, d0).contains(dst));
    if d0 > 0 {
        assert(!reach(edges, src, (d0 - 1) as nat).contains(dst));
    }
    lemma_level_unique(edges, src, dst, d0, l);
}

/// A qubit some step reaches has a first level, at or below that step.
proof fn lemma_first_level(edges: Seq<CouplingEdge>, src: usize, v: usize, k: nat)
    requires
        reach(edges, src, k).contains(v),
    ensures
        reach(edges, src, level_of(edges, src, v)).contains(v),
        level_of(edges, src, v) > 0 ==> !reach(edges, src, (level_of(edges, src, v) - 1) as nat).contains(v),
        level_of(edges, src, v) <= k,
        exists|j: nat| #[trigger] reach(edges, src, j).contains(v) && (j > 0 ==> !reach(edges, src, (j - 1) as nat).contains(v)),
    decreases k,
{
    if k > 0 && reach(edges, src, (k - 1) as nat).contains(v) {
        lemma_first_level(edges, src, v, (k - 1) as nat);
    } else {
        lemma_level_of(edges, src, v, k);
    }
}

/// `first_adjacent` picks one of the qubits it searches.
proof fn lemma_first_adjacent_in(edges: Seq<CouplingEdge>, us: Seq<usize>, v: usize)
    ensures
        first_adjacent(edges, us, v) matches Some(u) ==> us.contains(u),
    decreases us.len(),
{
    if us.len() > 0 && !adjacent(edges, us[0], v) {
        let t = us.drop_first();
        lemma_first_adjacent_in(edges, t, v);
        if let Some(u) = first_adjacent(edges, t, v) {
            let i = choose|i: int| 0 <= i < t.len() && t[i] == u;
            assert(us[i + 1] == u);
        }
    } else if us.len() > 0 {
        assert(us[0] == us[0]);
    }
}

/// Every qubit on a tree path lies below `n`.
proof fn lemma_tree_path_within(edges: Seq<CouplingEdge>, src: usize, v: usize, k: nat, n: nat)
    requires
        edges_within(edges, n),
        src < n,
        v < n,
    ensures
        forall|i: int| 0 <= i < tree_path(edges, src, v, k).len() ==> #[trigger] tree_path(edges, src, v, k)[i] < n,
    decreases k,
{
    if k > 0 {
        let o = bfs_order(edges, src, (k - 1) as nat);
        lemma_first_adjacent_in(edges, o, v);
        if let Some(u) = first_adjacent(edges, o, v) {
            lemma_bfs_order(edges, src, (k - 1) as nat);
            lemma_reach_layer(edges, src, (k - 1) as nat);
            lemma_reach_within(edges, src, n, (k - 1) as nat);
            assert(o.to_set().contains(u));
            lemma_tree_path_within(edges, src, u, (k - 1) as nat, n);
            let p = tree_path(edges, src, u, (k - 1) as nat);
            assert forall|i: int| 0 <= i < p.push(v).len() implies #[trigger] p.push(v)[i] < n by {
                if i < p.len() {
                    assert(p.push(v)[i] == p[i]);
                }
            }
        }
    }
}

/// Every qubit on the path breadth-first search finds lies below `n`.
pub proof fn lemma_bfs_path_within(edges: Seq<CouplingEdge>, src: usize, dst: usize, n: nat)
    requires
        edges_within(edges, n),
        src < n,
        dst < n,
    ensures
        forall|i: int| 0 <= i < bfs_path(edges, src, dst).len() ==> #[trigger] bfs_path(edges, src, dst)[i] < n,
        bfs_path(edges, src, dst).len() >= 1,
        bfs_path(edges, src, dst)[0] == src,
{
    if exists|k: nat| #[trigger] reach(edges, src, k).contains(dst) {
        let d = choose|d: nat| reach(edges, src, d).contains(dst) && forall|k: nat| k < d ==> !(#[trigger] reach(edges, src, k)).contains(dst);
        lemma_tree_path_within(edges, src, dst, d, n);
        lemma_tree_path_start(edges, src, dst, d);
    }
}

/// A tree path starts at `src`.
proof fn lemma_tree_path_start(edges: Seq<CouplingEdge>, src: usize, v: usize, k: nat)
    ensures
        tree_path(edges, src, v, k).len() >= 1,
        tree_path(edges, src, v, k)[0] == src,
    decreases k,
{
    if k > 0 {
        if let Some(u) = first_adjacent(edges, bfs_order(edges, src, (k - 1) as nat), v) {
            lemma_tree_path_start(edges, src, u, (k - 1) as nat);
        }
    }
}

/// Physical qubit `p`, as a qubit of the routed circuit's single register `q`.
pub open spec fn phys_key(p: usize) -> BitKey {
    (seq!['q'], p)
}

/// The logical index of qubit `k`: its position among `keys`, or `dflt` when it has none.
pub open spec fn logical_or(keys: Seq<BitKey>, k: BitKey, dflt: int) -> int {
    match index_in(keys, k) {
        Some(i) => i,
        None => dflt,
    }
}

/// Where remapping sends qubit `k`: the physical qubit its logical index is mapped to, or,
/// past the end of the mapping, the physical qubit with that number.
pub open spec fn remap_key(keys: Seq<BitKey>, l2p: Seq<usize>, k: BitKey) -> BitKey {
    let l = logical_or(keys, k, 0);
    if l < l2p.len() {
        phys_key(l2p[l])
    } else {
        phys_key(l as usize)
    }
}

/// A gate with each of its qubits remapped; bits, angles and names unchanged.
pub open spec fn remap_spec(g: SpecGate, keys: Seq<BitKey>, l2p: Seq<usize>) -> SpecGate {
    let f = |k: BitKey| remap_key(keys, l2p, k);
    match g {
        SpecGate::H(q) => SpecGate::H(f(q)),
        SpecGate::X(q) => SpecGate::X(f(q)),
        SpecGate::Y(q) => SpecGate::Y(f(q)),
        SpecGate::Z(q) => SpecGate::Z(f(q)),
        SpecGate::S(q) => SpecGate::S(f(q)),
        SpecGate::Sdg(q) => SpecGate::Sdg(f(q)),
        SpecGate::T(q) => SpecGate::T(f(q)),
        SpecGate::Tdg(q) => SpecGate::Tdg(f(q)),
        SpecGate::Sx(q) => SpecGate::Sx(f(q)),
        SpecGate::Sxdg(q) => SpecGate::Sxdg(f(q)),
        SpecGate::Rx(a, q) => SpecGate::Rx(a, f(q)),
        SpecGate::Ry(a, q) => SpecGate::Ry(a, f(q)),
        SpecGate::Rz(a, q) => SpecGate::Rz(a, f(q)),
        SpecGate::U1(a, q) => SpecGate::U1(a, f(q)),
        SpecGate::U2(a, b, q) => SpecGate::U2(a, b, f(q)),
        SpecGate::U3(a, b, c, q) => SpecGate::U3(a, b, c, f(q)),
        SpecGate::Cx(a, b) => SpecGate::Cx(f(a), f(b)),
        SpecGate::Cz(a, b) => SpecGate::Cz(f(a), f(b)),
        SpecGate::Swap(a, b) => SpecGate::Swap(f(a), f(b)),
        SpecGate::Ccx(a, b, c) => SpecGate::Ccx(f(a), f(b), f(c)),
        SpecGate::Measure(q, c) => SpecGate::Measure(f(q), c),
        SpecGate::Barrier(qs) => SpecGate::Barrier(qs.map_values(f)),
        SpecGate::Reset(q) => SpecGate::Reset(f(q)),
        SpecGate::Custom { name, params, qubits } => SpecGate::Custom { name, params, qubits: qubits.map_values(f) },
    }
}

/// The reference to physical qubit `p`.
fn phys_qubit_ref(p: usize) -> (q: QubitRef)
    ensures
        q@ == phys_key(p),
{
    let q = QubitRef::new("q", p);
    proof {
        reveal_strlit("q");
    }
    q
}

/// Qubit `q` remapped through the logical-to-physical mapping `l2p`.
fn remap_qubit(q: &QubitRef, l2p: &Vec<usize>, keys: &Vec<QubitRef>) -> (r: QubitRef)
    requires
        keys_distinct(keys_of(keys@)),
    ensures
        r@ == remap_key(keys_of(keys@), l2p@, q@),
{
    let l = match logical_index(keys, q) {
        Some(i) => i,
        None => 0,
    };
    let p = if l < l2p.len() { l2p[l] } else { l };
    phys_qubit_ref(p)
}

/// Each qubit of `qs` remapped through `l2p`.
fn remap_qubits(qs: &Vec<QubitRef>, l2p: &Vec<usize>, keys: &Vec<QubitRef>) -> (r: Vec<QubitRef>)
    requires
        keys_distinct(keys_of(keys@)),
    ensures
        keys_of(r@) == keys_of(qs@).map_values(|k: BitKey| remap_key(keys_of(keys@), l2p@, k)),
{
    let mut r: Vec<QubitRef> = Vec::new();
    let mut i: usize = 0;
    while i < qs.len()
        invariant
            i <= qs@.len(),
            keys_distinct(keys_of(keys@)),
            r@.len() == i,
            forall|j: int| 0 <= j < i ==> (#[trigger] r@[j])@ == remap_key(keys_of(keys@), l2p@, qs@[j]@),
        decreases qs@.len() - i,
    {
        let q = remap_qubit(&qs[i], l2p, keys);
        r.push(q);
        i += 1;
    }
    proof {
        assert(keys_of(r@) =~= keys_of(qs@).map_values(|k: BitKey| remap_key(keys_of(keys@), l2p@, k)));
    }
    r
}

/// `gate` with each of its qubits remapped through `l2p`.
fn remap_gate(gate: &Gate, l2p: &Vec<usize>, keys: &Vec<QubitRef>) -> (r: Gate)
    requires
        keys_distinct(keys_of(keys@)),
    ensures
        r@ == remap_spec(gate@, keys_of(keys@), l2p@),
{
    match gate {
        Gate::H(q) => Gate::H(remap_qubit(q, l2p, keys)),
        Gate::X(q) => Gate::X(remap_qubit(q, l2p, keys)),
        Gate::Y(q) => Gate::Y(remap_qubit(q, l2p, keys)),
        Gate::Z(q) => Gate::Z(remap_qubit(q, l2p, keys)),
        Gate::S(q) => Gate::S(remap_qubit(q, l2p, keys)),
        Gate::Sdg(q) => Gate::Sdg(remap_qubit(q, l2p, keys)),
        Gate::T(q) => Gate::T(remap_qubit(q, l2p, keys)),
        Gate::Tdg(q) => Gate::Tdg(remap_qubit(q, l2p, keys)),
        Gate::Sx(q) => Gate::Sx(remap_qubit(q, l2p, keys)),
        Gate::Sxdg(q) => Gate::Sxdg(remap_qubit(q, l2p, keys)),
        Gate::Rx(a, q) => Gate::Rx(*a, remap_qubit(q, l2p, keys)),
        Gate::Ry(a, q) => Gate::Ry(*a, remap_qubit(q, l2p, keys)),
        Gate::Rz(a, q) => Gate::Rz(*a, remap_qubit(q, l2p, keys)),
        Gate::U1(a, q) => Gate::U1(*a, remap_qubit(q, l2p, keys)),
        Gate::U2(a, b, q) => Gate::U2(*a, *b, remap_qubit(q, l2p, keys)),
        Gate::U3(a, b, c, q) => Gate::U3(*a, *b, *c, remap_qubit(q, l2p, keys)),
        Gate::Cx(c, t) => Gate::Cx(remap_qubit(c, l2p, keys), remap_qubit(t, l2p, keys)),
        Gate::Cz(c, t) => Gate::Cz(remap_qubit(c, l2p, keys), remap_qubit(t, l2p, keys)),
        Gate::Swap(a, b) => Gate::Swap(remap_qubit(a, l2p, keys), remap_qubit(b, l2p, keys)),
        Gate::Ccx(a, b, c) => Gate::Ccx(remap_qubit(a, l2p, keys), remap_qubit(b, l2p, keys), remap_qubit(c, l2p, keys)),
        Gate::Measure(q, c) => Gate::Measure(remap_qubit(q, l2p, keys), c.clone()),
        Gate::Reset(q) => Gate::Reset(remap_qubit(q, l2p, keys)),
        Gate::Barrier(qs) => Gate::Barrier(remap_qubits(qs, l2p, keys)),
        Gate::Custom { name, params, qubits } => {
            let p = crate::gate::clone_angles(params);
            let r = remap_qubits(qubits, l2p, keys);
            Gate::Custom { name: name.clone(), params: p, qubits: r }
        },
    }
}

/// Where each logical qubit sits (logical to physical), and what each physical qubit holds
/// (physical to logical, `usize::MAX` for none).
pub type Placement = (Seq<usize>, Seq<usize>);

/// The placement covers `n` physical qubits and each side names only what the other can hold.
pub open spec fn placement_ok(m: Placement, n: nat) -> bool {
    &&& m.1.len() == n
    &&& forall|l: int| 0 <= l < m.0.len() ==> #[trigger] m.0[l] < n
    &&& forall|p: int| 0 <= p < n ==> (#[trigger] m.1[p] == usize::MAX || m.1[p] < m.0.len())
}

/// The placement after a SWAP of physical qubits `pa` and `pb`.
pub open spec fn swap_placement(m: Placement, pa: usize, pb: usize) -> Placement {
    let la = m.1[pa as int];
    let lb = m.1[pb as int];
    let l1 = if la != usize::MAX { m.0.update(la as int, pb) } else { m.0 };
    let l2 = if lb != usize::MAX { l1.update(lb as int, pa) } else { l1 };
    (l2, m.1.update(pa as int, lb).update(pb as int, la))
}

/// The number of SWAPs routing makes along the shortest path `path` from the control's
/// qubit to the target's: one for each coupling but the last, which brings the control
/// next to the target.
pub open spec fn swap_count(path: Seq<usize>) -> nat {
    if path.len() >= 2 { (path.len() - 2) as nat } else { 0 }
}

/// The placement after SWAPs along the first `j` couplings of `path`.
pub open spec fn swapped(m: Placement, path: Seq<usize>, j: nat) -> Placement
    decreases j,
{
    if j == 0 {
        m
    } else {
        swap_placement(swapped(m, path, (j - 1) as nat), path[j - 1], path[j as int])
    }
}

/// The SWAP gates along the first `j` couplings of `path`.
pub open spec fn swap_gates(path: Seq<usize>, j: nat) -> Seq<SpecGate> {
    Seq::new(j, |i: int| SpecGate::Swap(phys_key(path[i]), phys_key(path[i + 1])))
}

proof fn lemma_swap_placement(m: Placement, n: nat, pa: usize, pb: usize)
    requires
        placement_ok(m, n),
        pa < n,
        pb < n,
    ensures
        placement_ok(swap_placement(m, pa, pb), n),
        swap_placement(m, pa, pb).0.len() == m.0.len(),
{
    let r = swap_placement(m, pa, pb);
    assert(m.1[pa as int] == usize::MAX || m.1[pa as int] < m.0.len());
    assert(m.1[pb as int] == usize::MAX || m.1[pb as int] < m.0.len());
    assert forall|l: int| 0 <= l < r.0.len() implies #[trigger] r.0[l] < n by {}
    assert forall|p: int| 0 <= p < n implies (#[trigger] r.1[p] == usize::MAX || r.1[p] < r.0.len()) by {}
}

/// Emits SWAPs along every coupling of `path` but the last, updating the placement after
/// each; returns how many it emitted.
fn swap_along(
    path: &Vec<usize>,
    l2p: &mut Vec<usize>,
    p2l: &mut Vec<usize>,
    out: &mut Vec<Gate>,
    Ghost(n): Ghost<nat>,
) -> (k: usize)
    requires
        path@.len() >= 1,
        forall|i: int| 0 <= i < path@.len() ==> #[trigger] path@[i] < n,
        placement_ok((old(l2p)@, old(p2l)@), n),
    ensures
        k == swap_count(path@),
        (final(l2p)@, final(p2l)@) == swapped((old(l2p)@, old(p2l)@), path@, k as nat),
        placement_ok((final(l2p)@, final(p2l)@), n),
        final(l2p)@.len() == old(l2p)@.len(),
        final(out)@.len() == old(out)@.len() + k,
        forall|i: int| 0 <= i < old(out)@.len() ==> #[trigger] final(out)@[i] == old(out)@[i],
        forall|i: int| 0 <= i < k ==> (#[trigger] final(out)@[old(out)@.len() + i])@ == swap_gates(path@, k as nat)[i],
{
    let ghost m0 = (l2p@, p2l@);
    let ghost out0 = out@;
    let mut w: usize = 0;
    let stop = if path.len() >= 2 { path.len() - 2 } else { 0 };
    while w < stop
        invariant
            w <= stop,
            stop == swap_count(path@),
            stop < path@.len(),
            forall|i: int| 0 <= i < path@.len() ==> #[trigger] path@[i] < n,
            (l2p@, p2l@) == swapped(m0, path@, w as nat),
            placement_ok((l2p@, p2l@), n),
            l2p@.len() == m0.0.len(),
            out@.len() == out0.len() + w,
            forall|i: int| 0 <= i < out0.len() ==> #[trigger] out@[i] == out0[i],
            forall|i: int| 0 <= i < w ==> (#[trigger] out@[out0.len() + i])@ == SpecGate::Swap(phys_key(path@[i]), phys_key(path@[i + 1])),
        decreases stop - w,
    {
        let pa = path[w];
        let pb = path[w + 1];
        proof {
            lemma_swap_placement((l2p@, p2l@), n, pa, pb);
        }
        let la = p2l[pa];
        let lb = p2l[pb];
        if la != usize::MAX {
            l2p.set(la, pb);
        }
        if lb != usize::MAX {
            l2p.set(lb, pa);
        }
        p2l.set(pa, lb);
        p2l.set(pb, la);
        out.push(Gate::Swap(phys_qubit_ref(pa), phys_qubit_ref(pb)));
        w += 1;
    }
    proof {
        assert forall|i: int| 0 <= i < w implies (#[trigger] out@[out0.len() + i])@ == swap_gates(path@, w as nat)[i] by {}
    }
    w
}

/// What routing a CX or CZ `g` on qubits `c` and `t` emits, the placement after it, and
/// the number of SWAPs among what it emits. Coupled qubits take that gate as it is; for
/// others, SWAPs along the breadth-first path between them move the control until it is
/// next to the target.
pub open spec fn route_two(edges: Seq<CouplingEdge>, keys: Seq<BitKey>, m: Placement, g: SpecGate, c: BitKey, t: BitKey) -> (Seq<SpecGate>, Placement, nat) {
    let lc = logical_or(keys, c, 0);
    let lt = logical_or(keys, t, 1);
    let pc = m.0[lc];
    let pt = m.0[lt];
    if adjacent(edges, pc, pt) {
        (seq![remap_spec(g, keys, m.0)], m, 0)
    } else {
        let path = bfs_path(edges, pc, pt);
        let k = swap_count(path);
        let m2 = swapped(m, path, k);
        let a = phys_key(m2.0[lc]);
        let b = phys_key(m2.0[lt]);
        (swap_gates(path, k).push(if g is Cx { SpecGate::Cx(a, b) } else { SpecGate::Cz(a, b) }), m2, k)
    }
}

/// What routing gate `g` emits, the placement after it, and the SWAPs it inserted:
/// barriers pass unchanged, other single gates are remapped.
pub open spec fn route_gate(edges: Seq<CouplingEdge>, keys: Seq<BitKey>, m: Placement, g: SpecGate) -> (Seq<SpecGate>, Placement, nat) {
    match g {
        SpecGate::Cx(c, t) => route_two(edges, keys, m, g, c, t),
        SpecGate::Cz(c, t) => route_two(edges, keys, m, g, c, t),
        SpecGate::Barrier(_) => (seq![g], m, 0),
        _ => (seq![remap_spec(g, keys, m.0)], m, 0),
    }
}

/// Routing the gates `gs` in order from placement `m0`: the gates emitted, the final
/// placement, and the SWAPs inserted.
pub open spec fn route_gates(edges: Seq<CouplingEdge>, keys: Seq<BitKey>, m0: Placement, gs: Seq<SpecGate>) -> (Seq<SpecGate>, Placement, nat)
    decreases gs.len(),
{
    if gs.len() == 0 {
        (Seq::empty(), m0, 0)
    } else {
        let r = route_gates(edges, keys, m0, gs.drop_last());
        let s = route_gate(edges, keys, r.1, gs.last());
        (r.0 + s.0, s.1, r.2 + s.2)
    }
}

/// What each of `n` physical qubits holds at the start: the last logical qubit that
/// `mapping` puts on it, or `usize::MAX`.
pub open spec fn holders(mapping: Seq<usize>, n: nat) -> Seq<usize>
    decreases mapping.len(),
{
    if mapping.len() == 0 {
        Seq::new(n, |p: int| usize::MAX)
    } else {
        holders(mapping.drop_last(), n).update(mapping.last() as int, (mapping.len() - 1) as usize)
    }
}

/// Each CX and CZ of `gs` has logical indices (or their defaults) that a mapping of
/// `len` qubits covers.
pub open spec fn two_qubit_indices_ok(keys: Seq<BitKey>, gs: Seq<SpecGate>, len: nat) -> bool {
    forall|i: int| 0 <= i < gs.len() ==> two_qubit_index_ok(keys, #[trigger] gs[i], len)
}

pub open spec fn two_qubit_index_ok(keys: Seq<BitKey>, g: SpecGate, len: nat) -> bool {
    match g {
        SpecGate::Cx(c, t) => logical_or(keys, c, 0) < len && logical_or(keys, t, 1) < len,
        SpecGate::Cz(c, t) => logical_or(keys, c, 0) < len && logical_or(keys, t, 1) < len,
        _ => true,
    }
}

/// Routing `circuit` onto `topology` from `mapping`.
pub open spec fn routing_of(circuit: Circuit, topology: HardwareTopology, mapping: Seq<usize>) -> (Seq<SpecGate>, Placement, nat) {
    route_gates(
        topology.coupling_map@,
        logical_keys(circuit.qregs@),
        (mapping, holders(mapping, topology.qubit_count as nat)),
        gates_view(circuit.gates@),
    )
}

proof fn lemma_swapped(m: Placement, n: nat, path: Seq<usize>, j: nat)
    requires
        placement_ok(m, n),
        j < path.len(),
        forall|i: int| 0 <= i < path.len() ==> #[trigger] path[i] < n,
    ensures
        placement_ok(swapped(m, path, j), n),
        swapped(m, path, j).0.len() == m.0.len(),
    decreases j,
{
    if j > 0 {
        lemma_swapped(m, n, path, (j - 1) as nat);
        lemma_swap_placement(swapped(m, path, (j - 1) as nat), n, path[j - 1], path[j as int]);
    }
}

/// Routing a gate keeps the placement well formed.
proof fn lemma_route_gate(edges: Seq<CouplingEdge>, keys: Seq<BitKey>, m: Placement, g: SpecGate, n: nat)
    requires
        placement_ok(m, n),
        edges_within(edges, n),
        two_qubit_index_ok(keys, g, m.0.len()),
    ensures
        placement_ok(route_gate(edges, keys, m, g).1, n),
        route_gate(edges, keys, m, g).1.0.len() == m.0.len(),
{
    match g {
        SpecGate::Cx(c, t) => lemma_route_two(edges, keys, m, g, c, t, n),
        SpecGate::Cz(c, t) => lemma_route_two(edges, keys, m, g, c, t, n),
        _ => {},
    }
}

proof fn lemma_route_two(edges: Seq<CouplingEdge>, keys: Seq<BitKey>, m: Placement, g: SpecGate, c: BitKey, t: BitKey, n: nat)
    requires
        placement_ok(m, n),
        edges_within(edges, n),
        logical_or(keys, c, 0) < m.0.len(),
        logical_or(keys, t, 1) < m.0.len(),
    ensures
        placement_ok(route_two(edges, keys, m, g, c, t).1, n),
        route_two(edges, keys, m, g, c, t).1.0.len() == m.0.len(),
{
    let lc = logical_or(keys, c, 0);
    let lt = logical_or(keys, t, 1);
    let pc = m.0[lc];
    let pt = m.0[lt];
    if !adjacent(edges, pc, pt) {
        let path = bfs_path(edges, pc, pt);
        lemma_bfs_path_within(edges, pc, pt, n);
        lemma_swapped(m, n, path, swap_count(path));
    }
}

/// Routing a prefix inserts no more SWAPs than routing the whole, and keeps the
/// placement well formed.
proof fn lemma_route_gates(edges: Seq<CouplingEdge>, keys: Seq<BitKey>, m0: Placement, gs: Seq<SpecGate>, n: nat, i: int)
    requires
        placement_ok(m0, n),
        edges_within(edges, n),
        two_qubit_indices_ok(keys, gs, m0.0.len()),
        0 <= i <= gs.len(),
    ensures
        placement_ok(route_gates(edges, keys, m0, gs.subrange(0, i)).1, n),
        route_gates(edges, keys, m0, gs.subrange(0, i)).1.0.len() == m0.0.len(),
        route_gates(edges, keys, m0, gs.subrange(0, i)).2 <= route_gates(edges, keys, m0, gs).2,
    decreases gs.len() - i,
{
    if i < gs.len() {
        lemma_route_gates(edges, keys, m0, gs, n, i + 1);
        let p = gs.subrange(0, i + 1);
        assert(p.drop_last() =~= gs.subrange(0, i));
        let q = gs.subrange(0, i);
        assert forall|j: int| 0 <= j < q.len() implies two_qubit_index_ok(keys, #[trigger] q[j], m0.0.len()) by {
            assert(q[j] == gs[j]);
        }
        lemma_route_prefix_ok(edges, keys, m0, q, n);
    } else {
        assert(gs.subrange(0, i) =~= gs);
        lemma_route_prefix_ok(edges, keys, m0, gs, n);
    }
}

proof fn lemma_route_prefix_ok(edges: Seq<CouplingEdge>, keys: Seq<BitKey>, m0: Placement, gs: Seq<SpecGate>, n: nat)
    requires
        placement_ok(m0, n),
        edges_within(edges, n),
        two_qubit_indices_ok(keys, gs, m0.0.len()),
    ensures
        placement_ok(route_gates(edges, keys, m0, gs).1, n),
        route_gates(edges, keys, m0, gs).1.0.len() == m0.0.len(),
    decreases gs.len(),
{
    if gs.len() > 0 {
        let t = gs.drop_last();
        assert forall|i: int| 0 <= i < t.len() implies two_qubit_index_ok(keys, #[trigger] t[i], m0.0.len()) by {
            assert(t[i] == gs[i]);
        }
        lemma_route_prefix_ok(edges, keys, m0, t, n);
        assert(two_qubit_index_ok(keys, gs[gs.len() - 1], m0.0.len()));
        lemma_route_gate(edges, keys, route_gates(edges, keys, m0, t).1, gs.last(), n);
    }
}

proof fn lemma_holders(mapping: Seq<usize>, n: nat)
    requires
        forall|l: int| 0 <= l < mapping.len() ==> #[trigger] mapping[l] < n,
    ensures
        holders(mapping, n).len() == n,
        forall|p: int| 0 <= p < n ==> (#[trigger] holders(mapping, n)[p] == usize::MAX || holders(mapping, n)[p] < mapping.len()),
    decreases mapping.len(),
{
    if mapping.len() > 0 {
        let t = mapping.drop_last();
        assert forall|l: int| 0 <= l < t.len() implies #[trigger] t[l] < n by {
            assert(t[l] == mapping[l]);
        }
        lemma_holders(t, n);
        assert(mapping[mapping.len() - 1] < n);
    }
}

/// Routes one CX or CZ: emits that gate remapped when its physical qubits are coupled,
/// else SWAPs along the breadth-first path between them and then that gate on the
/// qubits they now sit on. Returns the number of SWAPs.
#[verifier::spinoff_prover]
#[verifier::rlimit(40)]
fn route_two_qubit(
    topology: &HardwareTopology,
    gate: &Gate,
    c: &QubitRef,
    t: &QubitRef,
    keys: &Vec<QubitRef>,
    l2p: &mut Vec<usize>,
    p2l: &mut Vec<usize>,
    out: &mut Vec<Gate>,
) -> (k: usize)
    requires
        gate@ == SpecGate::Cx(c@, t@) || gate@ == SpecGate::Cz(c@, t@),
        keys_distinct(keys_of(keys@)),
        edges_within(topology.coupling_map@, topology.qubit_count as nat),
        topology.coupling_map@.len() < usize::MAX / 2,
        placement_ok((old(l2p)@, old(p2l)@), topology.qubit_count as nat),
        logical_or(keys_of(keys@), c@, 0) < old(l2p)@.len(),
        logical_or(keys_of(keys@), t@, 1) < old(l2p)@.len(),
    ensures
        ({
            let r = route_two(topology.coupling_map@, keys_of(keys@), (old(l2p)@, old(p2l)@), gate@, c@, t@);
            &&& gates_view(final(out)@) == gates_view(old(out)@) + r.0
            &&& (final(l2p)@, final(p2l)@) == r.1
            &&& k == r.2
        }),
{
    let ghost edges = topology.coupling_map@;
    let ghost ks = keys_of(keys@);
    let ghost m0 = (l2p@, p2l@);
    let ghost out0 = out@;
    let ghost n = topology.qubit_count as nat;
    let lc = match logical_index(keys, c) {
        Some(i) => i,
        None => 0,
    };
    let lt = match logical_index(keys, t) {
        Some(i) => i,
        None => 1,
    };
    let pc = l2p[lc];
    let pt = l2p[lt];
    if topology.are_adjacent(pc, pt) {
        let g = remap_gate(gate, l2p, keys);
        out.push(g);
        proof {
            assert(gates_view(out@) =~= gates_view(out0) + seq![remap_spec(gate@, ks, m0.0)]);
        }
        return 0;
    }
    let path = shortest_path(topology, pc, pt);
    proof {
        lemma_bfs_path_within(edges, pc, pt, n);
        lemma_swapped(m0, n, path@, swap_count(path@));
    }
    let k = swap_along(&path, l2p, p2l, out, Ghost(n));
    let a = phys_qubit_ref(l2p[lc]);
    let b = phys_qubit_ref(l2p[lt]);
    let g = match gate {
        Gate::Cx(_, _) => Gate::Cx(a, b),
        _ => Gate::Cz(a, b),
    };
    let ghost out1 = out@;
    out.push(g);
    proof {
        lemma_view_extend(out0, out1, swap_gates(path@, k as nat));
        assert(gates_view(out@) =~= gates_view(out1).push(g@));
    }
    k
}

proof fn lemma_view_extend(out0: Seq<Gate>, out1: Seq<Gate>, extra: Seq<SpecGate>)
    requires
        out1.len() == out0.len() + extra.len(),
        forall|i: int| 0 <= i < out0.len() ==> #[trigger] out1[i] == out0[i],
        forall|i: int| 0 <= i < extra.len() ==> (#[trigger] out1[out0.len() + i])@ == extra[i],
    ensures
        gates_view(out1) == gates_view(out0) + extra,
{
    assert forall|i: int| 0 <= i < out1.len() implies #[trigger] gates_view(out1)[i] == (gates_view(out0) + extra)[i] by {
        if i >= out0.len() {
            assert(out1[out0.len() + (i - out0.len())] == out1[i]);
        }
    }
    assert(gates_view(out1) =~= gates_view(out0) + extra);
}

/// Routes one gate from placement (`l2p`, `p2l`), appending what it emits to `out`;
/// returns the number of SWAPs inserted.
fn route_one(
    topology: &HardwareTopology,
    gate: &Gate,
    keys: &Vec<QubitRef>,
    l2p: &mut Vec<usize>,
    p2l: &mut Vec<usize>,
    out: &mut Vec<Gate>,
) -> (k: usize)
    requires
        keys_distinct(keys_of(keys@)),
        edges_within(topology.coupling_map@, topology.qubit_count as nat),
        topology.coupling_map@.len() < usize::MAX / 2,
        placement_ok((old(l2p)@, old(p2l)@), topology.qubit_count as nat),
        two_qubit_index_ok(keys_of(keys@), gate@, old(l2p)@.len()),
    ensures
        ({
            let r = route_gate(topology.coupling_map@, keys_of(keys@), (old(l2p)@, old(p2l)@), gate@);
            &&& gates_view(final(out)@) == gates_view(old(out)@) + r.0
            &&& (final(l2p)@, final(p2l)@) == r.1
            &&& k == r.2
        }),
{
    let ghost before = out@;
    match gate {
        Gate::Cx(c, t) => route_two_qubit(topology, gate, c, t, keys, l2p, p2l, out),
        Gate::Cz(c, t) => route_two_qubit(topology, gate, c, t, keys, l2p, p2l, out),
        Gate::Barrier(_) => {
            out.push(gate.clone());
            proof { assert(gates_view(out@) =~= gates_view(before) + seq![gate@]); }
            0
        },
        _ => {
            let r = remap_gate(gate, l2p, keys);
            out.push(r);
            proof { assert(gates_view(out@) =~= gates_view(before) + seq![remap_spec(gate@, keys_of(keys@), l2p@)]); }
            0
        },
    }
}

/// Routes `circuit` onto `topology`, starting from `initial_mapping` (logical qubit to
/// physical qubit): each CX or CZ whose physical qubits are not coupled is preceded by
/// SWAPs along the breadth-first path between them; every other gate is remapped onto
/// the physical qubits, barriers excepted. The routed circuit has one register `q` of
/// the topology's size.
#[verifier::spinoff_prover]
#[verifier::rlimit(40)]
pub fn route(circuit: &Circuit, topology: &HardwareTopology, initial_mapping: &[usize]) -> (r: (Circuit, RoutingReport))
    requires
        total_size(circuit.qregs@) <= usize::MAX,
        edges_within(topology.coupling_map@, topology.qubit_count as nat),
        topology.coupling_map@.len() < usize::MAX / 2,
        forall|l: int| 0 <= l < initial_mapping@.len() ==> #[trigger] initial_mapping@[l] < topology.qubit_count,
        two_qubit_indices_ok(logical_keys(circuit.qregs@), gates_view(circuit.gates@), initial_mapping@.len() as nat),
        3 * routing_of(*circuit, *topology, initial_mapping@).2 <= usize::MAX,
    ensures
        r.0.name@ == circuit.name@,
        r.0.qregs@ == seq![(seq!['q'], topology.qubit_count)],
        r.0.cregs@ == circuit.cregs@,
        gates_view(r.0.gates@) == routing_of(*circuit, *topology, initial_mapping@).0,
        r.0.metadata.source is None,
        r.0.metadata.version is None,
        r.1.swaps_inserted == routing_of(*circuit, *topology, initial_mapping@).2,
        r.1.swap_cost_in_cx == 3 * r.1.swaps_inserted,
        r.1.initial_mapping@ == initial_mapping@,
        r.1.final_gate_count == count_non_barrier(gates_view(r.0.gates@)),
{
    let ghost edges = topology.coupling_map@;
    let ghost n = topology.qubit_count as nat;
    let keys = build_logical_index(circuit);
    let ghost ks = keys_of(keys@);
    let mut l2p: Vec<usize> = Vec::new();
    let mut i: usize = 0;
    while i < initial_mapping.len()
        invariant
            i <= initial_mapping@.len(),
            l2p@ == initial_mapping@.subrange(0, i as int),
        decreases initial_mapping@.len() - i,
    {
        l2p.push(initial_mapping[i]);
        i += 1;
    }
    proof {
        assert(l2p@ =~= initial_mapping@);
    }
    let mut p2l: Vec<usize> = Vec::new();
    let mut p: usize = 0;
    while p < topology.qubit_count
        invariant
            p <= n,
            n == topology.qubit_count,
            p2l@ == Seq::new(p as nat, |q: int| usize::MAX),
        decreases n - p,
    {
        p2l.push(usize::MAX);
        proof {
            assert(p2l@ =~= Seq::new(p as nat + 1, |q: int| usize::MAX));
        }
        p += 1;
    }
    let mut l: usize = 0;
    while l < initial_mapping.len()
        invariant
            l <= initial_mapping@.len(),
            n == topology.qubit_count,
            forall|j: int| 0 <= j < initial_mapping@.len() ==> #[trigger] initial_mapping@[j] < n,
            p2l@ == holders(initial_mapping@.subrange(0, l as int), n),
            p2l@.len() == n,
        decreases initial_mapping@.len() - l,
    {
        proof {
            assert(initial_mapping@.subrange(0, l + 1).drop_last() =~= initial_mapping@.subrange(0, l as int));
            lemma_holders(initial_mapping@.subrange(0, l + 1), n);
        }
        p2l.set(initial_mapping[l], l);
        l += 1;
    }
    proof {
        assert(initial_mapping@.subrange(0, l as int) =~= initial_mapping@);
        lemma_holders(initial_mapping@, n);
    }
    let ghost m0 = (l2p@, p2l@);
    let ghost gs = gates_view(circuit.gates@);
    let mut routed: Vec<Gate> = Vec::new();
    let mut swaps: usize = 0;
    let mut g: usize = 0;
    while g < circuit.gates.len()
        invariant
            g <= circuit.gates@.len(),
            gs == gates_view(circuit.gates@),
            ks == keys_of(keys@),
            ks == logical_keys(circuit.qregs@),
            keys_distinct(ks),
            edges == topology.coupling_map@,
            n == topology.qubit_count,
            edges_within(edges, n),
            edges.len() < usize::MAX / 2,
            placement_ok(m0, n),
            m0.0 == initial_mapping@,
            m0 == (initial_mapping@, holders(initial_mapping@, n)),
            two_qubit_indices_ok(ks, gs, m0.0.len()),
            3 * route_gates(edges, ks, m0, gs).2 <= usize::MAX,
            ({
                let r = route_gates(edges, ks, m0, gs.subrange(0, g as int));
                &&& gates_view(routed@) == r.0
                &&& (l2p@, p2l@) == r.1
                &&& swaps == r.2
            }),
            placement_ok((l2p@, p2l@), n),
            l2p@.len() == m0.0.len(),
        decreases circuit.gates@.len() - g,
    {
        proof {
            assert(gs.subrange(0, g + 1).drop_last() =~= gs.subrange(0, g as int));
            lemma_route_gates(edges, ks, m0, gs, n, g + 1);
            assert(two_qubit_index_ok(ks, gs[g as int], m0.0.len()));
        }
        let k = route_one(topology, &circuit.gates[g], &keys, &mut l2p, &mut p2l, &mut routed);
        swaps = swaps + k;
        proof {
            lemma_route_gates(edges, ks, m0, gs, n, g + 1);
        }
        g += 1;
    }
    proof {
        assert(gs.subrange(0, g as int) =~= gs);
    }
    let swap_cost = swaps * 3;
    let mut out = Circuit::new(circuit.name.as_str());
    let ghost e = out.qregs@;
    out.qregs.insert("q", topology.qubit_count);
    proof {
        reveal_strlit("q");
        assert(e.len() == 0);
        assert(!(exists|i: int| 0 <= i < e.len() && e[i].0 == "q"@));
        assert("q"@ =~= seq!['q']);
        assert(out.qregs@ =~= seq![(seq!['q'], topology.qubit_count)]);
    }
    out.cregs = circuit.cregs.clone();
    out.gates = routed;
    let final_gate_count = out.gate_count();
    let report = RoutingReport {
        swaps_inserted: swaps,
        swap_cost_in_cx: swap_cost,
        initial_mapping: l2p_copy(initial_mapping),
        final_gate_count,
    };
    (out, report)
}

/// A copy of a mapping.
fn l2p_copy(m: &[usize]) -> (r: Vec<usize>)
    ensures
        r@ == m@,
{
    let mut r: Vec<usize> = Vec::new();
    let mut i: usize = 0;
    while i < m.len()
        invariant
            i <= m@.len(),
            r@ == m@.subrange(0, i as int),
        decreases m@.len() - i,
    {
        r.push(m[i]);
        i += 1;
    }
    r
}

/// Qubit `v` is exactly `k` couplings away from `src`.
pub open spec fn at_level(edges: Seq<CouplingEdge>, src: usize, v: usize, k: nat) -> bool {
    reach(edges, src, k).contains(v) && (k > 0 ==> !reach(edges, src, (k - 1) as nat).contains(v))
}

/// A walk along couplings: each qubit is coupled to the next.
pub open spec fn is_walk(edges: Seq<CouplingEdge>, path: Seq<usize>) -> bool {
    forall|j: int| 0 <= j < path.len() - 1 ==> adjacent(edges, #[trigger] path[j], path[j + 1])
}

/// A tree path to a qubit `k` couplings away has `k + 1` qubits, starts at `src`, ends at
/// the qubit, walks along couplings, and has its `j`-th qubit exactly `j` couplings away.
proof fn lemma_tree_path_shape(edges: Seq<CouplingEdge>, src: usize, v: usize, k: nat)
    requires
        at_level(edges, src, v, k),
    ensures
        tree_path(edges, src, v, k).len() == k + 1,
        tree_path(edges, src, v, k)[0] == src,
        tree_path(edges, src, v, k)[k as int] == v,
        is_walk(edges, tree_path(edges, src, v, k)),
        forall|j: int| 0 <= j <= k ==> at_level(edges, src, #[trigger] tree_path(edges, src, v, k)[j], j as nat),
    decreases k,
{
    let t = tree_path(edges, src, v, k);
    if k == 0 {
        assert(reach(edges, src, 0).contains(v));
        assert(v == src);
        assert(t == seq![src]);
    } else {
        lemma_parent(edges, src, v, (k - 1) as nat);
        let u = first_adjacent(edges, bfs_order(edges, src, (k - 1) as nat), v)->0;
        lemma_tree_path_shape(edges, src, u, (k - 1) as nat);
        let p = tree_path(edges, src, u, (k - 1) as nat);
        assert(t == p.push(v));
        assert forall|j: int| 0 <= j < t.len() - 1 implies adjacent(edges, #[trigger] t[j], t[j + 1]) by {
            assert(t[j] == p[j]);
            if j + 1 < p.len() {
                assert(t[j + 1] == p[j + 1]);
            } else {
                assert(t[j + 1] == v);
            }
        }
        assert forall|j: int| 0 <= j <= k implies at_level(edges, src, #[trigger] t[j], j as nat) by {
            if j < k {
                assert(t[j] == p[j]);
            }
        }
    }
}

/// No qubit is at two levels.
proof fn lemma_levels_disjoint(edges: Seq<CouplingEdge>, src: usize, v: usize, i: nat, j: nat)
    requires
        at_level(edges, src, v, i),
        at_level(edges, src, v, j),
    ensures
        i == j,
{
    lemma_level_unique(edges, src, v, i, j);
}

/// The breadth-first path to a reachable qubit other than `src` starts at `src`, ends at
/// it, walks along couplings, and visits no qubit twice.
pub proof fn lemma_bfs_path_walk(edges: Seq<CouplingEdge>, src: usize, dst: usize)
    requires
        exists|k: nat| #[trigger] reach(edges, src, k).contains(dst),
    ensures
        bfs_path(edges, src, dst).len() >= 1,
        bfs_path(edges, src, dst)[0] == src,
        bfs_path(edges, src, dst).last() == dst,
        is_walk(edges, bfs_path(edges, src, dst)),
        bfs_path(edges, src, dst).no_duplicates(),
{
    let k0 = choose|k: nat| #[trigger] reach(edges, src, k).contains(dst);
    lemma_path_found(edges, src, dst, k0);
    lemma_first_level(edges, src, dst, k0);
    let l = level_of(edges, src, dst);
    lemma_tree_path_shape(edges, src, dst, l);
    let t = tree_path(edges, src, dst, l);
    assert forall|a: int, b: int| 0 <= a < t.len() && 0 <= b < t.len() && a != b implies t[a] != t[b] by {
        if t[a] == t[b] {
            lemma_levels_disjoint(edges, src, t[a], a as nat, b as nat);
        }
    }
}

/// The two sides of the placement agree: each logical qubit's physical qubit holds it, and
/// each physical qubit that holds a logical qubit is that qubit's.
pub open spec fn placement_consistent(m: Placement, n: nat) -> bool {
    &&& placement_ok(m, n)
    &&& forall|l: int| 0 <= l < m.0.len() ==> #[trigger] m.1[m.0[l] as int] == l
    &&& forall|p: int| 0 <= p < n && m.1[p] != usize::MAX ==> #[trigger] m.0[m.1[p] as int] == p
}

/// A SWAP keeps the placement consistent.
proof fn lemma_swap_consistent(m: Placement, n: nat, pa: usize, pb: usize)
    requires
        placement_consistent(m, n),
        pa < n,
        pb < n,
        m.0.len() <= usize::MAX,
    ensures
        placement_consistent(swap_placement(m, pa, pb), n),
{
    lemma_swap_placement(m, n, pa, pb);
    let r = swap_placement(m, pa, pb);
    let la = m.1[pa as int];
    let lb = m.1[pb as int];
    assert(la == usize::MAX || la < m.0.len());
    assert(lb == usize::MAX || lb < m.0.len());
    if la != usize::MAX {
        assert(m.0[la as int] == pa);
    }
    if lb != usize::MAX {
        assert(m.0[lb as int] == pb);
    }
    assert forall|l: int| 0 <= l < r.0.len() implies #[trigger] r.1[r.0[l] as int] == l by {
        assert(m.1[m.0[l] as int] == l);
        if l == la && la != usize::MAX {
            if lb == la {
                assert(pa == pb);
            }
        } else if l == lb && lb != usize::MAX {
        } else {
            assert(r.0[l] == m.0[l]);
            assert(m.0[l] != pa);
            assert(m.0[l] != pb);
        }
    }
    assert forall|p: int| 0 <= p < n && r.1[p] != usize::MAX implies #[trigger] r.0[r.1[p] as int] == p by {
        if p == pb {
            assert(r.1[p] == la);
            if la == lb {
                assert(pa == pb);
            }
        } else if p == pa {
            assert(r.1[p] == lb);
        } else {
            assert(r.1[p] == m.1[p]);
            assert(m.0[m.1[p] as int] == p);
            assert(m.1[p] != la || la == usize::MAX);
            assert(m.1[p] != lb || lb == usize::MAX);
        }
    }
}

/// SWAPs along the first `j` couplings of a walk carry the logical qubit on its first qubit
/// to its `j`-th; the logical qubit on its last qubit stays there until the last SWAP,
/// which moves it back by one.
proof fn lemma_swap_walk(m: Placement, n: nat, path: Seq<usize>, lc: int, lt: int, j: nat)
    requires
        placement_consistent(m, n),
        m.0.len() <= usize::MAX,
        path.len() >= 2,
        path.no_duplicates(),
        forall|i: int| 0 <= i < path.len() ==> #[trigger] path[i] < n,
        0 <= lc < m.0.len(),
        0 <= lt < m.0.len(),
        lc != lt,
        m.0[lc] == path[0],
        m.0[lt] == path.last(),
        j < path.len(),
    ensures
        placement_consistent(swapped(m, path, j), n),
        swapped(m, path, j).0.len() == m.0.len(),
        swapped(m, path, j).0[lc] == path[j as int],
        j < path.len() - 1 ==> swapped(m, path, j).0[lt] == path.last(),
        j == path.len() - 1 ==> swapped(m, path, j).0[lt] == path[path.len() - 2],
    decreases j,
{
    if j > 0 {
        lemma_swap_walk(m, n, path, lc, lt, (j - 1) as nat);
        let s = swapped(m, path, (j - 1) as nat);
        let pa = path[j - 1];
        let pb = path[j as int];
        lemma_swap_consistent(s, n, pa, pb);
        lemma_swap_placement(s, n, pa, pb);
        let la = s.1[pa as int];
        let lb = s.1[pb as int];
        assert(s.1[s.0[lc] as int] == lc);
        assert(la == lc);
        let k = path.len() - 1;
        if lb != usize::MAX {
            assert(s.0[lb as int] == pb);
            assert(lb != lc);
        }
        if j < k {
            if lb == lt {
                assert(s.0[lt] == pb);
                assert(path[k] != path[j as int]);
            }
        } else {
            assert(s.1[s.0[lt] as int] == lt);
            assert(lb == lt);
        }
    }
}

/// Two physical qubits, as qubits of the routed circuit, are coupled.
pub open spec fn coupled(edges: Seq<CouplingEdge>, a: BitKey, b: BitKey) -> bool {
    a.0 == seq!['q'] && b.0 == seq!['q'] && adjacent(edges, a.1, b.1)
}

/// Every CX and CZ of `gs` acts on coupled qubits.
pub open spec fn two_qubit_gates_coupled(edges: Seq<CouplingEdge>, gs: Seq<SpecGate>) -> bool {
    forall|i: int| 0 <= i < gs.len() ==> match #[trigger] gs[i] {
        SpecGate::Cx(a, b) => coupled(edges, a, b),
        SpecGate::Cz(a, b) => coupled(edges, a, b),
        _ => true,
    }
}

/// Some walk along couplings leads from `a` to `b`.
pub open spec fn reachable(edges: Seq<CouplingEdge>, a: usize, b: usize) -> bool {
    exists|k: nat| #[trigger] reach(edges, a, k).contains(b)
}

/// Every qubit below `n` can reach every other along couplings.
pub open spec fn connected(edges: Seq<CouplingEdge>, n: nat) -> bool {
    forall|a: usize, b: usize| a < n && b < n ==> #[trigger] reachable(edges, a, b)
}

/// A CX or CZ on `c` and `t` that routing can bring together: two distinct declared qubits
/// whose logical indices the mapping covers.
pub open spec fn routable_pair(keys: Seq<BitKey>, c: BitKey, t: BitKey, len: nat) -> bool {
    &&& index_in(keys, c) is Some
    &&& index_in(keys, t) is Some
    &&& c != t
    &&& index_in(keys, c)->0 < len
    &&& index_in(keys, t)->0 < len
}

pub open spec fn routable(keys: Seq<BitKey>, g: SpecGate, len: nat) -> bool {
    match g {
        SpecGate::Cx(c, t) => routable_pair(keys, c, t, len),
        SpecGate::Cz(c, t) => routable_pair(keys, c, t, len),
        _ => true,
    }
}

/// The logical index of a declared qubit does not depend on the default.
proof fn lemma_declared_index(keys: Seq<BitKey>, c: BitKey, len: nat)
    requires
        index_in(keys, c) is Some,
        index_in(keys, c)->0 < len,
    ensures
        logical_or(keys, c, 0) == logical_or(keys, c, 1),
        0 <= logical_or(keys, c, 0) < len,
        0 <= logical_or(keys, c, 0) < keys.len(),
        keys[logical_or(keys, c, 0)] == c,
{
    let i = choose|i: int| 0 <= i < keys.len() && keys[i] == c;
}

/// A CX or CZ whose physical qubits are coupled is emitted remapped, on those qubits.
proof fn lemma_route_two_near(edges: Seq<CouplingEdge>, keys: Seq<BitKey>, m: Placement, g: SpecGate, c: BitKey, t: BitKey)
    requires
        routable_pair(keys, c, t, m.0.len()),
        g == SpecGate::Cx(c, t) || g == SpecGate::Cz(c, t),
        adjacent(edges, m.0[logical_or(keys, c, 0)], m.0[logical_or(keys, t, 1)]),
    ensures
        route_two(edges, keys, m, g, c, t).1 == m,
        two_qubit_gates_coupled(edges, route_two(edges, keys, m, g, c, t).0),
{
    lemma_declared_index(keys, c, m.0.len());
    lemma_declared_index(keys, t, m.0.len());
    let r = route_two(edges, keys, m, g, c, t);
    let x = remap_spec(g, keys, m.0);
    assert(r.0 == seq![x]);
    assert(remap_key(keys, m.0, c) == phys_key(m.0[logical_or(keys, c, 0)]));
    assert(remap_key(keys, m.0, t) == phys_key(m.0[logical_or(keys, t, 1)]));
    assert(r.0[0] == x);
}

/// A CX or CZ whose physical qubits are not coupled is emitted, after the SWAPs, on
/// coupled qubits, and the placement stays consistent.
#[verifier::rlimit(60)]
proof fn lemma_route_two_far(edges: Seq<CouplingEdge>, keys: Seq<BitKey>, m: Placement, g: SpecGate, c: BitKey, t: BitKey, n: nat)
    requires
        placement_consistent(m, n),
        m.0.len() <= usize::MAX,
        edges_within(edges, n),
        connected(edges, n),
        routable_pair(keys, c, t, m.0.len()),
        g == SpecGate::Cx(c, t) || g == SpecGate::Cz(c, t),
        !adjacent(edges, m.0[logical_or(keys, c, 0)], m.0[logical_or(keys, t, 1)]),
    ensures
        placement_consistent(route_two(edges, keys, m, g, c, t).1, n),
        route_two(edges, keys, m, g, c, t).1.0.len() == m.0.len(),
        two_qubit_gates_coupled(edges, route_two(edges, keys, m, g, c, t).0),
{
    lemma_declared_index(keys, c, m.0.len());
    lemma_declared_index(keys, t, m.0.len());
    let lc = logical_or(keys, c, 0);
    let lt = logical_or(keys, t, 1);
    let pc = m.0[lc];
    let pt = m.0[lt];
    assert(lc != lt);
    assert(m.1[pc as int] == lc);
    assert(m.1[pt as int] == lt);
    assert(pc != pt);
    let path = bfs_path(edges, pc, pt);
    assert(reachable(edges, pc, pt));
    lemma_bfs_path_walk(edges, pc, pt);
    lemma_bfs_path_within(edges, pc, pt, n);
    assert(path.len() >= 2) by {
        if path.len() == 1 {
            assert(path[0] == path.last());
        }
    }
    assert(path.len() >= 3) by {
        if path.len() == 2 {
            assert(adjacent(edges, path[0], path[1]));
        }
    }
    let k = (path.len() - 2) as nat;
    lemma_swap_walk(m, n, path, lc, lt, k);
    let m2 = swapped(m, path, k);
    assert(adjacent(edges, path[k as int], path[k as int + 1]));
    let r = route_two(edges, keys, m, g, c, t);
    let sw = swap_gates(path, k);
    let last = if g is Cx { SpecGate::Cx(phys_key(m2.0[lc]), phys_key(m2.0[lt])) } else { SpecGate::Cz(phys_key(m2.0[lc]), phys_key(m2.0[lt])) };
    assert(r.0 == sw.push(last));
    assert forall|x: int| 0 <= x < r.0.len() implies match #[trigger] r.0[x] {
        SpecGate::Cx(a, b) => coupled(edges, a, b),
        SpecGate::Cz(a, b) => coupled(edges, a, b),
        _ => true,
    } by {
        if x < sw.len() {
            assert(r.0[x] == sw[x]);
        } else {
            assert(r.0[x] == last);
        }
    }
}

/// Routing a gate keeps a consistent placement consistent, and emits CX and CZ gates only
/// on coupled qubits.
proof fn lemma_route_gate_coupled(edges: Seq<CouplingEdge>, keys: Seq<BitKey>, m: Placement, g: SpecGate, n: nat)
    requires
        placement_consistent(m, n),
        m.0.len() <= usize::MAX,
        edges_within(edges, n),
        connected(edges, n),
        routable(keys, g, m.0.len()),
    ensures
        placement_consistent(route_gate(edges, keys, m, g).1, n),
        route_gate(edges, keys, m, g).1.0.len() == m.0.len(),
        two_qubit_gates_coupled(edges, route_gate(edges, keys, m, g).0),
{
    let lc = |c: BitKey| logical_or(keys, c, 0);
    match g {
        SpecGate::Cx(c, t) => {
            if adjacent(edges, m.0[logical_or(keys, c, 0)], m.0[logical_or(keys, t, 1)]) {
                lemma_route_two_near(edges, keys, m, g, c, t);
            } else {
                lemma_route_two_far(edges, keys, m, g, c, t, n);
            }
        },
        SpecGate::Cz(c, t) => {
            if adjacent(edges, m.0[logical_or(keys, c, 0)], m.0[logical_or(keys, t, 1)]) {
                lemma_route_two_near(edges, keys, m, g, c, t);
            } else {
                lemma_route_two_far(edges, keys, m, g, c, t, n);
            }
        },
        SpecGate::Barrier(_) => {
            assert(route_gate(edges, keys, m, g).0[0] == g);
        },
        _ => {
            let x = remap_spec(g, keys, m.0);
            assert(route_gate(edges, keys, m, g).0 == seq![x]);
            assert(route_gate(edges, keys, m, g).0[0] == x);
            assert(!(x is Cx) && !(x is Cz));
        },
    }
}

/// Every CX and CZ of `gs` is routable.
pub open spec fn all_routable(keys: Seq<BitKey>, gs: Seq<SpecGate>, len: nat) -> bool {
    forall|i: int| 0 <= i < gs.len() ==> routable(keys, #[trigger] gs[i], len)
}

proof fn lemma_route_gates_coupled(edges: Seq<CouplingEdge>, keys: Seq<BitKey>, m0: Placement, gs: Seq<SpecGate>, n: nat)
    requires
        placement_consistent(m0, n),
        m0.0.len() <= usize::MAX,
        edges_within(edges, n),
        connected(edges, n),
        all_routable(keys, gs, m0.0.len()),
    ensures
        placement_consistent(route_gates(edges, keys, m0, gs).1, n),
        route_gates(edges, keys, m0, gs).1.0.len() == m0.0.len(),
        two_qubit_gates_coupled(edges, route_gates(edges, keys, m0, gs).0),
    decreases gs.len(),
{
    if gs.len() > 0 {
        let t = gs.drop_last();
        assert forall|i: int| 0 <= i < t.len() implies routable(keys, #[trigger] t[i], m0.0.len()) by {
            assert(t[i] == gs[i]);
        }
        lemma_route_gates_coupled(edges, keys, m0, t, n);
        let r = route_gates(edges, keys, m0, t);
        assert(routable(keys, gs[gs.len() - 1], m0.0.len()));
        lemma_route_gate_coupled(edges, keys, r.1, gs.last(), n);
        let s = route_gate(edges, keys, r.1, gs.last());
        let all = r.0 + s.0;
        assert forall|i: int| 0 <= i < all.len() implies match #[trigger] all[i] {
            SpecGate::Cx(a, b) => coupled(edges, a, b),
            SpecGate::Cz(a, b) => coupled(edges, a, b),
            _ => true,
        } by {
            if i < r.0.len() {
                assert(all[i] == r.0[i]);
            } else {
                assert(all[i] == s.0[i - r.0.len()]);
            }
        }
    }
}

/// The starting placement of a mapping that puts distinct logical qubits on distinct
/// physical qubits below `n` is consistent.
proof fn lemma_holders_consistent(mapping: Seq<usize>, n: nat)
    requires
        forall|l: int| 0 <= l < mapping.len() ==> #[trigger] mapping[l] < n,
        mapping.no_duplicates(),
        mapping.len() <= usize::MAX,
    ensures
        placement_consistent((mapping, holders(mapping, n)), n),
    decreases mapping.len(),
{
    lemma_holders(mapping, n);
    if mapping.len() > 0 {
        let t = mapping.drop_last();
        assert forall|l: int| 0 <= l < t.len() implies #[trigger] t[l] < n by {
            assert(t[l] == mapping[l]);
        }
        lemma_holders_consistent(t, n);
        let h0 = holders(t, n);
        let h = holders(mapping, n);
        let last = (mapping.len() - 1) as int;
        assert forall|l: int| 0 <= l < mapping.len() implies #[trigger] h[mapping[l] as int] == l by {
            if l < last {
                assert(mapping[l] == t[l]);
                assert(mapping[l] != mapping[last]);
                let m0: Placement = (t, h0);
                assert(placement_consistent(m0, n));
                assert(0 <= l < m0.0.len());
                assert(m0.1[m0.0[l] as int] == l);
            }
        }
        assert forall|p: int| 0 <= p < n && h[p] != usize::MAX implies #[trigger] mapping[h[p] as int] == p by {
            if p != mapping[last] {
                assert(h[p] == h0[p]);
                assert(t[h0[p] as int] == p);
            }
        }
    }
}

/// Routing meets the coupling map: when the initial mapping puts distinct logical qubits on
/// distinct physical qubits of a connected device, and every CX and CZ acts on two distinct
/// declared qubits that the mapping covers, every CX and CZ of the routed circuit acts on
/// coupled physical qubits.
pub proof fn lemma_route_coupled(circuit: Circuit, topology: HardwareTopology, mapping: Seq<usize>)
    requires
        edges_within(topology.coupling_map@, topology.qubit_count as nat),
        connected(topology.coupling_map@, topology.qubit_count as nat),
        forall|l: int| 0 <= l < mapping.len() ==> #[trigger] mapping[l] < topology.qubit_count,
        mapping.no_duplicates(),
        all_routable(logical_keys(circuit.qregs@), gates_view(circuit.gates@), mapping.len()),
    ensures
        two_qubit_gates_coupled(topology.coupling_map@, routing_of(circuit, topology, mapping).0),
{
    let n = topology.qubit_count as nat;
    assert(mapping.len() <= usize::MAX) by {
        mapping.unique_seq_to_set();
        let all = Set::new(|p: usize| p < topology.qubit_count);
        assert(mapping.to_set().subset_of(all));
        lemma_usize_below(topology.qubit_count);
        vstd::set_lib::lemma_len_subset(mapping.to_set(), all);
    }
    lemma_holders_consistent(mapping, n);
    lemma_route_gates_coupled(
        topology.coupling_map@,
        logical_keys(circuit.qregs@),
        (mapping, holders(mapping, n)),
        gates_view(circuit.gates@),
        n,
    );
}

/// Allocating the circuit's qubits and then routing it leaves every CX and CZ on coupled
/// physical qubits, when the circuit fits on a connected topology with no coupling of a
/// qubit to itself, every CX and CZ names two distinct declared qubits, and no SWAP or
/// Toffoli names one logical qubit twice in its first two places.
pub proof fn lemma_allocate_route_coupled(circuit: Circuit, topology: HardwareTopology)
    requires
        names_distinct(circuit.qregs@),
        total_size(circuit.qregs@) <= topology.qubit_count,
        edges_within(topology.coupling_map@, topology.qubit_count as nat),
        no_self_loops(topology.coupling_map@),
        connected(topology.coupling_map@, topology.qubit_count as nat),
        pairs_distinct(gates_view(circuit.gates@), logical_keys(circuit.qregs@)),
        all_routable(logical_keys(circuit.qregs@), gates_view(circuit.gates@), total_size(circuit.qregs@)),
    ensures
        allocation(circuit, topology) is Some,
        two_qubit_gates_coupled(topology.coupling_map@, routing_of(circuit, topology, allocation(circuit, topology)->0).0),
{
    lemma_allocation_valid(circuit, topology);
    lemma_route_coupled(circuit, topology, allocation(circuit, topology)->0);
}

/// The placement after carrying out the SWAP gates of `gs` in order, starting from `m`;
/// every other gate leaves the placement as it is.
pub open spec fn replay(m: Placement, gs: Seq<SpecGate>) -> Placement
    decreases gs.len(),
{
    if gs.len() == 0 {
        m
    } else {
        let r = replay(m, gs.drop_last());
        match gs.last() {
            SpecGate::Swap(a, b) => swap_placement(r, a.1, b.1),
            _ => r,
        }
    }
}

proof fn lemma_replay_concat(m: Placement, a: Seq<SpecGate>, b: Seq<SpecGate>)
    ensures
        replay(m, a + b) == replay(replay(m, a), b),
    decreases b.len(),
{
    if b.len() == 0 {
        assert(a + b =~= a);
    } else {
        lemma_replay_concat(m, a, b.drop_last());
        assert((a + b).drop_last() =~= a + b.drop_last());
        assert((a + b).last() == b.last());
    }
}

proof fn lemma_replay_swaps(m: Placement, path: Seq<usize>, j: nat)
    requires
        j < path.len(),
    ensures
        replay(m, swap_gates(path, j)) == swapped(m, path, j),
    decreases j,
{
    if j > 0 {
        lemma_replay_swaps(m, path, (j - 1) as nat);
        assert(swap_gates(path, j).drop_last() =~= swap_gates(path, (j - 1) as nat));
    } else {
        assert(swap_gates(path, 0) =~= Seq::<SpecGate>::empty());
    }
}

/// The number of SWAP gates in `gs`.
pub open spec fn swap_total(gs: Seq<SpecGate>) -> nat
    decreases gs.len(),
{
    if gs.len() == 0 {
        0
    } else {
        swap_total(gs.drop_last()) + if gs.last() is Swap { 1nat } else { 0nat }
    }
}

proof fn lemma_swap_total_concat(a: Seq<SpecGate>, b: Seq<SpecGate>)
    ensures
        swap_total(a + b) == swap_total(a) + swap_total(b),
    decreases b.len(),
{
    if b.len() == 0 {
        assert(a + b =~= a);
    } else {
        lemma_swap_total_concat(a, b.drop_last());
        assert((a + b).drop_last() =~= a + b.drop_last());
        assert((a + b).last() == b.last());
    }
}

proof fn lemma_swap_total_swaps(path: Seq<usize>, j: nat)
    ensures
        swap_total(swap_gates(path, j)) == j,
    decreases j,
{
    if j > 0 {
        lemma_swap_total_swaps(path, (j - 1) as nat);
        assert(swap_gates(path, j).drop_last() =~= swap_gates(path, (j - 1) as nat));
    } else {
        assert(swap_gates(path, 0) =~= Seq::<SpecGate>::empty());
    }
}

proof fn lemma_swap_total_push(a: Seq<SpecGate>, x: SpecGate)
    requires
        x !is Swap,
    ensures
        swap_total(a.push(x)) == swap_total(a),
{
    assert(a.push(x).drop_last() =~= a);
}

proof fn lemma_replay_push(m: Placement, a: Seq<SpecGate>, x: SpecGate)
    requires
        x !is Swap,
    ensures
        replay(m, a.push(x)) == replay(m, a),
{
    assert(a.push(x).drop_last() =~= a);
    assert(a.push(x).last() == x);
}

/// A CX or CZ on uncoupled qubits: the routing of `lemma_route_gate_realises` for it.
#[verifier::rlimit(60)]
proof fn lemma_route_two_far_realises(edges: Seq<CouplingEdge>, keys: Seq<BitKey>, m: Placement, g: SpecGate, c: BitKey, t: BitKey, n: nat)
    requires
        placement_consistent(m, n),
        m.0.len() <= usize::MAX,
        edges_within(edges, n),
        connected(edges, n),
        routable_pair(keys, c, t, m.0.len()),
        g == SpecGate::Cx(c, t) || g == SpecGate::Cz(c, t),
        !adjacent(edges, m.0[logical_or(keys, c, 0)], m.0[logical_or(keys, t, 1)]),
    ensures
        route_two(edges, keys, m, g, c, t).0.len() >= 1,
        replay(m, route_two(edges, keys, m, g, c, t).0) == route_two(edges, keys, m, g, c, t).1,
        forall|i: int| 0 <= i < route_two(edges, keys, m, g, c, t).0.len() - 1
            ==> ((#[trigger] route_two(edges, keys, m, g, c, t).0[i]) matches SpecGate::Swap(a, b) && coupled(edges, a, b)),
        route_two(edges, keys, m, g, c, t).0.last() == remap_spec(g, keys, route_two(edges, keys, m, g, c, t).1.0),
        swap_total(route_two(edges, keys, m, g, c, t).0) == route_two(edges, keys, m, g, c, t).2,
        route_two(edges, keys, m, g, c, t).2 + 1 == route_two(edges, keys, m, g, c, t).0.len(),
{
    lemma_declared_index(keys, c, m.0.len());
    lemma_declared_index(keys, t, m.0.len());
    let lc = logical_or(keys, c, 0);
    let lt = logical_or(keys, t, 1);
    let pc = m.0[lc];
    let pt = m.0[lt];
    assert(lc != lt);
    assert(m.1[pc as int] == lc);
    assert(m.1[pt as int] == lt);
    assert(pc != pt);
    let path = bfs_path(edges, pc, pt);
    assert(reachable(edges, pc, pt));
    lemma_bfs_path_walk(edges, pc, pt);
    assert(path.len() >= 3) by {
        if path.len() == 2 {
            assert(adjacent(edges, path[0], path[1]));
        }
        if path.len() == 1 {
            assert(path[0] == path.last());
        }
    }
    let k = swap_count(path);
    let m2 = swapped(m, path, k);
    let sw = swap_gates(path, k);
    let r = route_two(edges, keys, m, g, c, t);
    let last = if g is Cx { SpecGate::Cx(phys_key(m2.0[lc]), phys_key(m2.0[lt])) } else { SpecGate::Cz(phys_key(m2.0[lc]), phys_key(m2.0[lt])) };
    assert(r.0 == sw.push(last));
    assert(r.1 == m2);
    lemma_replay_swaps(m, path, k);
    lemma_replay_push(m, sw, last);
    lemma_swap_total_swaps(path, k);
    lemma_swap_total_push(sw, last);
    lemma_swap_walk(m, n, path, lc, lt, k);
    assert(remap_key(keys, m2.0, c) == phys_key(m2.0[lc]));
    assert(remap_key(keys, m2.0, t) == phys_key(m2.0[lt]));
    assert forall|i: int| 0 <= i < r.0.len() - 1
        implies ((#[trigger] r.0[i]) matches SpecGate::Swap(a, b) && coupled(edges, a, b)) by {
        assert(r.0[i] == sw[i]);
        assert(adjacent(edges, path[i], path[i + 1]));
    }
}

/// Routing one gate that is not a SWAP yields SWAPs on coupled physical qubits, then that
/// gate. Replaying those SWAPs on the starting placement yields the new placement, and the
/// gate lands on the physical qubits where the new placement holds its logical qubits
/// (a barrier stays as it is).
pub proof fn lemma_route_gate_realises(edges: Seq<CouplingEdge>, keys: Seq<BitKey>, m: Placement, g: SpecGate, n: nat)
    requires
        placement_consistent(m, n),
        m.0.len() <= usize::MAX,
        edges_within(edges, n),
        connected(edges, n),
        routable(keys, g, m.0.len()),
        g !is Swap,
    ensures
        route_gate(edges, keys, m, g).0.len() >= 1,
        replay(m, route_gate(edges, keys, m, g).0) == route_gate(edges, keys, m, g).1,
        forall|i: int| 0 <= i < route_gate(edges, keys, m, g).0.len() - 1
            ==> ((#[trigger] route_gate(edges, keys, m, g).0[i]) matches SpecGate::Swap(a, b) && coupled(edges, a, b)),
        g !is Barrier ==> route_gate(edges, keys, m, g).0.last() == remap_spec(g, keys, route_gate(edges, keys, m, g).1.0),
        g is Barrier ==> route_gate(edges, keys, m, g).0.last() == g,
        swap_total(route_gate(edges, keys, m, g).0) == route_gate(edges, keys, m, g).2,
        route_gate(edges, keys, m, g).2 + 1 == route_gate(edges, keys, m, g).0.len(),
{
    let r = route_gate(edges, keys, m, g);
    match g {
        SpecGate::Cx(c, t) | SpecGate::Cz(c, t) => {
            if adjacent(edges, m.0[logical_or(keys, c, 0)], m.0[logical_or(keys, t, 1)]) {
                let x = remap_spec(g, keys, m.0);
                assert(r.0 == seq![x]);
                assert(r.1 == m);
                lemma_replay_push(m, Seq::empty(), x);
                lemma_swap_total_push(Seq::empty(), x);
                assert(seq![x] =~= Seq::<SpecGate>::empty().push(x));
            } else {
                lemma_route_two_far_realises(edges, keys, m, g, c, t, n);
            }
        },
        SpecGate::Barrier(_) => {
            lemma_replay_push(m, Seq::empty(), g);
            lemma_swap_total_push(Seq::empty(), g);
            assert(seq![g] =~= Seq::<SpecGate>::empty().push(g));
        },
        _ => {
            let x = remap_spec(g, keys, m.0);
            assert(x !is Swap);
            lemma_replay_push(m, Seq::empty(), x);
            lemma_swap_total_push(Seq::empty(), x);
            assert(seq![x] =~= Seq::<SpecGate>::empty().push(x));
        },
    }
}

/// No gate of `gs` is a SWAP.
pub open spec fn no_swaps(gs: Seq<SpecGate>) -> bool {
    forall|i: int| 0 <= i < gs.len() ==> !(#[trigger] gs[i] is Swap)
}

/// Every SWAP of `gs` acts on coupled qubits.
pub open spec fn swaps_coupled(edges: Seq<CouplingEdge>, gs: Seq<SpecGate>) -> bool {
    forall|i: int| 0 <= i < gs.len() ==> match #[trigger] gs[i] {
        SpecGate::Swap(a, b) => coupled(edges, a, b),
        _ => true,
    }
}

proof fn lemma_route_gates_realise(edges: Seq<CouplingEdge>, keys: Seq<BitKey>, m0: Placement, gs: Seq<SpecGate>, n: nat)
    requires
        placement_consistent(m0, n),
        m0.0.len() <= usize::MAX,
        edges_within(edges, n),
        connected(edges, n),
        all_routable(keys, gs, m0.0.len()),
        no_swaps(gs),
    ensures
        replay(m0, route_gates(edges, keys, m0, gs).0) == route_gates(edges, keys, m0, gs).1,
        swaps_coupled(edges, route_gates(edges, keys, m0, gs).0),
        swap_total(route_gates(edges, keys, m0, gs).0) == route_gates(edges, keys, m0, gs).2,
    decreases gs.len(),
{
    if gs.len() > 0 {
        let t = gs.drop_last();
        assert forall|i: int| 0 <= i < t.len() implies routable(keys, #[trigger] t[i], m0.0.len()) by {
            assert(t[i] == gs[i]);
        }
        assert forall|i: int| 0 <= i < t.len() implies !(#[trigger] t[i] is Swap) by {
            assert(t[i] == gs[i]);
        }
        lemma_route_gates_realise(edges, keys, m0, t, n);
        lemma_route_gates_coupled(edges, keys, m0, t, n);
        let r = route_gates(edges, keys, m0, t);
        assert(routable(keys, gs[gs.len() - 1], m0.0.len()));
        assert(!(gs[gs.len() - 1] is Swap));
        lemma_route_gate_realises(edges, keys, r.1, gs.last(), n);
        let sg = route_gate(edges, keys, r.1, gs.last());
        lemma_replay_concat(m0, r.0, sg.0);
        lemma_swap_total_concat(r.0, sg.0);
        let all = r.0 + sg.0;
        assert forall|i: int| 0 <= i < all.len() implies match #[trigger] all[i] {
            SpecGate::Swap(a, b) => coupled(edges, a, b),
            _ => true,
        } by {
            if i < r.0.len() {
                assert(all[i] == r.0[i]);
            } else {
                assert(all[i] == sg.0[i - r.0.len()]);
                if i - r.0.len() == sg.0.len() - 1 {
                    let g = gs.last();
                    if !(g is Barrier) {
                        assert(sg.0.last() == remap_spec(g, keys, sg.1.0));
                    }
                }
            }
        }
    }
}

/// Routing a circuit without SWAP gates of its own yields SWAPs only on coupled physical
/// qubits, reports as many SWAPs as it yields, and replaying those SWAPs in order on the
/// starting placement yields exactly the placement routing ends with. Together with `lemma_route_gate_realises`
/// this says the routed circuit moves the logical qubits as routing tracks them.
pub proof fn lemma_routing_realises(circuit: Circuit, topology: HardwareTopology, mapping: Seq<usize>)
    requires
        edges_within(topology.coupling_map@, topology.qubit_count as nat),
        connected(topology.coupling_map@, topology.qubit_count as nat),
        forall|l: int| 0 <= l < mapping.len() ==> #[trigger] mapping[l] < topology.qubit_count,
        mapping.no_duplicates(),
        all_routable(logical_keys(circuit.qregs@), gates_view(circuit.gates@), mapping.len()),
        no_swaps(gates_view(circuit.gates@)),
    ensures
        swaps_coupled(topology.coupling_map@, routing_of(circuit, topology, mapping).0),
        replay((mapping, holders(mapping, topology.qubit_count as nat)), routing_of(circuit, topology, mapping).0)
            == routing_of(circuit, topology, mapping).1,
        swap_total(routing_of(circuit, topology, mapping).0) == routing_of(circuit, topology, mapping).2,
{
    let n = topology.qubit_count as nat;
    assert(mapping.len() <= usize::MAX) by {
        mapping.unique_seq_to_set();
        let all = Set::new(|p: usize| p < topology.qubit_count);
        assert(mapping.to_set().subset_of(all));
        lemma_usize_below(topology.qubit_count);
        vstd::set_lib::lemma_len_subset(mapping.to_set(), all);
    }
    lemma_holders_consistent(mapping, n);
    lemma_route_gates_realise(
        topology.coupling_map@,
        logical_keys(circuit.qregs@),
        (mapping, holders(mapping, n)),
        gates_view(circuit.gates@),
        n,
    );
}

/// There are `n` numbers below `n`.
proof fn lemma_usize_below(n: usize)
    ensures
        Set::new(|p: usize| p < n).finite(),
        Set::new(|p: usize| p < n).len() == n,
    decreases n,
{
    if n == 0 {
        assert(Set::new(|p: usize| p < n) =~= Set::<usize>::empty());
    } else {
        lemma_usize_below((n - 1) as usize);
        assert(Set::new(|p: usize| p < n) =~= Set::new(|p: usize| p < (n - 1) as usize).insert((n - 1) as usize));
    }
}

/// A line of qubits is connected, and its couplings join distinct qubits within it, so
/// routing onto it meets the coupling map.
pub proof fn lemma_linear_connected(n: usize)
    requires
        n >= 1,
    ensures
        connected(linear_edges(n as nat), n as nat),
        edges_within(linear_edges(n as nat), n as nat),
        no_self_loops(linear_edges(n as nat)),
{
    let e = linear_edges(n as nat);
    assert forall|a: usize, b: usize| a < n && b < n implies #[trigger] reachable(e, a, b) by {
        let d: nat = (if b >= a { b - a } else { a - b }) as nat;
        lemma_linear_reach(n, a, d);
        assert(reach(e, a, d).contains(b));
    }
}

/// The heavy-hex layout on `n` qubits is connected, and its couplings join distinct qubits
/// below `n`.
pub proof fn lemma_heavy_hex_connected(n: usize)
    requires
        n >= 1,
    ensures
        connected(heavy_hex_edges(n as nat, 0), n as nat),
        edges_within(heavy_hex_edges(n as nat, 0), n as nat),
        no_self_loops(heavy_hex_edges(n as nat, 0)),
{
    let h = heavy_hex_edges(n as nat, 0);
    let l = linear_edges(n as nat);
    lemma_linear_connected(n);
    lemma_heavy_hex_adjacent(n, 0, 0);
    assert forall|a: usize, b: usize| adjacent(l, a, b) implies adjacent(h, a, b) by {
        lemma_linear_adjacent(n, a, b);
        lemma_heavy_hex_adjacent(n, a, b);
    }
    assert forall|a: usize, b: usize| a < n && b < n implies #[trigger] reachable(h, a, b) by {
        assert(reachable(l, a, b));
        let k = choose|k: nat| #[trigger] reach(l, a, k).contains(b);
        lemma_reach_sub(l, h, a, k);
        assert(reach(h, a, k).contains(b));
    }
}

/// A `rows` x `cols` grid is connected, and its couplings join distinct qubits below
/// `rows * cols`.
pub proof fn lemma_grid_connected(rows: usize, cols: usize)
    requires
        rows * cols <= usize::MAX,
    ensures
        connected(grid_edges(rows as nat, cols as nat, rows as nat), (rows * cols) as nat),
        edges_within(grid_edges(rows as nat, cols as nat, rows as nat), (rows * cols) as nat),
        no_self_loops(grid_edges(rows as nat, cols as nat, rows as nat)),
{
    let (rn, cn) = (rows as nat, cols as nat);
    let e = grid_edges(rn, cn, rn);
    lemma_grid_edges_within(rn, cn);
    assert forall|a: usize, b: usize| a < rows * cols && b < rows * cols implies #[trigger] reachable(e, a, b) by {
        lemma_grid_distance(rows, cols, a, b);
        assert(reach(e, a, grid_gap(cn, a, b)).contains(b));
    }
}

} // verus!
